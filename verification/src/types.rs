//! Parsed session data: metadata, laps, channels and samples.
//!
//! Times are kept as raw logger ticks: the number of timestamp-counter units
//! since the session's first measurement marker (modulo 2^32). Converting
//! ticks to seconds needs the session's time scale, which callers derive
//! from the lap records.
use vstd::prelude::*;
use crate::error::XrkError;
use crate::parser;
use crate::text::{ascii_chars, decimal, push_padded_decimal, zero_pad, lemma_decimal, ascii_to_string};

verus! {

/// Channel identifier: the numeric ID as stored in the XRK file.
pub type ChannelId = u16;

/// Top-level session metadata extracted from XRK header chunks.
#[derive(Debug, Clone, Default)]
pub struct SessionInfo {
    /// Recording date as stored in the file (e.g. "01/19/2026")
    pub date: String,
    /// Recording time as stored in the file (e.g. "13:56:02")
    pub time: String,
    /// Track / venue name
    pub track: String,
    /// Vehicle / car identifier
    pub vehicle: String,
    /// Logger device name or serial number
    pub logger: String,
    /// Total file size in bytes
    pub file_size: usize,
    /// Raw timestamp counter of the first measurement marker
    pub first_ts: u32,
    /// Raw timestamp counter of the last measurement marker
    pub last_ts: u32,
}

/// A single timed lap.
#[derive(Debug, Clone, Copy, PartialEq, Eq, Structural)]
pub struct Lap {
    /// 1-based lap number as recorded by the logger
    pub number: u16,
    /// Lap duration in milliseconds
    pub time_ms: u32,
    /// Session-relative start time in ticks
    pub start_ticks: u32,
}

/// `M:SS.mmm` for a duration of `ms` milliseconds.
pub open spec fn spec_time_str(ms: u32) -> Seq<char> {
    ascii_chars(
        decimal((ms / 60000) as nat) + seq![0x3au8] + zero_pad(decimal(((ms % 60000) / 1000) as nat), 2)
            + seq![0x2eu8] + zero_pad(decimal((ms % 1000) as nat), 3),
    )
}

impl Lap {
    /// Format the lap time as `M:SS.mmm` (e.g. `"0:18.696"`).
    pub fn time_str(&self) -> (s: String)
        ensures
            s@ == spec_time_str(self.time_ms),
    {
        let ms = self.time_ms;
        let mut out: Vec<u8> = Vec::new();
        push_padded_decimal(&mut out, ms / 60000, 0);
        out.push(0x3a);
        push_padded_decimal(&mut out, (ms % 60000) / 1000, 2);
        out.push(0x2e);
        push_padded_decimal(&mut out, ms % 1000, 3);
        proof {
            lemma_decimal((ms / 60000) as nat);
            lemma_decimal(((ms % 60000) / 1000) as nat);
            lemma_decimal((ms % 1000) as nat);
            assert((ms % 60000) % 1000 == ms % 1000);
            assert(out@ =~= decimal((ms / 60000) as nat) + seq![0x3au8] + zero_pad(
                decimal(((ms % 60000) / 1000) as nat),
                2,
            ) + seq![0x2eu8] + zero_pad(decimal((ms % 1000) as nat), 3));
        }
        ascii_to_string(out.as_slice())
    }
}

/// A single time-stamped measurement: a raw ADC count (0-65535), uncalibrated.
#[derive(Debug, Clone, Copy, PartialEq, Eq, Structural)]
pub struct Sample {
    /// Session-relative time in ticks
    pub ticks: u32,
    /// Raw ADC value (0-65535)
    pub raw: u16,
}

/// The smallest raw value among `s`, if any.
pub open spec fn is_min_raw(s: Seq<Sample>, m: u16) -> bool {
    (exists|i: int| 0 <= i < s.len() && s[i].raw == m) && forall|i: int|
        0 <= i < s.len() ==> m <= #[trigger] s[i].raw
}

/// The largest raw value among `s`, if any.
pub open spec fn is_max_raw(s: Seq<Sample>, m: u16) -> bool {
    (exists|i: int| 0 <= i < s.len() && s[i].raw == m) && forall|i: int|
        0 <= i < s.len() ==> #[trigger] s[i].raw <= m
}

/// Minimum raw ADC value of a run of samples.
pub fn raw_min(samples: &[Sample]) -> (r: Option<u16>)
    ensures
        r is None <==> samples@.len() == 0,
        r matches Some(m) ==> is_min_raw(samples@, m),
{
    if samples.len() == 0 {
        return None;
    }
    let mut m = samples[0].raw;
    let mut i: usize = 1;
    while i < samples.len()
        invariant
            1 <= i <= samples@.len(),
            exists|k: int| 0 <= k < i && samples@[k].raw == m,
            forall|k: int| 0 <= k < i ==> m <= #[trigger] samples@[k].raw,
        decreases samples.len() - i,
    {
        if samples[i].raw < m {
            m = samples[i].raw;
        }
        i += 1;
    }
    Some(m)
}

/// Maximum raw ADC value of a run of samples.
pub fn raw_max(samples: &[Sample]) -> (r: Option<u16>)
    ensures
        r is None <==> samples@.len() == 0,
        r matches Some(m) ==> is_max_raw(samples@, m),
{
    if samples.len() == 0 {
        return None;
    }
    let mut m = samples[0].raw;
    let mut i: usize = 1;
    while i < samples.len()
        invariant
            1 <= i <= samples@.len(),
            exists|k: int| 0 <= k < i && samples@[k].raw == m,
            forall|k: int| 0 <= k < i ==> #[trigger] samples@[k].raw <= m,
        decreases samples.len() - i,
    {
        if samples[i].raw > m {
            m = samples[i].raw;
        }
        i += 1;
    }
    Some(m)
}

/// A named data channel with its complete time-series sample array.
///
/// Channel names and IDs are read directly from the XRK file.
#[derive(Debug, Clone)]
pub struct Channel {
    /// Numeric channel ID (0-based, as stored in the file)
    pub id: ChannelId,
    /// Human-readable name from the file
    pub name: String,
    /// Short code from the file (e.g. "Ch01", "InlA")
    pub short_name: String,
    /// All samples, sorted by time
    pub samples: Vec<Sample>,
}

/// The contents of a channel as mathematical values.
pub struct ChannelModel {
    pub id: ChannelId,
    pub name: Seq<char>,
    pub short_name: Seq<char>,
    pub samples: Seq<Sample>,
}

impl View for Channel {
    type V = ChannelModel;

    open spec fn view(&self) -> ChannelModel {
        ChannelModel {
            id: self.id,
            name: self.name@,
            short_name: self.short_name@,
            samples: self.samples@,
        }
    }
}

impl Channel {
    /// Minimum raw ADC value across all samples.
    pub fn min(&self) -> (r: Option<u16>)
        ensures
            r is None <==> self.samples@.len() == 0,
            r matches Some(m) ==> is_min_raw(self.samples@, m),
    {
        raw_min(self.samples.as_slice())
    }

    /// Maximum raw ADC value across all samples.
    pub fn max(&self) -> (r: Option<u16>)
        ensures
            r is None <==> self.samples@.len() == 0,
            r matches Some(m) ==> is_max_raw(self.samples@, m),
    {
        raw_max(self.samples.as_slice())
    }
}

/// A fully-parsed AiM XRK session.
///
/// All channel names, IDs, and sample data are read directly from the file.
#[derive(Debug)]
pub struct XrkFile {
    /// Session metadata (track, date, time, vehicle, logger)
    pub info: SessionInfo,
    /// All timed laps, sorted by lap number
    pub laps: Vec<Lap>,
    /// All channels found in the file, in the order they appear
    pub channels: Vec<Channel>,
}

impl XrkFile {
    /// Parse an XRK file already loaded into memory.
    pub fn from_bytes(data: &[u8]) -> (r: Result<Self, XrkError>)
        requires
            parser::chs_positions(data@).len() <= 65535,
        ensures
            data@.len() < 64 ==> (r matches Err(XrkError::FileTooSmall(n)) && n == data@.len()),
            data@.len() >= 64 && !parser::has_ts_marker(data@) ==> r matches Err(
                XrkError::NoDataMarkers,
            ),
            r is Ok <==> data@.len() >= 64 && parser::has_ts_marker(data@),
            r matches Ok(f) ==> parser::is_parse_of(data@, f),
    {
        parser::parse(data)
    }

    /// Look up a channel by its name (case-sensitive, as stored in the file).
    pub fn channel(&self, name: &str) -> (r: Option<&Channel>)
        ensures
            r == (if channel_index_by_name(self.channels@, name@) < 0 {
                None
            } else {
                Some(&self.channels@[channel_index_by_name(self.channels@, name@)])
            }),
    {
        proof {
            lemma_channel_index_by_name(self.channels@, name@);
        }
        let target = name.to_owned();
        let mut i: usize = 0;
        while i < self.channels.len()
            invariant
                i <= self.channels@.len(),
                target@ == name@,
                forall|j: int| 0 <= j < i ==> (#[trigger] self.channels@[j]).name@ != name@,
            decreases self.channels.len() - i,
        {
            if self.channels[i].name == target {
                proof {
                    lemma_channel_index_by_name(self.channels@, name@);
                }
                return Some(&self.channels[i]);
            }
            i += 1;
        }
        None
    }

    /// Look up a channel by its numeric ID.
    pub fn channel_by_id(&self, id: ChannelId) -> (r: Option<&Channel>)
        ensures
            r == (if channel_index_by_id(self.channels@, id) < 0 {
                None
            } else {
                Some(&self.channels@[channel_index_by_id(self.channels@, id)])
            }),
    {
        proof {
            lemma_channel_index_by_id(self.channels@, id);
        }
        let mut i: usize = 0;
        while i < self.channels.len()
            invariant
                i <= self.channels@.len(),
                forall|j: int| 0 <= j < i ==> (#[trigger] self.channels@[j]).id != id,
            decreases self.channels.len() - i,
        {
            if self.channels[i].id == id {
                proof {
                    lemma_channel_index_by_id(self.channels@, id);
                }
                return Some(&self.channels[i]);
            }
            i += 1;
        }
        None
    }

    /// All channel names present in this file, in channel order.
    pub fn channel_names(&self) -> (r: Vec<&str>)
        ensures
            r@.len() == self.channels@.len(),
            forall|i: int| 0 <= i < r@.len() ==> (#[trigger] r@[i])@ == self.channels@[i].name@,
    {
        let mut names: Vec<&str> = Vec::new();
        let mut i: usize = 0;
        while i < self.channels.len()
            invariant
                i <= self.channels@.len(),
                names@.len() == i,
                forall|j: int| 0 <= j < i ==> (#[trigger] names@[j])@ == self.channels@[j].name@,
            decreases self.channels.len() - i,
        {
            names.push(self.channels[i].name.as_str());
            i += 1;
        }
        names
    }

    /// The fastest lap with a duration of at least `min_ms` milliseconds (the
    /// first of equally fast ones). Pass `min_ms = 0` to include all laps.
    pub fn best_lap(&self, min_ms: u32) -> (r: Option<&Lap>)
        ensures
            r is None <==> forall|i: int|
                0 <= i < self.laps@.len() ==> (#[trigger] self.laps@[i]).time_ms < min_ms,
            r matches Some(l) ==> exists|i: int|
                0 <= i < self.laps@.len() && *l == self.laps@[i] && is_best_lap(self.laps@, min_ms, i),
    {
        let mut best: Option<usize> = None;
        let mut i: usize = 0;
        while i < self.laps.len()
            invariant
                i <= self.laps@.len(),
                best is None <==> forall|j: int| 0 <= j < i ==> (#[trigger] self.laps@[j]).time_ms < min_ms,
                best matches Some(b) ==> b < i && is_best_lap(self.laps@.take(i as int), min_ms, b as int),
            decreases self.laps.len() - i,
        {
            let t = self.laps[i].time_ms;
            if t >= min_ms {
                match best {
                    None => {
                        best = Some(i);
                    },
                    Some(b) => {
                        if t < self.laps[b].time_ms {
                            best = Some(i);
                        }
                    },
                }
            }
            proof {
                let pre = self.laps@.take(i as int);
                let post = self.laps@.take(i + 1);
                assert forall|j: int| 0 <= j < i implies pre[j] == post[j] && post[j] == self.laps@[j] by {}
            }
            i += 1;
        }
        assert(self.laps@.take(i as int) =~= self.laps@);
        match best {
            Some(b) => Some(&self.laps[b]),
            None => None,
        }
    }
}

/// Index of the first channel of `chans` named `name`, or -1.
pub open spec fn channel_index_by_name(chans: Seq<Channel>, name: Seq<char>) -> int
    decreases chans.len(),
{
    if chans.len() == 0 {
        -1
    } else {
        let r = channel_index_by_name(chans.drop_last(), name);
        if r >= 0 {
            r
        } else if chans.last().name@ == name {
            chans.len() - 1
        } else {
            -1
        }
    }
}

/// Index of the first channel of `chans` with ID `id`, or -1.
pub open spec fn channel_index_by_id(chans: Seq<Channel>, id: ChannelId) -> int
    decreases chans.len(),
{
    if chans.len() == 0 {
        -1
    } else {
        let r = channel_index_by_id(chans.drop_last(), id);
        if r >= 0 {
            r
        } else if chans.last().id == id {
            chans.len() - 1
        } else {
            -1
        }
    }
}

/// `channel_index_by_name` finds the first channel with the name, if any.
pub proof fn lemma_channel_index_by_name(chans: Seq<Channel>, name: Seq<char>)
    ensures
        -1 <= channel_index_by_name(chans, name) < chans.len(),
        channel_index_by_name(chans, name) >= 0 ==> chans[channel_index_by_name(chans, name)].name@
            == name,
        forall|i: int|
            0 <= i < chans.len() && (i < channel_index_by_name(chans, name) || channel_index_by_name(
                chans,
                name,
            ) < 0) ==> (#[trigger] chans[i]).name@ != name,
    decreases chans.len(),
{
    if chans.len() > 0 {
        let pre = chans.drop_last();
        lemma_channel_index_by_name(pre, name);
        assert forall|i: int| 0 <= i < pre.len() implies chans[i] == pre[i] by {}
    }
}

/// `channel_index_by_id` finds the first channel with the ID, if any.
pub proof fn lemma_channel_index_by_id(chans: Seq<Channel>, id: ChannelId)
    ensures
        -1 <= channel_index_by_id(chans, id) < chans.len(),
        channel_index_by_id(chans, id) >= 0 ==> chans[channel_index_by_id(chans, id)].id == id,
        forall|i: int|
            0 <= i < chans.len() && (i < channel_index_by_id(chans, id) || channel_index_by_id(
                chans,
                id,
            ) < 0) ==> (#[trigger] chans[i]).id != id,
    decreases chans.len(),
{
    if chans.len() > 0 {
        let pre = chans.drop_last();
        lemma_channel_index_by_id(pre, id);
        assert forall|i: int| 0 <= i < pre.len() implies chans[i] == pre[i] by {}
    }
}

/// Lap `i` of `laps` lasts at least `min_ms`, no lap of at least `min_ms` is
/// faster, and every earlier lap of at least `min_ms` is slower.
pub open spec fn is_best_lap(laps: Seq<Lap>, min_ms: u32, i: int) -> bool {
    &&& 0 <= i < laps.len()
    &&& laps[i].time_ms >= min_ms
    &&& forall|j: int|
        0 <= j < laps.len() && (#[trigger] laps[j]).time_ms >= min_ms ==> laps[i].time_ms
            <= laps[j].time_ms
    &&& forall|j: int|
        0 <= j < i && (#[trigger] laps[j]).time_ms >= min_ms ==> laps[i].time_ms < laps[j].time_ms
}

} // verus!
