//! Properties that hold of every parsed session.
use vstd::prelude::*;
use crate::parser::{
    is_lap_table, lap_tag, is_lap_chunk, ascii_strings, chs_positions, find_channel, new_channel, block_positions_upto, has_tag, has_ts_marker, is_first_ts, is_last_ts, is_sample_block,
    is_ts_marker, marker_ts, sample_tag, add_block, block_channel, block_len, block_positions, block_samples, distribute, lemma_find_channel,
    first_with_number, is_parse_of, is_sorted_version, lap_at, lap_records_upto, sorted_by_ticks,
    spec_channel_defs, spec_lap_records, unique_ids, valid_lap, with_samples,
};
use crate::text::{ascii_chars, decimal, lemma_decimal, zero_pad};
use crate::types::{spec_time_str, Lap, 
    is_max_raw, is_min_raw, channel_index_by_id, channel_index_by_name, lemma_channel_index_by_id,
    lemma_channel_index_by_name, Channel, ChannelModel, Sample, XrkFile,
};

verus! {

broadcast use vstd::seq_lib::group_seq_properties;

/// Every lap record taken from the file is a plausible lap.
proof fn lemma_lap_records_valid(d: Seq<u8>, n: int, first_ts: u32)
    ensures
        forall|k: int|
            0 <= k < lap_records_upto(d, n, first_ts).len() ==> valid_lap(
                #[trigger] lap_records_upto(d, n, first_ts)[k],
            ),
    decreases n,
{
    if n > 0 {
        lemma_lap_records_valid(d, n - 1, first_ts);
        let prev = lap_records_upto(d, n - 1, first_ts);
        assert forall|k: int| 0 <= k < prev.len() implies prev.push(lap_at(d, n - 1, first_ts))[k]
            == prev[k] by {}
    }
}

/// The laps of a parsed session are sorted by strictly increasing lap number,
/// and each has a number in 1..=500 and a duration of 0.5 s to one hour.
pub proof fn lemma_parsed_laps(d: Seq<u8>, f: XrkFile)
    requires
        is_parse_of(d, f),
    ensures
        forall|i: int, j: int| 0 <= i < j < f.laps@.len() ==> f.laps@[i].number < f.laps@[j].number,
        forall|i: int| 0 <= i < f.laps@.len() ==> valid_lap(#[trigger] f.laps@[i]),
{
    let recs = spec_lap_records(d, f.info.first_ts);
    lemma_lap_records_valid(d, d.len() as int, f.info.first_ts);
    assert forall|i: int| 0 <= i < f.laps@.len() implies valid_lap(#[trigger] f.laps@[i]) by {
        assert(first_with_number(recs, f.laps@[i]));
        let k = choose|k: int|
            #![trigger recs[k]]
            0 <= k < recs.len() && recs[k] == f.laps@[i] && forall|j: int|
                0 <= j < k ==> (#[trigger] recs[j]).number != f.laps@[i].number;
    }
}

/// Adding a block keeps channel IDs distinct.
proof fn lemma_add_block_unique(chans: Seq<ChannelModel>, id: u16, samples: Seq<Sample>)
    requires
        unique_ids(chans),
    ensures
        unique_ids(add_block(chans, id, samples)),
        add_block(chans, id, samples).len() >= chans.len(),
{
    lemma_find_channel(chans, id);
}

/// Distributing blocks keeps channel IDs distinct.
proof fn lemma_distribute_unique(chans: Seq<ChannelModel>, d: Seq<u8>, ps: Seq<int>, first_ts: u32)
    requires
        unique_ids(chans),
    ensures
        unique_ids(distribute(chans, d, ps, first_ts)),
    decreases ps.len(),
{
    if ps.len() > 0 {
        lemma_distribute_unique(chans, d, ps.drop_last(), first_ts);
        lemma_add_block_unique(
            distribute(chans, d, ps.drop_last(), first_ts),
            block_channel(d, ps.last()),
            block_samples(d, ps.last(), first_ts),
        );
    }
}

/// Keeping the channels with samples keeps channel IDs distinct, and every
/// kept channel has samples.
proof fn lemma_with_samples_props(s: Seq<ChannelModel>)
    requires
        unique_ids(s),
    ensures
        unique_ids(with_samples(s)),
        forall|i: int| 0 <= i < with_samples(s).len() ==> (#[trigger] with_samples(s)[i]).samples.len() > 0,
    decreases s.len(),
{
    reveal_with_fuel(Seq::<ChannelModel>::filter, 1);
    let pred = |c: ChannelModel| c.samples.len() > 0;
    assert forall|i: int| 0 <= i < with_samples(s).len() implies (#[trigger] with_samples(s)[i]).samples.len() > 0 by {
        s.lemma_filter_pred(pred, i);
    }
    if s.len() > 0 {
        let pre = s.drop_last();
        assert forall|i: int, j: int| 0 <= i < j < pre.len() implies pre[i].id != pre[j].id by {
            assert(pre[i] == s[i] && pre[j] == s[j]);
        }
        lemma_with_samples_props(pre);
        let fp = with_samples(pre);
        if pred(s.last()) {
            assert forall|i: int| 0 <= i < fp.len() implies fp[i].id != s.last().id by {
                assert(fp.contains(fp[i]));
                pre.lemma_filter_contains_rev(pred, fp[i]);
                let k = choose|k: int| 0 <= k < pre.len() && pre[k] == fp[i];
                assert(s[k] == pre[k]);
            }
            assert(with_samples(s) == fp.push(s.last()));
            assert forall|i: int, j: int| 0 <= i < j < with_samples(s).len() implies with_samples(s)[i].id
                != with_samples(s)[j].id by {
                if j < fp.len() {
                    assert(with_samples(s)[i] == fp[i] && with_samples(s)[j] == fp[j]);
                } else {
                    assert(with_samples(s)[i] == fp[i]);
                }
            }
        } else {
            assert(with_samples(s) == fp);
        }
    }
}

/// The channels of a parsed session have distinct IDs, each holds at least
/// one sample, and each holds its samples in time order.
pub proof fn lemma_parsed_channels(d: Seq<u8>, f: XrkFile)
    requires
        is_parse_of(d, f),
    ensures
        forall|i: int, j: int|
            0 <= i < j < f.channels@.len() ==> f.channels@[i].id != f.channels@[j].id,
        forall|i: int| 0 <= i < f.channels@.len() ==> (#[trigger] f.channels@[i]).samples@.len() > 0,
        forall|i: int| 0 <= i < f.channels@.len() ==> sorted_by_ticks((#[trigger] f.channels@[i]).samples@),
{
    let defs = spec_channel_defs(d);
    assert forall|i: int, j: int| 0 <= i < j < defs.len() implies defs[i].id != defs[j].id by {
        assert(defs[i].id == i as u16 && defs[j].id == j as u16);
    }
    let dist = distribute(defs, d, block_positions(d), f.info.first_ts);
    lemma_distribute_unique(defs, d, block_positions(d), f.info.first_ts);
    lemma_with_samples_props(dist);
    let kept = with_samples(dist);
    assert forall|i: int| 0 <= i < f.channels@.len() implies (#[trigger] f.channels@[i]).samples@.len() > 0 by {
        assert(is_sorted_version(kept[i], f.channels@[i]@));
        kept[i].samples.to_multiset_ensures();
        f.channels@[i].samples@.to_multiset_ensures();
    }
    assert forall|i: int, j: int| 0 <= i < j < f.channels@.len() implies f.channels@[i].id
        != f.channels@[j].id by {
        assert(is_sorted_version(kept[i], f.channels@[i]@));
        assert(is_sorted_version(kept[j], f.channels@[j]@));
    }
    assert forall|i: int| 0 <= i < f.channels@.len() implies sorted_by_ticks((#[trigger] f.channels@[i]).samples@) by {
        assert(is_sorted_version(kept[i], f.channels@[i]@));
    }
}

/// Every channel is found by its own name: the lookup returns a channel with
/// that name, and no earlier one.
pub proof fn lemma_channel_found_by_name(chans: Seq<Channel>, i: int)
    requires
        0 <= i < chans.len(),
    ensures
        0 <= channel_index_by_name(chans, chans[i].name@) <= i,
        chans[channel_index_by_name(chans, chans[i].name@)].name@ == chans[i].name@,
{
    lemma_channel_index_by_name(chans, chans[i].name@);
}

/// In a parsed session, looking a channel up by its ID returns that very channel.
pub proof fn lemma_channel_found_by_id(d: Seq<u8>, f: XrkFile, i: int)
    requires
        is_parse_of(d, f),
        0 <= i < f.channels@.len(),
    ensures
        channel_index_by_id(f.channels@, f.channels@[i].id) == i,
{
    lemma_parsed_channels(d, f);
    lemma_channel_index_by_id(f.channels@, f.channels@[i].id);
}

/// Total number of samples held by `chans`.
pub open spec fn total_samples(chans: Seq<ChannelModel>) -> nat
    decreases chans.len(),
{
    if chans.len() == 0 {
        0
    } else {
        total_samples(chans.drop_last()) + chans.last().samples.len()
    }
}

/// Total number of samples in the blocks at positions `ps`.
pub open spec fn block_sample_total(d: Seq<u8>, ps: Seq<int>) -> nat
    decreases ps.len(),
{
    if ps.len() == 0 {
        0
    } else {
        block_sample_total(d, ps.drop_last()) + block_len(d, ps.last()) as nat
    }
}

proof fn lemma_total_update(s: Seq<ChannelModel>, i: int, c: ChannelModel)
    requires
        0 <= i < s.len(),
    ensures
        total_samples(s.update(i, c)) + s[i].samples.len() == total_samples(s) + c.samples.len(),
    decreases s.len(),
{
    let u = s.update(i, c);
    if i == s.len() - 1 {
        assert(u.drop_last() =~= s.drop_last());
    } else {
        lemma_total_update(s.drop_last(), i, c);
        assert(u.drop_last() =~= s.drop_last().update(i, c));
    }
}

proof fn lemma_total_push(s: Seq<ChannelModel>, c: ChannelModel)
    ensures
        total_samples(s.push(c)) == total_samples(s) + c.samples.len(),
{
    assert(s.push(c).drop_last() =~= s);
}

/// Distributing blocks adds exactly their samples.
proof fn lemma_total_distribute(chans: Seq<ChannelModel>, d: Seq<u8>, ps: Seq<int>, first_ts: u32)
    ensures
        total_samples(distribute(chans, d, ps, first_ts)) == total_samples(chans) + block_sample_total(d, ps),
    decreases ps.len(),
{
    if ps.len() > 0 {
        lemma_total_distribute(chans, d, ps.drop_last(), first_ts);
        let prev = distribute(chans, d, ps.drop_last(), first_ts);
        let id = block_channel(d, ps.last());
        let s = block_samples(d, ps.last(), first_ts);
        lemma_find_channel(prev, id);
        let i = crate::parser::find_channel(prev, id);
        if i >= 0 {
            let c = ChannelModel {
                id: prev[i].id,
                name: prev[i].name,
                short_name: prev[i].short_name,
                samples: prev[i].samples + s,
            };
            lemma_total_update(prev, i, c);
        } else {
            lemma_total_push(prev, crate::parser::new_channel(id, s));
        }
    }
}

/// The defined channels hold no samples.
proof fn lemma_total_defs(d: Seq<u8>, n: int)
    requires
        0 <= n <= spec_channel_defs(d).len(),
    ensures
        total_samples(spec_channel_defs(d).take(n)) == 0,
    decreases n,
{
    if n > 0 {
        lemma_total_defs(d, n - 1);
        assert(spec_channel_defs(d).take(n).drop_last() =~= spec_channel_defs(d).take(n - 1));
    }
}

/// Dropping the channels without samples drops no sample.
proof fn lemma_total_with_samples(s: Seq<ChannelModel>)
    ensures
        total_samples(with_samples(s)) == total_samples(s),
    decreases s.len(),
{
    reveal_with_fuel(Seq::<ChannelModel>::filter, 1);
    if s.len() > 0 {
        lemma_total_with_samples(s.drop_last());
        if s.last().samples.len() > 0 {
            lemma_total_push(with_samples(s.drop_last()), s.last());
        }
    }
}

/// Channel lists whose channels have the same sample counts hold the same total.
proof fn lemma_total_same_counts(a: Seq<ChannelModel>, b: Seq<ChannelModel>)
    requires
        a.len() == b.len(),
        forall|i: int| 0 <= i < a.len() ==> a[i].samples.len() == b[i].samples.len(),
    ensures
        total_samples(a) == total_samples(b),
    decreases a.len(),
{
    if a.len() > 0 {
        lemma_total_same_counts(a.drop_last(), b.drop_last());
    }
}

/// A parsed session holds every sample of every well-formed measurement
/// block, and no other: the sample counts of its channels add up to the
/// sample counts of the blocks.
pub proof fn lemma_parsed_sample_count(d: Seq<u8>, f: XrkFile)
    requires
        is_parse_of(d, f),
    ensures
        total_samples(f.channels@.map_values(|c: Channel| c@)) == block_sample_total(d, block_positions(d)),
{
    let defs = spec_channel_defs(d);
    let dist = distribute(defs, d, block_positions(d), f.info.first_ts);
    let kept = with_samples(dist);
    let got = f.channels@.map_values(|c: Channel| c@);
    lemma_total_defs(d, defs.len() as int);
    assert(defs.take(defs.len() as int) =~= defs);
    lemma_total_distribute(defs, d, block_positions(d), f.info.first_ts);
    lemma_total_with_samples(dist);
    assert forall|i: int| 0 <= i < got.len() implies got[i].samples.len() == kept[i].samples.len() by {
        assert(is_sorted_version(kept[i], f.channels@[i]@));
        kept[i].samples.to_multiset_ensures();
        f.channels@[i].samples@.to_multiset_ensures();
    }
    lemma_total_same_counts(got, kept);
}

/// The smallest raw value of a run of samples is at most its largest.
pub proof fn lemma_min_le_max(s: Seq<Sample>, lo: u16, hi: u16)
    requires
        is_min_raw(s, lo),
        is_max_raw(s, hi),
    ensures
        lo <= hi,
{
    let i = choose|i: int| 0 <= i < s.len() && s[i].raw == lo;
    assert(s[i].raw <= hi);
}


// ─── The byte layout of measurement markers ──────────────────────────────────

/// Bytes `)(M` at `p`, followed by room for a four-byte timestamp.
pub open spec fn holds_measure_marker(d: Seq<u8>, p: int) -> bool {
    &&& 0 <= p
    &&& p + 7 <= d.len()
    &&& d[p] == 0x29u8
    &&& d[p + 1] == 0x28u8
    &&& d[p + 2] == 0x4du8
}

/// The little-endian timestamp in the four bytes after a marker at `p`.
pub open spec fn stamp_after(d: Seq<u8>, p: int) -> int {
    d[p + 3] + 256 * d[p + 4] + 65536 * d[p + 5] + 16777216 * d[p + 6]
}

proof fn lemma_measure_marker_bytes(d: Seq<u8>, p: int)
    ensures
        is_ts_marker(d, p) <==> holds_measure_marker(d, p),
        is_ts_marker(d, p) ==> marker_ts(d, p) as int == stamp_after(d, p),
{
    if is_ts_marker(d, p) {
        assert(d.subrange(p, p + 3)[0] == d[p]);
        assert(d.subrange(p, p + 3)[1] == d[p + 1]);
        assert(d.subrange(p, p + 3)[2] == d[p + 2]);
        let b3 = d[p + 3];
        let b4 = d[p + 4];
        let b5 = d[p + 5];
        let b6 = d[p + 6];
        assert(0 <= b3 + 256 * b4 + 65536 * b5 + 16777216 * b6 < 0x1_0000_0000);
    }
    if holds_measure_marker(d, p) {
        assert(d.subrange(p, p + 3) =~= sample_tag());
    }
}

/// The timestamps reported for a buffer come from `)(M` measurement markers
/// alone: there are none exactly when no position holds `)(M` with room for a
/// timestamp, and otherwise the first is the timestamp after the first such
/// position and the last the timestamp after the last such position. Other
/// markers, such as the `)(S` section separators, play no part.
pub proof fn lemma_timestamps_from_measure_markers(d: Seq<u8>, r: Option<(u32, u32)>)
    requires
        r is Some <==> has_ts_marker(d),
        r matches Some((f, l)) ==> is_first_ts(d, f) && is_last_ts(d, l),
    ensures
        r is None <==> forall|p: int| !holds_measure_marker(d, p),
        r matches Some((f, l)) ==> exists|p: int|
            #![trigger holds_measure_marker(d, p)]
            holds_measure_marker(d, p) && f == stamp_after(d, p) && forall|q: int|
                holds_measure_marker(d, q) ==> p <= q,
        r matches Some((f, l)) ==> exists|p: int|
            #![trigger holds_measure_marker(d, p)]
            holds_measure_marker(d, p) && l == stamp_after(d, p) && forall|q: int|
                holds_measure_marker(d, q) ==> q <= p,
{
    assert forall|p: int| is_ts_marker(d, p) <==> holds_measure_marker(d, p) by {
        lemma_measure_marker_bytes(d, p);
    }
    if let Some((f, l)) = r {
        let p = choose|p: int|
            is_ts_marker(d, p) && f == marker_ts(d, p) && forall|q: int|
                #![trigger is_ts_marker(d, q)]
                is_ts_marker(d, q) ==> p <= q;
        lemma_measure_marker_bytes(d, p);
        assert(holds_measure_marker(d, p) && f == stamp_after(d, p));
        let p2 = choose|p: int|
            is_ts_marker(d, p) && l == marker_ts(d, p) && forall|q: int|
                #![trigger is_ts_marker(d, q)]
                is_ts_marker(d, q) ==> q <= p;
        lemma_measure_marker_bytes(d, p2);
        assert(holds_measure_marker(d, p2) && l == stamp_after(d, p2));
    }
}

/// A parsed session counts its ticks from the first `)(M` measurement marker
/// of the file and ends at the last one.
pub proof fn lemma_session_timestamps(d: Seq<u8>, f: XrkFile)
    requires
        is_parse_of(d, f),
    ensures
        exists|p: int|
            #![trigger holds_measure_marker(d, p)]
            holds_measure_marker(d, p) && f.info.first_ts == stamp_after(d, p) && forall|q: int|
                holds_measure_marker(d, q) ==> p <= q,
        exists|p: int|
            #![trigger holds_measure_marker(d, p)]
            holds_measure_marker(d, p) && f.info.last_ts == stamp_after(d, p) && forall|q: int|
                holds_measure_marker(d, q) ==> q <= p,
{
    let p = choose|p: int|
        is_ts_marker(d, p) && f.info.first_ts == marker_ts(d, p) && forall|q: int|
            #![trigger is_ts_marker(d, q)]
            is_ts_marker(d, q) ==> p <= q;
    assert(has_ts_marker(d));
    lemma_timestamps_from_measure_markers(d, Some((f.info.first_ts, f.info.last_ts)));
}

// ─── The byte layout of measurement blocks ───────────────────────────────────

/// The number of samples of a measurement block at `p`: bytes `)(M`, a
/// four-byte timestamp, a two-byte channel ID and a two-byte count n of 1 to
/// 200, followed by n two-byte samples that lie inside `d`. Zero where `p`
/// holds no such block.
pub open spec fn block_count_at(d: Seq<u8>, p: int) -> int {
    if 0 <= p && p + 11 <= d.len() && d[p] == 0x29u8 && d[p + 1] == 0x28u8 && d[p + 2] == 0x4du8
        && 1 <= d[p + 9] + 256 * d[p + 10] <= 200 && p + 11 + 2 * (d[p + 9] + 256 * d[p + 10])
        <= d.len() {
        d[p + 9] + 256 * d[p + 10]
    } else {
        0
    }
}

/// The samples of all measurement blocks starting before position `n`.
pub open spec fn block_counts_upto(d: Seq<u8>, n: int) -> int
    decreases n,
{
    if n <= 0 {
        0
    } else {
        block_counts_upto(d, n - 1) + block_count_at(d, n - 1)
    }
}

proof fn lemma_block_count_bytes(d: Seq<u8>, p: int)
    ensures
        is_sample_block(d, p) ==> block_count_at(d, p) == block_len(d, p),
        !is_sample_block(d, p) ==> block_count_at(d, p) == 0,
{
    if has_tag(d, p, sample_tag()) {
        assert(d.subrange(p, p + 3)[0] == d[p]);
        assert(d.subrange(p, p + 3)[1] == d[p + 1]);
        assert(d.subrange(p, p + 3)[2] == d[p + 2]);
    }
    if 0 <= p && p + 11 <= d.len() && d[p] == 0x29u8 && d[p + 1] == 0x28u8 && d[p + 2] == 0x4du8 {
        assert(d.subrange(p, p + 3) =~= sample_tag());
    }
}

proof fn lemma_block_counts(d: Seq<u8>, n: int)
    ensures
        block_counts_upto(d, n) == block_sample_total(d, block_positions_upto(d, n)),
    decreases n,
{
    if n > 0 {
        lemma_block_counts(d, n - 1);
        lemma_block_count_bytes(d, n - 1);
        let prev = block_positions_upto(d, n - 1);
        if is_sample_block(d, n - 1) {
            assert(prev.push(n - 1).drop_last() =~= prev);
        }
    }
}

/// No sample is lost or invented: the channels of a parsed session hold, all
/// together, exactly as many samples as the measurement blocks of the file,
/// every block of 1 to 200 samples that fits in the buffer counted in full.
pub proof fn lemma_every_block_counted(d: Seq<u8>, f: XrkFile)
    requires
        is_parse_of(d, f),
    ensures
        total_samples(f.channels@.map_values(|c: Channel| c@)) == block_counts_upto(d, d.len() as int),
{
    lemma_parsed_sample_count(d, f);
    lemma_block_counts(d, d.len() as int);
}


// ─── Channel definitions ─────────────────────────────────────────────────────

/// The bytes 8 to 108 after position `p`, cut at the end of `d`.
pub open spec fn header_window(d: Seq<u8>, p: int) -> Seq<u8> {
    let len = d.len() as int;
    d.subrange(
        if p + 8 <= len {
            p + 8
        } else {
            len
        },
        if p + 108 <= len {
            p + 108
        } else {
            len
        },
    )
}

/// The texts of the `i`-th channel definition: the printable runs of at
/// least two bytes in the 100 bytes that follow its 8-byte header, in order.
pub open spec fn definition_texts(d: Seq<u8>, i: int) -> Seq<Seq<char>> {
    ascii_strings(header_window(d, chs_positions(d)[i]), 2)
}

/// The channel read from the `i`-th definition carries ID `i`, its first
/// text as short name, and its second text as name, whatever texts follow;
/// with a single text both names are that text, with none both are empty.
pub open spec fn named_by_definition(d: Seq<u8>, i: int, c: ChannelModel) -> bool {
    let ss = definition_texts(d, i);
    &&& c.id == i
    &&& ss.len() >= 1 ==> c.short_name == ss[0]
    &&& ss.len() >= 2 ==> c.name == ss[1]
    &&& ss.len() == 1 ==> c.name == ss[0]
    &&& ss.len() == 0 ==> c.short_name.len() == 0 && c.name.len() == 0
}

/// Each channel read from the definition chunks is named by its own
/// definition: the i-th definition gives ID i, short name its first text and
/// name its second text, independent of any later text in the window.
pub proof fn lemma_definition_names(d: Seq<u8>, chans: Seq<Channel>, i: int)
    requires
        chans.map_values(|c: Channel| c@) == spec_channel_defs(d),
        chs_positions(d).len() <= 65535,
        0 <= i < chans.len(),
    ensures
        named_by_definition(d, i, chans[i]@),
{
    assert(chans.map_values(|c: Channel| c@).len() == chans.len());
    assert(chans.map_values(|c: Channel| c@)[i] == chans[i]@);
    assert(spec_channel_defs(d)[i].id == i as u16);
    assert(header_window(d, chs_positions(d)[i]) == crate::parser::window(d, chs_positions(d)[i], 8, 108));
}

/// The definitions stay in front of `chans`, with their IDs and names, and
/// every channel after them has an ID that no definition has.
spec fn keeps_definitions(chans: Seq<ChannelModel>, defs: Seq<ChannelModel>) -> bool {
    &&& chans.len() >= defs.len()
    &&& forall|k: int|
        0 <= k < defs.len() ==> (#[trigger] chans[k]).id == defs[k].id && chans[k].name == defs[k].name
            && chans[k].short_name == defs[k].short_name
    &&& forall|k: int| defs.len() <= k < chans.len() ==> (#[trigger] chans[k]).id >= defs.len()
}

proof fn lemma_distribute_keeps_definitions(defs: Seq<ChannelModel>, d: Seq<u8>, ps: Seq<int>, first_ts: u32)
    requires
        forall|k: int| 0 <= k < defs.len() ==> (#[trigger] defs[k]).id == k,
    ensures
        keeps_definitions(distribute(defs, d, ps, first_ts), defs),
    decreases ps.len(),
{
    if ps.len() > 0 {
        lemma_distribute_keeps_definitions(defs, d, ps.drop_last(), first_ts);
        let prev = distribute(defs, d, ps.drop_last(), first_ts);
        let id = block_channel(d, ps.last());
        lemma_find_channel(prev, id);
        if find_channel(prev, id) < 0 {
            if (id as int) < defs.len() {
                assert(prev[id as int].id == id);
            }
        }
    }
}

/// A channel of a parsed session whose ID belongs to a definition chunk is
/// named by that definition: short name its first text and name its second,
/// whatever texts follow.
pub proof fn lemma_session_channel_names(d: Seq<u8>, f: XrkFile, j: int)
    requires
        is_parse_of(d, f),
        0 <= j < f.channels@.len(),
        f.channels@[j].id < chs_positions(d).len(),
    ensures
        named_by_definition(d, f.channels@[j].id as int, f.channels@[j]@),
{
    let defs = spec_channel_defs(d);
    let dist = distribute(defs, d, block_positions(d), f.info.first_ts);
    let kept = with_samples(dist);
    let pred = |c: ChannelModel| c.samples.len() > 0;
    assert forall|k: int| 0 <= k < defs.len() implies (#[trigger] defs[k]).id == k by {
        assert(defs[k].id == k as u16);
    }
    lemma_distribute_keeps_definitions(defs, d, block_positions(d), f.info.first_ts);
    assert(is_sorted_version(kept[j], f.channels@[j]@));
    assert(kept.contains(kept[j]));
    dist.lemma_filter_contains_rev(pred, kept[j]);
    let k = choose|k: int| 0 <= k < dist.len() && dist[k] == kept[j];
    assert(dist[k] == kept[j]);
    assert(k < defs.len());
    assert(header_window(d, chs_positions(d)[k]) == crate::parser::window(d, chs_positions(d)[k], 8, 108));
}


// ─── Lap time text ───────────────────────────────────────────────────────────

/// A decimal digit character.
pub open spec fn is_digit(c: char) -> bool {
    0x30 <= c as int <= 0x39
}

/// Every character of `s` is a decimal digit.
pub open spec fn all_digits(s: Seq<char>) -> bool {
    forall|i: int| 0 <= i < s.len() ==> is_digit(#[trigger] s[i])
}

/// The number that the decimal digits `s` denote.
pub open spec fn digits_value(s: Seq<char>) -> int
    decreases s.len(),
{
    if s.len() == 0 {
        0
    } else {
        10 * digits_value(s.drop_last()) + (s.last() as int - 0x30)
    }
}

proof fn lemma_ascii_chars_add(a: Seq<u8>, b: Seq<u8>)
    ensures
        ascii_chars(a + b) == ascii_chars(a) + ascii_chars(b),
{
    assert(ascii_chars(a + b) =~= ascii_chars(a) + ascii_chars(b));
}

proof fn lemma_decimal_digits(n: nat)
    ensures
        all_digits(ascii_chars(decimal(n))),
        digits_value(ascii_chars(decimal(n))) == n,
    decreases n,
{
    let s = ascii_chars(decimal(n));
    if n < 10 {
        let b = (0x30 + n) as u8;
        assert(s.drop_last() =~= Seq::<char>::empty());
        assert(s.last() == b as char);
        assert((b as char) as int == b as int);
        assert(b as int == 0x30 + n);
        assert(digits_value(s.drop_last()) == 0);
        assert(digits_value(s) == 10 * digits_value(s.drop_last()) + (s.last() as int - 0x30));
    } else {
        lemma_decimal_digits(n / 10);
        let last = (0x30 + n % 10) as u8;
        lemma_ascii_chars_add(decimal(n / 10), seq![last]);
        assert(decimal(n) == decimal(n / 10) + seq![last]);
        assert(s.drop_last() =~= ascii_chars(decimal(n / 10)));
        assert(s.last() == last as char);
        assert((last as char) as int == last as int);
        assert(last as int == 0x30 + n % 10);
        assert(digits_value(s.drop_last()) == n / 10);
        assert(digits_value(s) == 10 * digits_value(s.drop_last()) + (s.last() as int - 0x30));
        assert(10 * (n / 10) + n % 10 == n);
    }
}

proof fn lemma_zero_pad_digits(s: Seq<u8>, w: nat)
    requires
        all_digits(ascii_chars(s)),
    ensures
        all_digits(ascii_chars(zero_pad(s, w))),
        digits_value(ascii_chars(zero_pad(s, w))) == digits_value(ascii_chars(s)),
        zero_pad(s, w).len() == if s.len() >= w { s.len() } else { w },
{
    if s.len() < w {
        let z = Seq::new((w - s.len()) as nat, |i: int| 0x30u8);
        lemma_ascii_chars_add(z, s);
        lemma_leading_zeros(ascii_chars(z), ascii_chars(s));
    }
}

proof fn lemma_leading_zeros(z: Seq<char>, s: Seq<char>)
    requires
        forall|i: int| 0 <= i < z.len() ==> z[i] == '0',
        all_digits(s),
    ensures
        all_digits(z + s),
        digits_value(z + s) == digits_value(s),
    decreases s.len(), z.len(),
{
    assert forall|i: int| 0 <= i < (z + s).len() implies is_digit(#[trigger] (z + s)[i]) by {
        if i < z.len() {
            assert((z + s)[i] == z[i]);
        } else {
            assert((z + s)[i] == s[i - z.len()]);
        }
    }
    if s.len() > 0 {
        assert((z + s).drop_last() =~= z + s.drop_last());
        lemma_leading_zeros(z, s.drop_last());
    } else if z.len() > 0 {
        assert(z + s =~= z);
        assert(z.drop_last() + s =~= z.drop_last());
        lemma_leading_zeros(z.drop_last(), s);
    } else {
        assert(z + s =~= s);
    }
}

/// A lap time of `ms` milliseconds prints as `M:SS.mmm` in which the minutes
/// M, the seconds SS (two digits, below 60) and the milliseconds mmm (three
/// digits) add back up to `ms`: the minutes are `ms / 60000` rounded down,
/// never rounded up.
pub proof fn lemma_time_str_fields(ms: u32)
    ensures
        ({
            let t = spec_time_str(ms);
            let k = t.len() - 7;
            &&& k >= 1
            &&& t[k] == ':'
            &&& t[k + 3] == '.'
            &&& all_digits(t.subrange(0, k))
            &&& all_digits(t.subrange(k + 1, k + 3))
            &&& all_digits(t.subrange(k + 4, k + 7))
            &&& digits_value(t.subrange(k + 1, k + 3)) < 60
            &&& 60000 * digits_value(t.subrange(0, k)) + 1000 * digits_value(t.subrange(k + 1, k + 3))
                + digits_value(t.subrange(k + 4, k + 7)) == ms
        }),
{
    let m = (ms / 60000) as nat;
    let sec = ((ms % 60000) / 1000) as nat;
    let milli = (ms % 1000) as nat;
    lemma_decimal(m);
    lemma_decimal(sec);
    lemma_decimal(milli);
    lemma_decimal_digits(m);
    lemma_decimal_digits(sec);
    lemma_decimal_digits(milli);
    lemma_zero_pad_digits(decimal(sec), 2);
    lemma_zero_pad_digits(decimal(milli), 3);
    let a = decimal(m);
    let b = zero_pad(decimal(sec), 2);
    let c = zero_pad(decimal(milli), 3);
    lemma_ascii_chars_add(a, seq![0x3au8]);
    lemma_ascii_chars_add(a + seq![0x3au8], b);
    lemma_ascii_chars_add(a + seq![0x3au8] + b, seq![0x2eu8]);
    lemma_ascii_chars_add(a + seq![0x3au8] + b + seq![0x2eu8], c);
    let t = spec_time_str(ms);
    let ta = ascii_chars(a);
    let tb = ascii_chars(b);
    let tc = ascii_chars(c);
    assert(t == ta + seq![':'] + tb + seq!['.'] + tc);
    let k = a.len() as int;
    assert(t.subrange(0, k) =~= ta);
    assert(t.subrange(k + 1, k + 3) =~= tb);
    assert(t.subrange(k + 4, k + 7) =~= tc);
    assert(60000 * (ms / 60000) + 1000 * ((ms % 60000) / 1000) + ms % 1000 == ms) by (nonlinear_arith);
}


// ─── The byte layout of lap records ──────────────────────────────────────────

/// The little-endian `u16` at `d[o..o + 2]`.
pub open spec fn le16_at(d: Seq<u8>, o: int) -> int {
    d[o] + 256 * d[o + 1]
}

/// The little-endian `u32` at `d[o..o + 4]`.
pub open spec fn le32_at(d: Seq<u8>, o: int) -> int {
    d[o] + 256 * d[o + 1] + 65536 * d[o + 2] + 16777216 * d[o + 3]
}

/// Bytes `<hLAP` at `p` opening a 32-byte record whose lap number (bytes 14
/// and 15) lies in 1..=500 and whose duration in milliseconds (bytes 16 to
/// 19) lies in 500..=3_600_000.
pub open spec fn holds_lap_record(d: Seq<u8>, p: int) -> bool {
    &&& 0 <= p
    &&& p + 32 <= d.len()
    &&& d[p] == 0x3cu8
    &&& d[p + 1] == 0x68u8
    &&& d[p + 2] == 0x4cu8
    &&& d[p + 3] == 0x41u8
    &&& d[p + 4] == 0x50u8
    &&& 1 <= le16_at(d, p + 14) <= 500
    &&& 500 <= le32_at(d, p + 16) <= 3_600_000
}

/// `l` is the lap recorded at `p`: its number, its duration, and its start
/// (bytes 28 to 31) counted from `first_ts`.
pub open spec fn lap_recorded_at(d: Seq<u8>, p: int, first_ts: u32, l: Lap) -> bool {
    &&& l.number == le16_at(d, p + 14)
    &&& l.time_ms == le32_at(d, p + 16)
    &&& l.start_ticks == (le32_at(d, p + 28) as u32).wrapping_sub(first_ts)
}

/// `l` is the lap of some valid lap record of `d`.
pub open spec fn read_from_lap_record(d: Seq<u8>, first_ts: u32, l: Lap) -> bool {
    exists|p: int| #[trigger] holds_lap_record(d, p) && lap_recorded_at(d, p, first_ts, l)
}

proof fn lemma_lap_record_bytes(d: Seq<u8>, p: int, first_ts: u32)
    ensures
        is_lap_chunk(d, p) && valid_lap(lap_at(d, p, first_ts)) <==> holds_lap_record(d, p),
        holds_lap_record(d, p) ==> lap_recorded_at(d, p, first_ts, lap_at(d, p, first_ts)),
{
    if is_lap_chunk(d, p) {
        let t = d.subrange(p, p + 5);
        assert(t[0] == d[p] && t[1] == d[p + 1] && t[2] == d[p + 2] && t[3] == d[p + 3] && t[4] == d[p + 4]);
    }
    if 0 <= p && p + 32 <= d.len() {
        let n = le16_at(d, p + 14);
        let m = le32_at(d, p + 16);
        assert(0 <= n < 0x1_0000);
        assert(0 <= m < 0x1_0000_0000);
        if d[p] == 0x3cu8 && d[p + 1] == 0x68u8 && d[p + 2] == 0x4cu8 && d[p + 3] == 0x41u8 && d[p + 4] == 0x50u8 {
            assert(d.subrange(p, p + 5) =~= lap_tag());
        }
    }
}

proof fn lemma_lap_records_from_bytes(d: Seq<u8>, n: int, first_ts: u32)
    ensures
        forall|k: int|
            0 <= k < lap_records_upto(d, n, first_ts).len() ==> read_from_lap_record(
                d,
                first_ts,
                #[trigger] lap_records_upto(d, n, first_ts)[k],
            ),
        forall|p: int|
            0 <= p < n && #[trigger] holds_lap_record(d, p) ==> exists|k: int|
                0 <= k < lap_records_upto(d, n, first_ts).len() && (#[trigger] lap_records_upto(
                    d,
                    n,
                    first_ts,
                )[k]).number == le16_at(d, p + 14),
    decreases n,
{
    if n > 0 {
        lemma_lap_records_from_bytes(d, n - 1, first_ts);
        lemma_lap_record_bytes(d, n - 1, first_ts);
        let prev = lap_records_upto(d, n - 1, first_ts);
        let cur = lap_records_upto(d, n, first_ts);
        assert forall|k: int| 0 <= k < prev.len() implies cur[k] == prev[k] by {}
        assert forall|k: int| 0 <= k < cur.len() implies read_from_lap_record(d, first_ts, #[trigger] cur[k]) by {
            if k < prev.len() {
                assert(cur[k] == prev[k]);
            } else {
                assert(holds_lap_record(d, n - 1));
            }
        }
        assert forall|p: int| 0 <= p < n && #[trigger] holds_lap_record(d, p) implies exists|k: int|
            0 <= k < cur.len() && (#[trigger] cur[k]).number == le16_at(d, p + 14) by {
            if p < n - 1 {
                let k = choose|k: int| 0 <= k < prev.len() && (#[trigger] prev[k]).number == le16_at(d, p + 14);
                assert(cur[k] == prev[k]);
            } else {
                assert(cur[prev.len() as int] == lap_at(d, p, first_ts));
            }
        }
    }
}

/// The laps of a parsed session are the valid lap records of the file: every
/// lap is read from a `<hLAP` record with a number in 1..=500 and a duration
/// of 500 ms to one hour, and every such record's lap number has a lap.
pub proof fn lemma_laps_from_records(d: Seq<u8>, f: XrkFile)
    requires
        is_parse_of(d, f),
    ensures
        forall|i: int|
            0 <= i < f.laps@.len() ==> read_from_lap_record(d, f.info.first_ts, #[trigger] f.laps@[i]),
        forall|p: int|
            #[trigger] holds_lap_record(d, p) ==> exists|i: int|
                0 <= i < f.laps@.len() && (#[trigger] f.laps@[i]).number == le16_at(d, p + 14),
{
    let recs = spec_lap_records(d, f.info.first_ts);
    lemma_lap_records_from_bytes(d, d.len() as int, f.info.first_ts);
    assert forall|i: int| 0 <= i < f.laps@.len() implies read_from_lap_record(
        d,
        f.info.first_ts,
        #[trigger] f.laps@[i],
    ) by {
        assert(first_with_number(recs, f.laps@[i]));
        let k = choose|k: int|
            #![trigger recs[k]]
            0 <= k < recs.len() && recs[k] == f.laps@[i] && forall|j: int|
                0 <= j < k ==> (#[trigger] recs[j]).number != f.laps@[i].number;
        assert(recs[k] == f.laps@[i]);
    }
    assert forall|p: int| #[trigger] holds_lap_record(d, p) implies exists|i: int|
        0 <= i < f.laps@.len() && (#[trigger] f.laps@[i]).number == le16_at(d, p + 14) by {
        let k = choose|k: int| 0 <= k < recs.len() && (#[trigger] recs[k]).number == le16_at(d, p + 14);
        assert(crate::parser::has_lap_number(f.laps@, recs[k].number));
    }
}


// ─── Samples per channel ─────────────────────────────────────────────────────

/// Number of samples held by the channels of `chans` with ID `x`.
pub open spec fn samples_with_id(chans: Seq<ChannelModel>, x: u16) -> nat
    decreases chans.len(),
{
    if chans.len() == 0 {
        0
    } else {
        samples_with_id(chans.drop_last(), x) + if chans.last().id == x {
            chans.last().samples.len()
        } else {
            0
        }
    }
}

/// The samples of the measurement blocks for channel `x` (bytes 7 and 8 of
/// the block) starting before position `n`, counted as `block_count_at` does.
pub open spec fn block_counts_for_upto(d: Seq<u8>, x: u16, n: int) -> int
    decreases n,
{
    if n <= 0 {
        0
    } else {
        block_counts_for_upto(d, x, n - 1) + if le16_at(d, n - 1 + 7) == x {
            block_count_at(d, n - 1)
        } else {
            0
        }
    }
}

/// Samples of the blocks at positions `ps` that belong to channel `x`.
spec fn block_total_for(d: Seq<u8>, ps: Seq<int>, x: u16) -> nat
    decreases ps.len(),
{
    if ps.len() == 0 {
        0
    } else {
        block_total_for(d, ps.drop_last(), x) + if block_channel(d, ps.last()) == x {
            block_len(d, ps.last()) as nat
        } else {
            0
        }
    }
}

proof fn lemma_id_update(s: Seq<ChannelModel>, i: int, c: ChannelModel, x: u16)
    requires
        0 <= i < s.len(),
        c.id == s[i].id,
    ensures
        samples_with_id(s.update(i, c), x) + (if s[i].id == x { s[i].samples.len() } else { 0 })
            == samples_with_id(s, x) + (if c.id == x { c.samples.len() } else { 0 }),
    decreases s.len(),
{
    let u = s.update(i, c);
    if i == s.len() - 1 {
        assert(u.drop_last() =~= s.drop_last());
    } else {
        lemma_id_update(s.drop_last(), i, c, x);
        assert(u.drop_last() =~= s.drop_last().update(i, c));
    }
}

proof fn lemma_id_distribute(chans: Seq<ChannelModel>, d: Seq<u8>, ps: Seq<int>, first_ts: u32, x: u16)
    ensures
        samples_with_id(distribute(chans, d, ps, first_ts), x) == samples_with_id(chans, x)
            + block_total_for(d, ps, x),
    decreases ps.len(),
{
    if ps.len() > 0 {
        lemma_id_distribute(chans, d, ps.drop_last(), first_ts, x);
        let prev = distribute(chans, d, ps.drop_last(), first_ts);
        let id = block_channel(d, ps.last());
        let s = block_samples(d, ps.last(), first_ts);
        lemma_find_channel(prev, id);
        let i = find_channel(prev, id);
        if i >= 0 {
            let c = ChannelModel {
                id: prev[i].id,
                name: prev[i].name,
                short_name: prev[i].short_name,
                samples: prev[i].samples + s,
            };
            lemma_id_update(prev, i, c, x);
        } else {
            assert(prev.push(new_channel(id, s)).drop_last() =~= prev);
        }
    }
}

proof fn lemma_id_defs(d: Seq<u8>, n: int, x: u16)
    requires
        0 <= n <= spec_channel_defs(d).len(),
    ensures
        samples_with_id(spec_channel_defs(d).take(n), x) == 0,
    decreases n,
{
    if n > 0 {
        lemma_id_defs(d, n - 1, x);
        assert(spec_channel_defs(d).take(n).drop_last() =~= spec_channel_defs(d).take(n - 1));
    }
}

proof fn lemma_id_with_samples(s: Seq<ChannelModel>, x: u16)
    ensures
        samples_with_id(with_samples(s), x) == samples_with_id(s, x),
    decreases s.len(),
{
    reveal_with_fuel(Seq::<ChannelModel>::filter, 1);
    if s.len() > 0 {
        lemma_id_with_samples(s.drop_last(), x);
        if s.last().samples.len() > 0 {
            assert(with_samples(s.drop_last()).push(s.last()).drop_last() =~= with_samples(s.drop_last()));
        }
    }
}

proof fn lemma_id_absent(s: Seq<ChannelModel>, x: u16)
    requires
        forall|k: int| 0 <= k < s.len() ==> (#[trigger] s[k]).id != x,
    ensures
        samples_with_id(s, x) == 0,
    decreases s.len(),
{
    if s.len() > 0 {
        lemma_id_absent(s.drop_last(), x);
    }
}

proof fn lemma_id_unique(s: Seq<ChannelModel>, j: int)
    requires
        unique_ids(s),
        0 <= j < s.len(),
    ensures
        samples_with_id(s, s[j].id) == s[j].samples.len(),
    decreases s.len(),
{
    let pre = s.drop_last();
    if j == s.len() - 1 {
        assert forall|k: int| 0 <= k < pre.len() implies (#[trigger] pre[k]).id != s[j].id by {
            assert(pre[k] == s[k]);
        }
        lemma_id_absent(pre, s[j].id);
    } else {
        assert forall|a: int, b: int| 0 <= a < b < pre.len() implies pre[a].id != pre[b].id by {
            assert(pre[a] == s[a] && pre[b] == s[b]);
        }
        assert(pre[j] == s[j]);
        lemma_id_unique(pre, j);
    }
}

proof fn lemma_block_counts_for(d: Seq<u8>, x: u16, n: int)
    ensures
        block_counts_for_upto(d, x, n) == block_total_for(d, block_positions_upto(d, n), x),
    decreases n,
{
    if n > 0 {
        lemma_block_counts_for(d, x, n - 1);
        lemma_block_count_bytes(d, n - 1);
        let prev = block_positions_upto(d, n - 1);
        if is_sample_block(d, n - 1) {
            assert(prev.push(n - 1).drop_last() =~= prev);
            assert(block_channel(d, n - 1) == le16_at(d, n - 1 + 7));
        }
    }
}

/// Each channel of a parsed session holds every sample of every measurement
/// block carrying its ID: its sample count is the sum of the counts of the
/// blocks (`)(M`, 1 to 200 samples, inside the buffer) whose channel bytes
/// hold that ID.
pub proof fn lemma_channel_holds_its_blocks(d: Seq<u8>, f: XrkFile, j: int)
    requires
        is_parse_of(d, f),
        0 <= j < f.channels@.len(),
    ensures
        f.channels@[j].samples@.len() == block_counts_for_upto(d, f.channels@[j].id, d.len() as int),
{
    let x = f.channels@[j].id;
    let defs = spec_channel_defs(d);
    let dist = distribute(defs, d, block_positions(d), f.info.first_ts);
    let kept = with_samples(dist);
    assert forall|a: int, b: int| 0 <= a < b < defs.len() implies defs[a].id != defs[b].id by {
        assert(defs[a].id == a as u16 && defs[b].id == b as u16);
    }
    lemma_distribute_unique(defs, d, block_positions(d), f.info.first_ts);
    lemma_with_samples_props(dist);
    lemma_id_defs(d, defs.len() as int, x);
    assert(defs.take(defs.len() as int) =~= defs);
    lemma_id_distribute(defs, d, block_positions(d), f.info.first_ts, x);
    lemma_id_with_samples(dist, x);
    assert(is_sorted_version(kept[j], f.channels@[j]@));
    kept[j].samples.to_multiset_ensures();
    f.channels@[j].samples@.to_multiset_ensures();
    lemma_id_unique(kept, j);
    lemma_block_counts_for(d, x, d.len() as int);
}

} // verus!
