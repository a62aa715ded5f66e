//! Binary parser for the AiM XRK file format.
//!
//! XRK files contain tagged chunks interspersed with data stream markers:
//!
//! ```text
//! <hTAG[5]   ...data...                 tagged chunk
//! )(M ts[4] ch_id[2] n[2] v[n*2]        measurement samples
//! )(S ts[4] ch_id[2] flags[2]           section separator
//! ```
//!
//! All integers are little-endian.
use vstd::prelude::*;
use std::collections::HashMap;
use crate::text::{
    ascii_chars, ascii_to_string, decimal, lemma_decimal, push_padded_decimal, zero_pad,
};
use crate::types::{Channel, ChannelModel, Lap, Sample, SessionInfo, XrkFile};
use crate::error::XrkError;
use vstd::utf8::{encode_utf8, is_ascii_chars, is_ascii_chars_encode_utf8};
use vstd::string::StringSliceAdditionalSpecFns;

verus! {

// ─── Byte-level specifications ───────────────────────────────────────────────

/// The value of the little-endian `u16` stored at `d[o..o + 2]`.
pub open spec fn spec_u16_le(d: Seq<u8>, o: int) -> int {
    d[o] + 256 * d[o + 1]
}

/// The value of the little-endian `u32` stored at `d[o..o + 4]`.
pub open spec fn spec_u32_le(d: Seq<u8>, o: int) -> int {
    d[o] + 256 * d[o + 1] + 65536 * d[o + 2] + 16777216 * d[o + 3]
}

/// `tag` occurs in `d` starting at position `p`.
pub open spec fn has_tag(d: Seq<u8>, p: int, tag: Seq<u8>) -> bool {
    &&& 0 <= p
    &&& p + tag.len() <= d.len()
    &&& d.subrange(p, p + tag.len()) == tag
}

// ─── Integer readers ─────────────────────────────────────────────────────────

/// Read a little-endian `u16` at offset `o`.
pub fn u16_le(d: &[u8], o: usize) -> (r: u16)
    requires
        o + 2 <= d@.len(),
    ensures
        r == spec_u16_le(d@, o as int),
{
    (d[o] as u16) + (d[o + 1] as u16) * 256
}

/// Read a little-endian `u32` at offset `o`.
pub fn u32_le(d: &[u8], o: usize) -> (r: u32)
    requires
        o + 4 <= d@.len(),
    ensures
        r == spec_u32_le(d@, o as int),
{
    (d[o] as u32) + (d[o + 1] as u32) * 256 + (d[o + 2] as u32) * 65536 + (d[o + 3] as u32)
        * 16777216
}

/// Whether `tag` occurs in `d` at position `p`.
pub fn tag_at(d: &[u8], p: usize, tag: &[u8]) -> (r: bool)
    ensures
        r == has_tag(d@, p as int, tag@),
{
    if p > d.len() || tag.len() > d.len() - p {
        return false;
    }
    let mut i: usize = 0;
    while i < tag.len()
        invariant
            i <= tag.len(),
            p + tag.len() <= d.len(),
            forall|k: int| 0 <= k < i ==> d@[p + k] == tag@[k],
        decreases tag.len() - i,
    {
        if d[p + i] != tag[i] {
            assert(d@.subrange(p as int, p + tag.len())[i as int] != tag@[i as int]);
            return false;
        }
        i += 1;
    }
    assert(d@.subrange(p as int, p + tag.len()) =~= tag@);
    true
}

/// Position of the first occurrence of `needle` in `haystack`.
pub fn find(haystack: &[u8], needle: &[u8]) -> (r: Option<usize>)
    requires
        needle.len() > 0,
    ensures
        match r {
            Some(i) => has_tag(haystack@, i as int, needle@) && forall|j: int|
                0 <= j < i ==> !has_tag(haystack@, j, needle@),
            None => forall|j: int| !has_tag(haystack@, j, needle@),
        },
{
    if needle.len() > haystack.len() {
        return None;
    }
    let last = haystack.len() - needle.len();
    let mut i: usize = 0;
    while i <= last
        invariant
            last + needle.len() == haystack.len(),
            needle.len() > 0,
            forall|j: int| 0 <= j < i ==> !has_tag(haystack@, j, needle@),
        decreases last + 1 - i,
    {
        if tag_at(haystack, i, needle) {
            return Some(i);
        }
        i += 1;
    }
    None
}

// ─── ASCII string extraction ─────────────────────────────────────────────────

/// A printable ASCII byte (graphic character or space).
pub open spec fn is_printable(b: u8) -> bool {
    0x20 <= b <= 0x7e
}

/// Length of the longest prefix of `d` made of printable bytes.
pub open spec fn run_len(d: Seq<u8>) -> nat
    decreases d.len(),
{
    if d.len() > 0 && is_printable(d[0]) {
        1 + run_len(d.drop_first())
    } else {
        0
    }
}

/// `s` with its leading spaces removed.
pub open spec fn strip_leading_spaces(s: Seq<u8>) -> Seq<u8>
    decreases s.len(),
{
    if s.len() > 0 && s[0] == 0x20 {
        strip_leading_spaces(s.drop_first())
    } else {
        s
    }
}

/// `s` with its trailing spaces removed.
pub open spec fn strip_trailing_spaces(s: Seq<u8>) -> Seq<u8>
    decreases s.len(),
{
    if s.len() > 0 && s.last() == 0x20 {
        strip_trailing_spaces(s.drop_last())
    } else {
        s
    }
}

/// `s` with leading and trailing spaces removed.
pub open spec fn trim_spaces(s: Seq<u8>) -> Seq<u8> {
    strip_trailing_spaces(strip_leading_spaces(s))
}

/// The text kept from one maximal printable run: the trimmed run, provided the
/// run has at least `min_len` bytes and is not blank.
pub open spec fn run_text(run: Seq<u8>, min_len: nat) -> Seq<Seq<char>> {
    if run.len() >= min_len && trim_spaces(run).len() > 0 {
        seq![ascii_chars(trim_spaces(run))]
    } else {
        seq![]
    }
}

/// The texts of all maximal printable runs of `d`, in order.
pub open spec fn ascii_strings(d: Seq<u8>, min_len: nat) -> Seq<Seq<char>>
    decreases d.len(),
{
    if d.len() == 0 {
        seq![]
    } else if !is_printable(d[0]) {
        ascii_strings(d.drop_first(), min_len)
    } else {
        proof {
            lemma_run_len_bound(d);
        }
        let k = run_len(d) as int;
        run_text(d.take(k), min_len) + ascii_strings(d.skip(k), min_len)
    }
}

/// A printable run is no longer than the sequence, and non-empty when the
/// sequence starts with a printable byte.
pub proof fn lemma_run_len_bound(d: Seq<u8>)
    ensures
        run_len(d) <= d.len(),
        d.len() > 0 && is_printable(d[0]) ==> run_len(d) >= 1,
    decreases d.len(),
{
    if d.len() > 0 && is_printable(d[0]) {
        lemma_run_len_bound(d.drop_first());
    }
}

/// `run_len` is the position of the first non-printable byte.
pub proof fn lemma_run_len_exact(d: Seq<u8>, k: int)
    requires
        0 <= k <= d.len(),
        forall|i: int| 0 <= i < k ==> is_printable(#[trigger] d[i]),
        k == d.len() || !is_printable(d[k]),
    ensures
        run_len(d) == k,
    decreases k,
{
    if k > 0 {
        lemma_run_len_exact(d.drop_first(), k - 1);
    }
}

/// Stripping leading spaces from `s[a..b]` when `s[a]` is a space.
proof fn lemma_strip_leading_step(s: Seq<u8>, a: int, b: int)
    requires
        0 <= a < b <= s.len(),
        s[a] == 0x20,
    ensures
        strip_leading_spaces(s.subrange(a, b)) == strip_leading_spaces(s.subrange(a + 1, b)),
{
    assert(s.subrange(a, b).drop_first() =~= s.subrange(a + 1, b));
}

/// Stripping trailing spaces from `s[a..b]` when `s[b - 1]` is a space.
proof fn lemma_strip_trailing_step(s: Seq<u8>, a: int, b: int)
    requires
        0 <= a < b <= s.len(),
        s[b - 1] == 0x20,
    ensures
        strip_trailing_spaces(s.subrange(a, b)) == strip_trailing_spaces(s.subrange(a, b - 1)),
{
    assert(s.subrange(a, b).drop_last() =~= s.subrange(a, b - 1));
}

/// Bounds `[s, e)` of the run `d[i..j]` without its leading and trailing spaces.
fn trimmed_bounds(d: &[u8], i: usize, j: usize) -> (r: (usize, usize))
    requires
        i <= j <= d.len(),
    ensures
        i <= r.0 <= r.1 <= j,
        d@.subrange(r.0 as int, r.1 as int) == trim_spaces(d@.subrange(i as int, j as int)),
{
    let mut s = i;
    while s < j && d[s] == 0x20
        invariant
            i <= s <= j <= d.len(),
            strip_leading_spaces(d@.subrange(i as int, j as int)) == strip_leading_spaces(
                d@.subrange(s as int, j as int),
            ),
        decreases j - s,
    {
        proof {
            lemma_strip_leading_step(d@, s as int, j as int);
        }
        s += 1;
    }
    assert(strip_leading_spaces(d@.subrange(s as int, j as int)) == d@.subrange(s as int, j as int));
    let mut e = j;
    while e > s && d[e - 1] == 0x20
        invariant
            i <= s <= e <= j <= d.len(),
            strip_trailing_spaces(d@.subrange(s as int, j as int)) == strip_trailing_spaces(
                d@.subrange(s as int, e as int),
            ),
        decreases e - s,
    {
        proof {
            lemma_strip_trailing_step(d@, s as int, e as int);
        }
        e -= 1;
    }
    assert(strip_trailing_spaces(d@.subrange(s as int, e as int)) == d@.subrange(s as int, e as int));
    (s, e)
}

/// Extract all runs of printable ASCII of length at least `min_len` from a
/// byte slice, each with surrounding spaces trimmed; blank runs are dropped.
pub fn extract_ascii_strings(data: &[u8], min_len: usize) -> (r: Vec<String>)
    ensures
        r@.map_values(|s: String| s@) == ascii_strings(data@, min_len as nat),
        forall|k: int| 0 <= k < r@.len() ==> is_ascii_chars(#[trigger] r@[k]@),
        forall|k: int| 0 <= k < r@.len() ==> (#[trigger] r@[k]@).len() <= data@.len(),
{
    let mut results: Vec<String> = Vec::new();
    let mut i: usize = 0;
    assert(data@.skip(0) =~= data@);
    while i < data.len()
        invariant
            i <= data.len(),
            ascii_strings(data@, min_len as nat) == results@.map_values(|s: String| s@)
                + ascii_strings(data@.skip(i as int), min_len as nat),
            forall|k: int| 0 <= k < results@.len() ==> is_ascii_chars(#[trigger] results@[k]@),
            forall|k: int| 0 <= k < results@.len() ==> (#[trigger] results@[k]@).len() <= data@.len(),
        decreases data.len() - i,
    {
        let ghost rest = data@.skip(i as int);
        if !(0x20 <= data[i] && data[i] <= 0x7e) {
            assert(rest.drop_first() =~= data@.skip(i + 1));
            i += 1;
        } else {
            let mut j = i + 1;
            while j < data.len() && 0x20 <= data[j] && data[j] <= 0x7e
                invariant
                    i < j <= data.len(),
                    forall|k: int| i <= k < j ==> is_printable(#[trigger] data@[k]),
                decreases data.len() - j,
            {
                j += 1;
            }
            proof {
                lemma_run_len_exact(rest, j - i);
                assert(rest.take(j - i) =~= data@.subrange(i as int, j as int));
                assert(rest.skip(j - i) =~= data@.skip(j as int));
            }
            let ghost old_results = results@.map_values(|s: String| s@);
            let (s, e) = trimmed_bounds(data, i, j);
            if j - i >= min_len && e > s {
                let text = ascii_to_string(&data[s..e]);
                assert(is_ascii_chars(text@));
                results.push(text);
                assert(results@.map_values(|s: String| s@) =~= old_results + run_text(
                    data@.subrange(i as int, j as int),
                    min_len as nat,
                ));
            } else {
                assert(results@.map_values(|s: String| s@) =~= old_results + run_text(
                    data@.subrange(i as int, j as int),
                    min_len as nat,
                ));
            }
            i = j;
        }
    }
    assert(data@.skip(i as int) =~= Seq::<u8>::empty());
    assert(results@.map_values(|s: String| s@) =~= ascii_strings(data@, min_len as nat));
    results
}

/// `d[min(p + lo, len) .. min(p + hi, len)]`: the bytes that follow a tag at `p`.
pub open spec fn window(d: Seq<u8>, p: int, lo: int, hi: int) -> Seq<u8> {
    let len = d.len() as int;
    d.subrange(
        if p + lo <= len {
            p + lo
        } else {
            len
        },
        if p + hi <= len {
            p + hi
        } else {
            len
        },
    )
}

/// The longest string of `ss`; among equally long ones the last; empty when
/// `ss` is empty.
pub open spec fn longest_last(ss: Seq<Seq<char>>) -> Seq<char>
    decreases ss.len(),
{
    if ss.len() == 0 {
        seq![]
    } else {
        let r = longest_last(ss.drop_last());
        if ss.last().len() >= r.len() {
            ss.last()
        } else {
            r
        }
    }
}

/// Exec bounds of `window(d, p, lo, hi)`.
fn window_bounds(len: usize, p: usize, lo: usize, hi: usize) -> (r: (usize, usize))
    requires
        p <= len,
        lo <= hi,
    ensures
        r.0 <= r.1 <= len,
        r.0 == (if p + lo <= len {
            p + lo
        } else {
            len as int
        }),
        r.1 == (if p + hi <= len {
            p + hi
        } else {
            len as int
        }),
{
    let a = if len - p >= lo {
        p + lo
    } else {
        len
    };
    let b = if len - p >= hi {
        p + hi
    } else {
        len
    };
    (a, b)
}

/// Position of the first occurrence of `t` starting before `n`, or -1.
pub open spec fn first_tag_upto(d: Seq<u8>, t: Seq<u8>, n: int) -> int
    decreases n,
{
    if n <= 0 {
        -1
    } else {
        let r = first_tag_upto(d, t, n - 1);
        if r >= 0 {
            r
        } else if has_tag(d, n - 1, t) {
            n - 1
        } else {
            -1
        }
    }
}

/// The longest string among the bytes 8 to 80 after the first `t` of `d`
/// (the last of equally long ones); empty when `t` does not occur.
pub open spec fn spec_extract_string(d: Seq<u8>, t: Seq<u8>) -> Seq<char> {
    let p = first_tag_upto(d, t, d.len() as int);
    if p < 0 {
        seq![]
    } else {
        longest_last(ascii_strings(window(d, p, 8, 80), 3))
    }
}

proof fn lemma_first_tag(d: Seq<u8>, t: Seq<u8>, n: int)
    ensures
        first_tag_upto(d, t, n) == -1 ==> forall|q: int| q < n ==> !has_tag(d, q, t),
        first_tag_upto(d, t, n) >= 0 ==> {
            &&& first_tag_upto(d, t, n) < n
            &&& has_tag(d, first_tag_upto(d, t, n), t)
            &&& forall|q: int| q < first_tag_upto(d, t, n) ==> !has_tag(d, q, t)
        },
        first_tag_upto(d, t, n) >= -1,
    decreases n,
{
    if n > 0 {
        lemma_first_tag(d, t, n - 1);
    }
}

/// Find the first occurrence of `tag` and extract the longest printable ASCII
/// string from the bytes 8 to 80 after it.
pub fn extract_string(data: &[u8], tag: &[u8]) -> (r: String)
    requires
        tag.len() > 0,
    ensures
        r@ == spec_extract_string(data@, tag@),
{
    proof {
        lemma_first_tag(data@, tag@, data@.len() as int);
    }
    let pos = match find(data, tag) {
        Some(p) => p,
        None => {
            return String::new();
        },
    };
    proof {
        let f = first_tag_upto(data@, tag@, data@.len() as int);
        if f < 0 {
            assert(!has_tag(data@, pos as int, tag@));
        } else if f < pos {
        } else if f > pos {
        }
    }
    let (a, b) = window_bounds(data.len(), pos, 8, 80);
    let strings = extract_ascii_strings(&data[a..b], 3);
    let ghost ss = strings@.map_values(|s: String| s@);
    let mut best: usize = 0;
    let mut best_len: usize = 0;
    let mut found = false;
    let mut k: usize = 0;
    while k < strings.len()
        invariant
            k <= strings.len(),
            ss == strings@.map_values(|s: String| s@),
            forall|m: int| 0 <= m < strings@.len() ==> is_ascii_chars(#[trigger] strings@[m]@),
            forall|m: int| 0 <= m < strings@.len() ==> (#[trigger] strings@[m]@).len() <= data@.len(),
            data@.len() <= usize::MAX,
            found <==> k > 0,
            found ==> best < k && ss[best as int] == longest_last(ss.take(k as int)),
            best_len == longest_last(ss.take(k as int)).len(),
        decreases strings.len() - k,
    {
        let st = strings[k].as_str();
        let len_k = st.len();
        proof {
            is_ascii_chars_encode_utf8(strings@[k as int]@);
            assert(st@ == strings@[k as int]@);
            assert(st.spec_bytes() == encode_utf8(st@));
            assert(st.spec_bytes().len() == st@.len());
            assert(len_k == ss[k as int].len());
            assert(ss.take(k + 1).drop_last() =~= ss.take(k as int));
            assert(ss.take(k + 1).last() == ss[k as int]);
        }
        if len_k >= best_len {
            best = k;
            best_len = len_k;
            found = true;
        }
        k += 1;
    }
    proof {
        assert(ss.take(k as int) =~= ss);
        assert(data@.subrange(a as int, b as int) == window(data@, pos as int, 8, 80));
    }
    if found {
        strings[best].clone()
    } else {
        String::new()
    }
}

// ─── Tags ────────────────────────────────────────────────────────────────────

/// `)(M`: a block of measurement samples.
pub open spec fn sample_tag() -> Seq<u8> {
    seq![0x29u8, 0x28u8, 0x4du8]
}

/// `<hLAP`: a lap record.
pub open spec fn lap_tag() -> Seq<u8> {
    seq![0x3cu8, 0x68u8, 0x4cu8, 0x41u8, 0x50u8]
}

/// `<hCHS`: a channel definition.
pub open spec fn chs_tag() -> Seq<u8> {
    seq![0x3cu8, 0x68u8, 0x43u8, 0x48u8, 0x53u8]
}

fn sample_tag_bytes() -> (t: Vec<u8>)
    ensures
        t@ == sample_tag(),
{
    let t = vec![0x29u8, 0x28u8, 0x4du8];
    assert(t@ =~= sample_tag());
    t
}

fn lap_tag_bytes() -> (t: Vec<u8>)
    ensures
        t@ == lap_tag(),
{
    let t = vec![0x3cu8, 0x68u8, 0x4cu8, 0x41u8, 0x50u8];
    assert(t@ =~= lap_tag());
    t
}

fn chs_tag_bytes() -> (t: Vec<u8>)
    ensures
        t@ == chs_tag(),
{
    let t = vec![0x3cu8, 0x68u8, 0x43u8, 0x48u8, 0x53u8];
    assert(t@ =~= chs_tag());
    t
}

/// A tag fixes the bytes it covers.
proof fn lemma_tag_bytes(d: Seq<u8>, p: int, t: Seq<u8>, i: int)
    requires
        has_tag(d, p, t),
        0 <= i < t.len(),
    ensures
        d[p + i] == t[i],
{
    assert(d.subrange(p, p + t.len())[i] == d[p + i]);
}

/// `)(M` cannot start again one or two bytes after an occurrence.
proof fn lemma_sample_tag_no_overlap(d: Seq<u8>, p: int)
    requires
        has_tag(d, p, sample_tag()),
    ensures
        !has_tag(d, p + 1, sample_tag()),
        !has_tag(d, p + 2, sample_tag()),
{
    lemma_tag_bytes(d, p, sample_tag(), 1);
    lemma_tag_bytes(d, p, sample_tag(), 2);
    if has_tag(d, p + 1, sample_tag()) {
        lemma_tag_bytes(d, p + 1, sample_tag(), 0);
    }
    if has_tag(d, p + 2, sample_tag()) {
        lemma_tag_bytes(d, p + 2, sample_tag(), 0);
    }
}

/// A `<h..` tag cannot start again within its first five bytes.
proof fn lemma_h_tag_no_overlap(d: Seq<u8>, p: int, t: Seq<u8>, k: int)
    requires
        has_tag(d, p, t),
        t.len() == 5,
        t[0] == 0x3c,
        t[1] != 0x3c && t[2] != 0x3c && t[3] != 0x3c && t[4] != 0x3c,
        1 <= k < 5,
    ensures
        !has_tag(d, p + k, t),
{
    lemma_tag_bytes(d, p, t, k);
    if has_tag(d, p + k, t) {
        lemma_tag_bytes(d, p + k, t, 0);
    }
}

// ─── Timestamps ──────────────────────────────────────────────────────────────

/// A measurement marker with room for its timestamp at position `p`.
pub open spec fn is_ts_marker(d: Seq<u8>, p: int) -> bool {
    has_tag(d, p, sample_tag()) && p + 7 <= d.len()
}

/// The timestamp of the marker at `p`.
pub open spec fn marker_ts(d: Seq<u8>, p: int) -> u32 {
    spec_u32_le(d, p + 3) as u32
}

/// `ts` is the timestamp of the first measurement marker of `d`.
pub open spec fn is_first_ts(d: Seq<u8>, ts: u32) -> bool {
    exists|p: int|
        is_ts_marker(d, p) && ts == marker_ts(d, p) && forall|q: int|
            #![trigger is_ts_marker(d, q)]
            is_ts_marker(d, q) ==> p <= q
}

/// `ts` is the timestamp of the last measurement marker of `d`.
pub open spec fn is_last_ts(d: Seq<u8>, ts: u32) -> bool {
    exists|p: int|
        is_ts_marker(d, p) && ts == marker_ts(d, p) && forall|q: int|
            #![trigger is_ts_marker(d, q)]
            is_ts_marker(d, q) ==> q <= p
}

/// `d` holds a measurement marker.
pub open spec fn has_ts_marker(d: Seq<u8>) -> bool {
    exists|p: int| is_ts_marker(d, p)
}

/// Timestamps of the first and of the last measurement marker.
pub fn first_last_timestamps(data: &[u8]) -> (r: Option<(u32, u32)>)
    ensures
        r is Some <==> has_ts_marker(data@),
        r matches Some((f, l)) ==> is_first_ts(data@, f) && is_last_ts(data@, l),
{
    let tag = sample_tag_bytes();
    let mut first: Option<u32> = None;
    let mut last: Option<u32> = None;
    let ghost mut fp: int = 0;
    let ghost mut lp: int = 0;
    let mut pos: usize = 0;
    while pos <= data.len() && 7 <= data.len() - pos
        invariant
            tag@ == sample_tag(),
            pos <= data@.len(),
            first is None <==> last is None,
            first is None ==> forall|q: int| 0 <= q < pos ==> !is_ts_marker(data@, q),
            first matches Some(f) ==> {
                &&& 0 <= fp < pos
                &&& is_ts_marker(data@, fp)
                &&& f == marker_ts(data@, fp)
                &&& forall|q: int| 0 <= q < fp ==> !is_ts_marker(data@, q)
            },
            last matches Some(l) ==> {
                &&& 0 <= lp < pos
                &&& is_ts_marker(data@, lp)
                &&& l == marker_ts(data@, lp)
                &&& forall|q: int| lp < q < pos ==> !is_ts_marker(data@, q)
            },
        decreases data.len() - pos,
    {
        if tag_at(data, pos, tag.as_slice()) {
            let ts = u32_le(data, pos + 3);
            if first.is_none() {
                first = Some(ts);
                proof {
                    fp = pos as int;
                }
            }
            last = Some(ts);
            proof {
                lp = pos as int;
                lemma_sample_tag_no_overlap(data@, pos as int);
            }
            pos += 3;
        } else {
            pos += 1;
        }
    }
    proof {
        assert forall|q: int| pos <= q implies !is_ts_marker(data@, q) by {}
    }
    match (first, last) {
        (Some(f), Some(l)) => {
            proof {
                assert forall|q: int| #![trigger is_ts_marker(data@, q)] is_ts_marker(data@, q) implies fp <= q by {
                    if q < fp {
                    }
                }
                assert forall|q: int| #![trigger is_ts_marker(data@, q)] is_ts_marker(data@, q) implies q <= lp by {
                    if q > lp {
                        if q < pos {
                        }
                    }
                }
            }
            Some((f, l))
        },
        _ => None,
    }
}

// ─── Lap records ─────────────────────────────────────────────────────────────

/// A lap chunk with room for its record at position `p`.
pub open spec fn is_lap_chunk(d: Seq<u8>, p: int) -> bool {
    has_tag(d, p, lap_tag()) && p + 32 <= d.len()
}

/// The lap stored in the chunk at `p`, its start taken relative to `first_ts`.
pub open spec fn lap_at(d: Seq<u8>, p: int, first_ts: u32) -> Lap {
    Lap {
        number: spec_u16_le(d, p + 14) as u16,
        time_ms: spec_u32_le(d, p + 16) as u32,
        start_ticks: (spec_u32_le(d, p + 28) as u32).wrapping_sub(first_ts),
    }
}

/// A plausible lap: number 1..=500, duration 0.5 s..=1 h.
pub open spec fn valid_lap(l: Lap) -> bool {
    1 <= l.number <= 500 && 500 <= l.time_ms <= 3_600_000
}

/// The valid lap records of the chunks starting before position `n`, in file order.
pub open spec fn lap_records_upto(d: Seq<u8>, n: int, first_ts: u32) -> Seq<Lap>
    decreases n,
{
    if n <= 0 {
        seq![]
    } else {
        let prev = lap_records_upto(d, n - 1, first_ts);
        if is_lap_chunk(d, n - 1) && valid_lap(lap_at(d, n - 1, first_ts)) {
            prev.push(lap_at(d, n - 1, first_ts))
        } else {
            prev
        }
    }
}

/// The valid lap records of the whole file, in file order.
pub open spec fn spec_lap_records(d: Seq<u8>, first_ts: u32) -> Seq<Lap> {
    lap_records_upto(d, d.len() as int, first_ts)
}

/// The lap records of the file from position `n` on are those of the first `m`
/// positions when no chunk starts in between.
proof fn lemma_lap_records_no_chunk(d: Seq<u8>, n: int, m: int, first_ts: u32)
    requires
        0 <= n <= m,
        forall|q: int| n <= q < m ==> !is_lap_chunk(d, q),
    ensures
        lap_records_upto(d, m, first_ts) == lap_records_upto(d, n, first_ts),
    decreases m - n,
{
    if m > n {
        lemma_lap_records_no_chunk(d, n, m - 1, first_ts);
    }
}

/// The valid lap records of an XRK buffer, in file order.
pub fn lap_records(data: &[u8], first_ts: u32) -> (r: Vec<Lap>)
    ensures
        r@ == spec_lap_records(data@, first_ts),
        forall|i: int| 0 <= i < r@.len() ==> valid_lap(#[trigger] r@[i]),
{
    let tag = lap_tag_bytes();
    let mut laps: Vec<Lap> = Vec::new();
    let mut pos: usize = 0;
    while pos <= data.len() && 32 <= data.len() - pos
        invariant
            tag@ == lap_tag(),
            pos <= data@.len(),
            laps@ == lap_records_upto(data@, pos as int, first_ts),
            forall|i: int| 0 <= i < laps@.len() ==> valid_lap(#[trigger] laps@[i]),
        decreases data.len() - pos,
    {
        if !tag_at(data, pos, tag.as_slice()) {
            pos += 1;
            continue;
        }
        let lap_num = u16_le(data, pos + 14);
        let lap_ms = u32_le(data, pos + 16);
        let start_ts = u32_le(data, pos + 28);
        if 1 <= lap_num && lap_num <= 500 && 500 <= lap_ms && lap_ms <= 3_600_000 {
            laps.push(Lap { number: lap_num, time_ms: lap_ms, start_ticks: start_ts.wrapping_sub(first_ts) });
        }
        proof {
            assert forall|q: int| pos + 1 <= q < pos + 5 implies !is_lap_chunk(data@, q) by {
                lemma_h_tag_no_overlap(data@, pos as int, lap_tag(), q - pos);
            }
            lemma_lap_records_no_chunk(data@, pos + 1, pos + 5, first_ts);
        }
        pos += 5;
    }
    proof {
        lemma_lap_records_no_chunk(data@, pos as int, data@.len() as int, first_ts);
    }
    laps
}

/// `l` is the first record of `recs` with its lap number.
pub open spec fn first_with_number(recs: Seq<Lap>, l: Lap) -> bool {
    exists|k: int|
        #![trigger recs[k]]
        0 <= k < recs.len() && recs[k] == l && forall|j: int|
            0 <= j < k ==> (#[trigger] recs[j]).number != l.number
}

/// Some lap of `laps` has number `n`.
pub open spec fn has_lap_number(laps: Seq<Lap>, n: u16) -> bool {
    exists|i: int| 0 <= i < laps.len() && (#[trigger] laps[i]).number == n
}

/// `laps` holds, sorted by lap number, the first record of `recs` for each lap
/// number that occurs in `recs`.
pub open spec fn is_lap_table(laps: Seq<Lap>, recs: Seq<Lap>) -> bool {
    &&& forall|i: int, j: int| 0 <= i < j < laps.len() ==> laps[i].number < laps[j].number
    &&& forall|i: int| 0 <= i < laps.len() ==> first_with_number(recs, #[trigger] laps[i])
    &&& forall|k: int| 0 <= k < recs.len() ==> has_lap_number(laps, (#[trigger] recs[k]).number)
}

/// A first record stays first when records are appended.
proof fn lemma_first_with_number_push(recs: Seq<Lap>, rec: Lap, l: Lap)
    requires
        first_with_number(recs, l),
    ensures
        first_with_number(recs.push(rec), l),
{
    let next = recs.push(rec);
    let w = choose|w: int|
        0 <= w < recs.len() && recs[w] == l && forall|j: int|
            0 <= j < w ==> (#[trigger] recs[j]).number != l.number;
    assert(next[w] == l);
    assert forall|j: int| 0 <= j < w implies (#[trigger] next[j]).number != l.number by {
        assert(next[j] == recs[j]);
    }
}

/// Appending a record whose lap number is already in the table leaves it a table.
proof fn lemma_lap_table_dup(laps: Seq<Lap>, recs: Seq<Lap>, rec: Lap, q: int)
    requires
        is_lap_table(laps, recs),
        0 <= q < laps.len(),
        laps[q].number == rec.number,
    ensures
        is_lap_table(laps, recs.push(rec)),
{
    let next = recs.push(rec);
    assert forall|i: int| 0 <= i < laps.len() implies first_with_number(next, #[trigger] laps[i]) by {
        lemma_first_with_number_push(recs, rec, laps[i]);
    }
    assert forall|m: int| 0 <= m < next.len() implies has_lap_number(laps, (#[trigger] next[m]).number) by {
        if m < recs.len() {
            assert(next[m] == recs[m]);
        } else {
            assert(laps[q].number == next[m].number);
        }
    }
}

/// Inserting a record with a new lap number at its sorted place keeps a table.
proof fn lemma_lap_table_insert(laps: Seq<Lap>, recs: Seq<Lap>, rec: Lap, q: int)
    requires
        is_lap_table(laps, recs),
        0 <= q <= laps.len(),
        forall|i: int| 0 <= i < q ==> (#[trigger] laps[i]).number < rec.number,
        q < laps.len() ==> laps[q].number > rec.number,
    ensures
        is_lap_table(laps.insert(q, rec), recs.push(rec)),
{
    let next = recs.push(rec);
    let new_laps = laps.insert(q, rec);
    assert forall|i: int| q <= i < laps.len() implies rec.number < (#[trigger] laps[i]).number by {
        if i > q {
            assert(laps[q].number < laps[i].number);
        }
    }
    assert forall|j: int| 0 <= j < recs.len() implies (#[trigger] recs[j]).number != rec.number by {
        assert(has_lap_number(laps, recs[j].number));
        let i = choose|i: int| 0 <= i < laps.len() && (#[trigger] laps[i]).number == recs[j].number;
    }
    assert(first_with_number(next, rec)) by {
        assert(next[recs.len() as int] == rec);
        assert forall|j: int| 0 <= j < recs.len() implies (#[trigger] next[j]).number != rec.number by {
            assert(next[j] == recs[j]);
        }
    }
    assert forall|i: int| 0 <= i < new_laps.len() implies first_with_number(next, #[trigger] new_laps[i]) by {
        if i < q {
            lemma_first_with_number_push(recs, rec, laps[i]);
        } else if i > q {
            lemma_first_with_number_push(recs, rec, laps[i - 1]);
        }
    }
    assert forall|m: int| 0 <= m < next.len() implies has_lap_number(new_laps, (#[trigger] next[m]).number) by {
        if m < recs.len() {
            assert(next[m] == recs[m]);
            assert(has_lap_number(laps, recs[m].number));
            let i = choose|i: int| 0 <= i < laps.len() && (#[trigger] laps[i]).number == recs[m].number;
            if i < q {
                assert(new_laps[i] == laps[i]);
            } else {
                assert(new_laps[i + 1] == laps[i]);
            }
        } else {
            assert(new_laps[q] == rec);
        }
    }
    assert forall|i: int, j: int| 0 <= i < j < new_laps.len() implies new_laps[i].number
        < new_laps[j].number by {
        if j < q {
        } else if j == q {
        } else if i < q {
            assert(new_laps[j] == laps[j - 1]);
        } else if i == q {
            assert(new_laps[j] == laps[j - 1]);
        } else {
            assert(new_laps[i] == laps[i - 1] && new_laps[j] == laps[j - 1]);
        }
    }
}

/// All timed laps of an XRK buffer: for each lap number the first valid
/// record, sorted by lap number.
pub fn parse_laps(data: &[u8], first_ts: u32) -> (r: Vec<Lap>)
    ensures
        is_lap_table(r@, spec_lap_records(data@, first_ts)),
{
    let recs = lap_records(data, first_ts);
    let mut laps: Vec<Lap> = Vec::new();
    let mut k: usize = 0;
    while k < recs.len()
        invariant
            k <= recs@.len(),
            is_lap_table(laps@, recs@.take(k as int)),
        decreases recs.len() - k,
    {
        let rec = recs[k];
        let ghost old_laps = laps@;
        assert(recs@.take(k + 1) =~= recs@.take(k as int).push(rec));
        let mut q: usize = 0;
        while q < laps.len() && laps[q].number < rec.number
            invariant
                q <= laps@.len(),
                laps@ == old_laps,
                forall|i: int| 0 <= i < q ==> (#[trigger] laps@[i]).number < rec.number,
            decreases laps.len() - q,
        {
            q += 1;
        }
        if q < laps.len() && laps[q].number == rec.number {
            proof {
                lemma_lap_table_dup(laps@, recs@.take(k as int), rec, q as int);
            }
        } else {
            proof {
                lemma_lap_table_insert(laps@, recs@.take(k as int), rec, q as int);
            }
            laps.insert(q, rec);
        }
        k += 1;
    }
    assert(recs@.take(k as int) =~= recs@);
    laps
}

// ─── Channel definitions ─────────────────────────────────────────────────────

/// A channel definition chunk with room for its header at position `p`.
pub open spec fn is_chs_chunk(d: Seq<u8>, p: int) -> bool {
    has_tag(d, p, chs_tag()) && p + 8 <= d.len()
}

/// Positions of the channel definition chunks starting before `n`, in order.
pub open spec fn chs_positions_upto(d: Seq<u8>, n: int) -> Seq<int>
    decreases n,
{
    if n <= 0 {
        seq![]
    } else {
        let prev = chs_positions_upto(d, n - 1);
        if is_chs_chunk(d, n - 1) {
            prev.push(n - 1)
        } else {
            prev
        }
    }
}

/// Positions of all channel definition chunks, in file order.
pub open spec fn chs_positions(d: Seq<u8>) -> Seq<int> {
    chs_positions_upto(d, d.len() as int)
}

/// The strings of the 100 bytes that follow a definition header at `p`.
pub open spec fn def_strings(d: Seq<u8>, p: int) -> Seq<Seq<char>> {
    ascii_strings(window(d, p, 8, 108), 2)
}

/// A definition's short name: its first string, or empty.
pub open spec fn def_short_name(ss: Seq<Seq<char>>) -> Seq<char> {
    if ss.len() > 0 {
        ss[0]
    } else {
        seq![]
    }
}

/// A definition's name: its second string, or else its short name.
pub open spec fn def_name(ss: Seq<Seq<char>>) -> Seq<char> {
    if ss.len() > 1 {
        ss[1]
    } else {
        def_short_name(ss)
    }
}

/// The channel defined by the chunk at `p`, numbered `id`, without samples.
pub open spec fn channel_def(d: Seq<u8>, p: int, id: u16) -> ChannelModel {
    ChannelModel {
        id,
        name: def_name(def_strings(d, p)),
        short_name: def_short_name(def_strings(d, p)),
        samples: seq![],
    }
}

/// The channels defined in the file: the i-th definition chunk gives channel `i`.
pub open spec fn spec_channel_defs(d: Seq<u8>) -> Seq<ChannelModel> {
    let ps = chs_positions(d);
    Seq::new(ps.len(), |i: int| channel_def(d, ps[i], i as u16))
}

proof fn lemma_chs_positions_no_chunk(d: Seq<u8>, n: int, m: int)
    requires
        0 <= n <= m,
        forall|q: int| n <= q < m ==> !is_chs_chunk(d, q),
    ensures
        chs_positions_upto(d, m) == chs_positions_upto(d, n),
    decreases m - n,
{
    if m > n {
        lemma_chs_positions_no_chunk(d, n, m - 1);
    }
}

proof fn lemma_chs_positions_bound(d: Seq<u8>, n: int)
    requires
        0 <= n,
    ensures
        chs_positions_upto(d, n).len() <= n,
        forall|i: int|
            0 <= i < chs_positions_upto(d, n).len() ==> is_chs_chunk(
                d,
                #[trigger] chs_positions_upto(d, n)[i],
            ),
    decreases n,
{
    if n > 0 {
        lemma_chs_positions_bound(d, n - 1);
    }
}

/// The definitions before `n` are a prefix of those before `m >= n`.
proof fn lemma_chs_positions_prefix(d: Seq<u8>, n: int, m: int)
    requires
        0 <= n <= m,
    ensures
        chs_positions_upto(d, n).len() <= chs_positions_upto(d, m).len(),
        forall|i: int|
            0 <= i < chs_positions_upto(d, n).len() ==> chs_positions_upto(d, m)[i]
                == chs_positions_upto(d, n)[i],
    decreases m - n,
{
    if m > n {
        lemma_chs_positions_prefix(d, n, m - 1);
    }
}

/// Skip from a definition chunk at `pos` to `pos + 5`.
proof fn lemma_chs_step(d: Seq<u8>, pos: int)
    requires
        is_chs_chunk(d, pos),
    ensures
        chs_positions_upto(d, pos + 5) == chs_positions_upto(d, pos).push(pos),
{
    assert forall|q: int| pos + 1 <= q < pos + 5 implies !is_chs_chunk(d, q) by {
        lemma_h_tag_no_overlap(d, pos, chs_tag(), q - pos);
    }
    lemma_chs_positions_no_chunk(d, pos + 1, pos + 5);
}

/// Number of channel definition chunks in an XRK buffer.
pub fn channel_def_count(data: &[u8]) -> (r: usize)
    ensures
        r == chs_positions(data@).len(),
{
    let tag = chs_tag_bytes();
    let mut n: usize = 0;
    let mut pos: usize = 0;
    while pos <= data.len() && 8 <= data.len() - pos
        invariant
            tag@ == chs_tag(),
            pos <= data@.len(),
            n == chs_positions_upto(data@, pos as int).len(),
        decreases data.len() - pos,
    {
        if !tag_at(data, pos, tag.as_slice()) {
            pos += 1;
            continue;
        }
        proof {
            lemma_chs_step(data@, pos as int);
            lemma_chs_positions_bound(data@, pos as int);
        }
        n += 1;
        pos += 5;
    }
    proof {
        lemma_chs_positions_no_chunk(data@, pos as int, data@.len() as int);
    }
    n
}

/// Parse the channel definitions in file order. Each definition chunk gives
/// one channel, numbered by its position in the sequence of definitions; its
/// short name and name are the first two strings that follow the header.
pub fn parse_channel_defs(data: &[u8]) -> (r: Vec<Channel>)
    requires
        chs_positions(data@).len() <= 65535,
    ensures
        r@.map_values(|c: Channel| c@) == spec_channel_defs(data@),
{
    let tag = chs_tag_bytes();
    let mut channels: Vec<Channel> = Vec::new();
    let mut pos: usize = 0;
    let mut id: u16 = 0;
    proof {
        lemma_chs_positions_no_chunk(data@, 0, 0);
    }
    while pos <= data.len() && 8 <= data.len() - pos
        invariant
            tag@ == chs_tag(),
            pos <= data@.len(),
            chs_positions(data@).len() <= 65535,
            id as int == chs_positions_upto(data@, pos as int).len(),
            channels@.len() == id,
            forall|i: int|
                0 <= i < id ==> (#[trigger] channels@[i])@ == channel_def(
                    data@,
                    chs_positions_upto(data@, pos as int)[i],
                    i as u16,
                ),
        decreases data.len() - pos,
    {
        if !tag_at(data, pos, tag.as_slice()) {
            pos += 1;
            continue;
        }
        let ghost old_positions = chs_positions_upto(data@, pos as int);
        proof {
            lemma_chs_step(data@, pos as int);
            lemma_chs_positions_prefix(data@, pos + 5, data@.len() as int);
        }
        let (a, b) = window_bounds(data.len(), pos, 8, 108);
        let strings = extract_ascii_strings(&data[a..b], 2);
        let short_name = if strings.len() > 0 {
            strings[0].clone()
        } else {
            String::new()
        };
        let long_name = if strings.len() > 1 {
            strings[1].clone()
        } else {
            short_name.clone()
        };
        proof {
            assert(data@.subrange(a as int, b as int) == window(data@, pos as int, 8, 108));
        }
        channels.push(Channel { id, short_name, name: long_name, samples: Vec::new() });
        proof {
            let new_positions = chs_positions_upto(data@, pos + 5);
            assert forall|i: int| 0 <= i < id + 1 implies (#[trigger] channels@[i])@ == channel_def(
                data@,
                new_positions[i],
                i as u16,
            ) by {
                if i < id {
                    assert(new_positions[i] == old_positions[i]);
                } else {
                    assert(new_positions[i] == pos);
                    assert(channels@[i].samples@ =~= Seq::<Sample>::empty());
                }
            }
        }
        id += 1;
        pos += 5;
    }
    proof {
        lemma_chs_positions_no_chunk(data@, pos as int, data@.len() as int);
        assert(channels@.map_values(|c: Channel| c@) =~= spec_channel_defs(data@));
    }
    channels
}

// ─── Samples ─────────────────────────────────────────────────────────────────

/// Sample count declared by the block header at `p`.
pub open spec fn block_len(d: Seq<u8>, p: int) -> int {
    spec_u16_le(d, p + 9)
}

/// A well-formed block of measurement samples at `p`: marker, header and
/// 1..=200 samples, all inside the buffer.
pub open spec fn is_sample_block(d: Seq<u8>, p: int) -> bool {
    &&& has_tag(d, p, sample_tag())
    &&& p + 11 <= d.len()
    &&& 1 <= block_len(d, p) <= 200
    &&& p + 11 + 2 * block_len(d, p) <= d.len()
}

/// Channel ID of the block at `p`.
pub open spec fn block_channel(d: Seq<u8>, p: int) -> u16 {
    spec_u16_le(d, p + 7) as u16
}

/// The samples of the block at `p`, all at the block's time relative to `first_ts`.
pub open spec fn block_samples(d: Seq<u8>, p: int, first_ts: u32) -> Seq<Sample> {
    Seq::new(
        block_len(d, p) as nat,
        |i: int|
            Sample {
                ticks: marker_ts(d, p).wrapping_sub(first_ts),
                raw: spec_u16_le(d, p + 11 + 2 * i) as u16,
            },
    )
}

/// Positions of the sample blocks starting before `n`, in order.
pub open spec fn block_positions_upto(d: Seq<u8>, n: int) -> Seq<int>
    decreases n,
{
    if n <= 0 {
        seq![]
    } else {
        let prev = block_positions_upto(d, n - 1);
        if is_sample_block(d, n - 1) {
            prev.push(n - 1)
        } else {
            prev
        }
    }
}

/// Positions of all sample blocks, in file order.
pub open spec fn block_positions(d: Seq<u8>) -> Seq<int> {
    block_positions_upto(d, d.len() as int)
}

/// Index of the last channel of `chans` with ID `id`, or -1.
pub open spec fn find_channel(chans: Seq<ChannelModel>, id: u16) -> int
    decreases chans.len(),
{
    if chans.len() == 0 {
        -1
    } else if chans.last().id == id {
        chans.len() - 1
    } else {
        find_channel(chans.drop_last(), id)
    }
}

/// The ASCII name given to a channel that has samples but no definition.
pub open spec fn default_name(id: u16) -> Seq<u8> {
    seq![0x43u8, 0x68u8, 0x61u8, 0x6eu8, 0x6eu8, 0x65u8, 0x6cu8, 0x5fu8] + decimal(id as nat)
}

/// The ASCII short name given to a channel that has samples but no definition.
pub open spec fn default_short_name(id: u16) -> Seq<u8> {
    seq![0x43u8, 0x68u8] + zero_pad(decimal(id as nat), 2)
}

/// A channel created for samples of an undefined ID: `Channel_<id>`, `Ch<id:02>`.
pub open spec fn new_channel(id: u16, samples: Seq<Sample>) -> ChannelModel {
    ChannelModel {
        id,
        name: ascii_chars(default_name(id)),
        short_name: ascii_chars(default_short_name(id)),
        samples,
    }
}

/// `chans` after the samples of one block for channel `id` are appended to that
/// channel, which is created at the end when there is none.
pub open spec fn add_block(chans: Seq<ChannelModel>, id: u16, samples: Seq<Sample>) -> Seq<ChannelModel> {
    let i = find_channel(chans, id);
    if i >= 0 {
        chans.update(
            i,
            ChannelModel {
                id: chans[i].id,
                name: chans[i].name,
                short_name: chans[i].short_name,
                samples: chans[i].samples + samples,
            },
        )
    } else {
        chans.push(new_channel(id, samples))
    }
}

/// `chans` after the blocks at positions `ps` are added in order.
pub open spec fn distribute(chans: Seq<ChannelModel>, d: Seq<u8>, ps: Seq<int>, first_ts: u32) -> Seq<
    ChannelModel,
>
    decreases ps.len(),
{
    if ps.len() == 0 {
        chans
    } else {
        add_block(
            distribute(chans, d, ps.drop_last(), first_ts),
            block_channel(d, ps.last()),
            block_samples(d, ps.last(), first_ts),
        )
    }
}

/// Samples in non-decreasing time order.
pub open spec fn sorted_by_ticks(s: Seq<Sample>) -> bool {
    forall|i: int, j: int| 0 <= i < j < s.len() ==> s[i].ticks <= s[j].ticks
}

/// `m` is channel `c` with its samples put in time order, samples taken at
/// the same time kept in their order.
pub open spec fn is_sorted_version(c: ChannelModel, m: ChannelModel) -> bool {
    &&& m.id == c.id
    &&& m.name == c.name
    &&& m.short_name == c.short_name
    &&& m.samples.to_multiset() == c.samples.to_multiset()
    &&& is_stable_sort(c.samples, m.samples)
}

/// The channels of `chans` that have at least one sample, in order.
pub open spec fn with_samples(chans: Seq<ChannelModel>) -> Seq<ChannelModel> {
    chans.filter(|c: ChannelModel| c.samples.len() > 0)
}

/// Keeping the channels with samples, one more channel at a time.
proof fn lemma_with_samples_step(s: Seq<ChannelModel>, j: int)
    requires
        0 <= j < s.len(),
    ensures
        with_samples(s.take(j + 1)) == if s[j].samples.len() > 0 {
            with_samples(s.take(j)).push(s[j])
        } else {
            with_samples(s.take(j))
        },
{
    reveal_with_fuel(Seq::<ChannelModel>::filter, 1);
    assert(s.take(j + 1).drop_last() =~= s.take(j));
    assert(s.take(j + 1).last() == s[j]);
}

/// No two channels share an ID.
pub open spec fn unique_ids(chans: Seq<ChannelModel>) -> bool {
    forall|i: int, j: int| 0 <= i < j < chans.len() ==> chans[i].id != chans[j].id
}

/// The samples of `s` taken at time `t`, in order.
pub open spec fn at_ticks(s: Seq<Sample>, t: u32) -> Seq<Sample> {
    s.filter(|x: Sample| x.ticks == t)
}

/// `r` is `v` in time order, samples taken at the same time kept in the order
/// they have in `v`.
pub open spec fn is_stable_sort(v: Seq<Sample>, r: Seq<Sample>) -> bool {
    &&& sorted_by_ticks(r)
    &&& forall|t: u32| #[trigger] at_ticks(r, t) == at_ticks(v, t)
}

/// Appending a sample appends it to the samples of its time.
proof fn lemma_at_ticks_push(s: Seq<Sample>, x: Sample, t: u32)
    ensures
        at_ticks(s.push(x), t) == if x.ticks == t {
            at_ticks(s, t).push(x)
        } else {
            at_ticks(s, t)
        },
{
    s.lemma_filter_push(x, |y: Sample| y.ticks == t);
}

/// No sample of `s` is taken at time `t`.
proof fn lemma_at_ticks_none(s: Seq<Sample>, t: u32)
    requires
        forall|k: int| 0 <= k < s.len() ==> (#[trigger] s[k]).ticks != t,
    ensures
        at_ticks(s, t) == Seq::<Sample>::empty(),
{
    let f = at_ticks(s, t);
    if f.len() > 0 {
        s.lemma_filter_pred(|y: Sample| y.ticks == t, 0);
        assert(f.contains(f[0]));
        s.lemma_filter_contains_rev(|y: Sample| y.ticks == t, f[0]);
    }
    assert(f =~= Seq::<Sample>::empty());
}

/// Merge two time-ordered runs of samples, taking from `a` first on equal times.
fn merge_by_ticks(a: &[Sample], b: &[Sample]) -> (r: Vec<Sample>)
    requires
        sorted_by_ticks(a@),
        sorted_by_ticks(b@),
    ensures
        r@.to_multiset() == (a@ + b@).to_multiset(),
        sorted_by_ticks(r@),
        forall|t: u32| #[trigger] at_ticks(r@, t) == at_ticks(a@, t) + at_ticks(b@, t),
{
    let mut r: Vec<Sample> = Vec::new();
    let mut i: usize = 0;
    let mut j: usize = 0;
    assert(a@.take(0) =~= Seq::<Sample>::empty());
    assert(b@.take(0) =~= Seq::<Sample>::empty());
    proof {
        let e = Seq::<Sample>::empty();
        e.to_multiset_ensures();
        vstd::multiset::lemma_multiset_empty_len(e.to_multiset());
        assert(r@ =~= e);
        assert(e.to_multiset().add(e.to_multiset()) =~= e.to_multiset());
        assert forall|t: u32| #[trigger] at_ticks(r@, t) == at_ticks(a@.take(0), t) + at_ticks(
            b@.take(0),
            t,
        ) by {
            lemma_at_ticks_none(e, t);
            assert(at_ticks(e, t) + at_ticks(e, t) =~= at_ticks(e, t));
        }
    }
    while i < a.len() || j < b.len()
        invariant
            i <= a@.len(),
            j <= b@.len(),
            sorted_by_ticks(a@),
            sorted_by_ticks(b@),
            sorted_by_ticks(r@),
            r@.len() == i + j,
            r@.to_multiset() == a@.take(i as int).to_multiset().add(b@.take(j as int).to_multiset()),
            r@.len() > 0 && i < a@.len() ==> r@.last().ticks <= a@[i as int].ticks,
            r@.len() > 0 && j < b@.len() ==> r@.last().ticks <= b@[j as int].ticks,
            forall|k: int| 0 <= k < j && i < a@.len() ==> (#[trigger] b@[k]).ticks < a@[i as int].ticks,
            forall|t: u32|
                #[trigger] at_ticks(r@, t) == at_ticks(a@.take(i as int), t) + at_ticks(
                    b@.take(j as int),
                    t,
                ),
        decreases a.len() + b.len() - i - j,
    {
        let ghost old_r = r@;
        let ghost ma = a@.take(i as int).to_multiset();
        let ghost mb = b@.take(j as int).to_multiset();
        if j >= b.len() || (i < a.len() && a[i].ticks <= b[j].ticks) {
            let x = a[i];
            r.push(x);
            proof {
                assert(a@.take(i + 1) =~= a@.take(i as int).push(x));
                assert(r@ == old_r.push(x));
                vstd::seq_lib::to_multiset_build(old_r, x);
                vstd::seq_lib::to_multiset_build(a@.take(i as int), x);
                assert(ma.insert(x).add(mb) =~= ma.add(mb).insert(x));
                assert forall|t: u32| #[trigger] at_ticks(r@, t) == at_ticks(a@.take(i + 1), t)
                    + at_ticks(b@.take(j as int), t) by {
                    lemma_at_ticks_push(old_r, x, t);
                    lemma_at_ticks_push(a@.take(i as int), x, t);
                    if x.ticks == t {
                        lemma_at_ticks_none(b@.take(j as int), t);
                        assert(at_ticks(a@.take(i as int), t).push(x) + at_ticks(b@.take(j as int), t)
                            =~= (at_ticks(a@.take(i as int), t) + at_ticks(b@.take(j as int), t)).push(x));
                    }
                }
                assert forall|k: int| 0 <= k < j && i + 1 < a@.len() implies (#[trigger] b@[k]).ticks
                    < a@[i + 1].ticks by {
                    assert(a@[i as int].ticks <= a@[i + 1].ticks);
                }
            }
            i += 1;
        } else {
            let x = b[j];
            r.push(x);
            proof {
                assert(b@.take(j + 1) =~= b@.take(j as int).push(x));
                assert(r@ == old_r.push(x));
                vstd::seq_lib::to_multiset_build(old_r, x);
                vstd::seq_lib::to_multiset_build(b@.take(j as int), x);
                assert(ma.add(mb.insert(x)) =~= ma.add(mb).insert(x));
                assert forall|t: u32| #[trigger] at_ticks(r@, t) == at_ticks(a@.take(i as int), t)
                    + at_ticks(b@.take(j + 1), t) by {
                    lemma_at_ticks_push(old_r, x, t);
                    lemma_at_ticks_push(b@.take(j as int), x, t);
                    if x.ticks == t {
                        assert(at_ticks(a@.take(i as int), t) + at_ticks(b@.take(j as int), t).push(x)
                            =~= (at_ticks(a@.take(i as int), t) + at_ticks(b@.take(j as int), t)).push(x));
                    }
                }
            }
            j += 1;
        }
        assert forall|p: int, q: int| 0 <= p < q < r@.len() implies r@[p].ticks <= r@[q].ticks by {
            if q == r@.len() - 1 && p < q {
                if old_r.len() > 0 {
                    assert(old_r[p].ticks <= old_r.last().ticks);
                }
            } else {
                assert(r@[p] == old_r[p] && r@[q] == old_r[q]);
            }
        }
    }
    assert(a@.take(i as int) =~= a@);
    assert(b@.take(j as int) =~= b@);
    proof {
        vstd::seq_lib::lemma_multiset_commutative(a@, b@);
    }
    r
}

/// The samples `v` in time order; samples taken at the same time keep their order.
pub fn sort_by_ticks(v: &[Sample]) -> (r: Vec<Sample>)
    ensures
        r@.to_multiset() == v@.to_multiset(),
        is_stable_sort(v@, r@),
    decreases v.len(),
{
    if v.len() <= 1 {
        return vstd::slice::slice_to_vec(v);
    }
    let mid = v.len() / 2;
    let left = sort_by_ticks(&v[0..mid]);
    let right = sort_by_ticks(&v[mid..v.len()]);
    let r = merge_by_ticks(left.as_slice(), right.as_slice());
    proof {
        let lo = v@.subrange(0, mid as int);
        let hi = v@.subrange(mid as int, v@.len() as int);
        assert(v@ =~= lo + hi);
        vstd::seq_lib::lemma_multiset_commutative(left@, right@);
        vstd::seq_lib::lemma_multiset_commutative(lo, hi);
        assert forall|t: u32| #[trigger] at_ticks(r@, t) == at_ticks(v@, t) by {
            Seq::filter_distributes_over_add(lo, hi, |x: Sample| x.ticks == t);
            assert(at_ticks(left@, t) == at_ticks(lo, t));
            assert(at_ticks(right@, t) == at_ticks(hi, t));
        }
    }
    r
}

pub proof fn lemma_find_channel(chans: Seq<ChannelModel>, id: u16)
    ensures
        -1 <= find_channel(chans, id) < chans.len(),
        find_channel(chans, id) >= 0 ==> chans[find_channel(chans, id)].id == id,
        find_channel(chans, id) == -1 ==> forall|i: int| 0 <= i < chans.len() ==> chans[i].id != id,
        forall|i: int| find_channel(chans, id) < i < chans.len() ==> chans[i].id != id,
    decreases chans.len(),
{
    if chans.len() > 0 {
        let pre = chans.drop_last();
        lemma_find_channel(pre, id);
        assert forall|i: int| 0 <= i < pre.len() implies chans[i] == pre[i] by {}
    }
}

proof fn lemma_block_positions_no_block(d: Seq<u8>, n: int, m: int)
    requires
        0 <= n <= m,
        forall|q: int| n <= q < m ==> !is_sample_block(d, q),
    ensures
        block_positions_upto(d, m) == block_positions_upto(d, n),
    decreases m - n,
{
    if m > n {
        lemma_block_positions_no_block(d, n, m - 1);
    }
}

/// `m` maps every channel ID of `chans` to the index of the last channel
/// with that ID, and holds no other key.
pub open spec fn index_map_ok(m: Map<u16, usize>, chans: Seq<ChannelModel>) -> bool {
    &&& forall|id: u16|
        #[trigger] m.contains_key(id) ==> find_channel(chans, id) >= 0 && m[id] == find_channel(
            chans,
            id,
        )
    &&& forall|j: int| 0 <= j < chans.len() ==> m.contains_key((#[trigger] chans[j]).id)
}

/// Channel lists with the same IDs at the same places find the same channels.
proof fn lemma_find_channel_same_ids(a: Seq<ChannelModel>, b: Seq<ChannelModel>, id: u16)
    requires
        a.len() == b.len(),
        forall|j: int| 0 <= j < a.len() ==> a[j].id == b[j].id,
    ensures
        find_channel(a, id) == find_channel(b, id),
    decreases a.len(),
{
    if a.len() > 0 {
        lemma_find_channel_same_ids(a.drop_last(), b.drop_last(), id);
    }
}

/// An index map stays valid when the channels keep their IDs.
proof fn lemma_index_map_same_ids(m: Map<u16, usize>, a: Seq<ChannelModel>, b: Seq<ChannelModel>)
    requires
        index_map_ok(m, a),
        a.len() == b.len(),
        forall|j: int| 0 <= j < a.len() ==> a[j].id == b[j].id,
    ensures
        index_map_ok(m, b),
{
    assert forall|id: u16| #[trigger] m.contains_key(id) implies find_channel(b, id) >= 0 && m[id]
        == find_channel(b, id) by {
        lemma_find_channel_same_ids(a, b, id);
    }
    assert forall|j: int| 0 <= j < b.len() implies m.contains_key((#[trigger] b[j]).id) by {
        assert(a[j].id == b[j].id);
        assert(m.contains_key(a[j].id));
    }
}

/// Adding a channel with a new ID at the end, and its index to the map.
proof fn lemma_index_map_push(m: Map<u16, usize>, chans: Seq<ChannelModel>, c: ChannelModel)
    requires
        index_map_ok(m, chans),
        chans.len() <= usize::MAX,
    ensures
        index_map_ok(m.insert(c.id, chans.len() as usize), chans.push(c)),
{
    let m2 = m.insert(c.id, chans.len() as usize);
    let post = chans.push(c);
    assert(post.drop_last() =~= chans);
    assert forall|id: u16| #[trigger] m2.contains_key(id) implies find_channel(post, id) >= 0 && m2[id]
        == find_channel(post, id) by {
        if id != c.id {
            assert(m.contains_key(id));
        }
    }
    assert forall|j: int| 0 <= j < post.len() implies m2.contains_key((#[trigger] post[j]).id) by {
        if j < chans.len() {
            assert(post[j] == chans[j]);
            assert(m.contains_key(chans[j].id));
        }
    }
}

/// The name of a channel that has samples but no definition: `Channel_<id>`.
fn default_name_string(id: u16) -> (s: String)
    ensures
        s@ == ascii_chars(default_name(id)),
{
    let mut out: Vec<u8> = vec![0x43u8, 0x68u8, 0x61u8, 0x6eu8, 0x6eu8, 0x65u8, 0x6cu8, 0x5fu8];
    push_padded_decimal(&mut out, id as u32, 0);
    proof {
        lemma_decimal(id as nat);
        assert(out@ =~= default_name(id));
    }
    ascii_to_string(out.as_slice())
}

/// The short name of a channel that has samples but no definition: `Ch<id:02>`.
fn default_short_name_string(id: u16) -> (s: String)
    ensures
        s@ == ascii_chars(default_short_name(id)),
{
    let mut out: Vec<u8> = vec![0x43u8, 0x68u8];
    push_padded_decimal(&mut out, id as u32, 2);
    proof {
        lemma_decimal(id as nat);
        assert(out@ =~= default_short_name(id));
    }
    ascii_to_string(out.as_slice())
}

/// Read all measurement blocks and distribute their samples into the channels
/// with matching IDs, creating a channel for each undefined ID; then put each
/// channel's samples in time order and drop the channels without samples.
pub fn populate_samples(data: &[u8], first_ts: u32, channels: Vec<Channel>) -> (r: Vec<Channel>)
    ensures
        ({
            let kept = with_samples(
                distribute(channels@.map_values(|c: Channel| c@), data@, block_positions(data@), first_ts),
            );
            &&& r@.len() == kept.len()
            &&& forall|i: int| 0 <= i < r@.len() ==> is_sorted_version(kept[i], (#[trigger] r@[i])@)
        }),
{
    broadcast use vstd::std_specs::hash::group_hash_axioms;

    let mut channels = channels;
    let ghost init = channels@.map_values(|c: Channel| c@);
    let mut id_to_idx: HashMap<u16, usize> = HashMap::new();
    let mut k: usize = 0;
    while k < channels.len()
        invariant
            k <= channels@.len(),
            init == channels@.map_values(|c: Channel| c@),
            index_map_ok(id_to_idx@, init.take(k as int)),
        decreases channels.len() - k,
    {
        let ghost before = id_to_idx@;
        id_to_idx.insert(channels[k].id, k);
        proof {
            let pre = init.take(k as int);
            let post = init.take(k + 1);
            assert(post =~= pre.push(init[k as int]));
            lemma_index_map_push(before, pre, init[k as int]);
        }
        k += 1;
    }
    assert(init.take(k as int) =~= init);
    let tag = sample_tag_bytes();
    let mut pos: usize = 0;
    proof {
        lemma_block_positions_no_block(data@, 0, 0);
    }
    while pos <= data.len() && 11 <= data.len() - pos
        invariant
            tag@ == sample_tag(),
            pos <= data@.len(),
            channels@.map_values(|c: Channel| c@) == distribute(
                init,
                data@,
                block_positions_upto(data@, pos as int),
                first_ts,
            ),
            index_map_ok(id_to_idx@, channels@.map_values(|c: Channel| c@)),
        decreases data.len() - pos,
    {
        if !tag_at(data, pos, tag.as_slice()) {
            pos += 1;
            continue;
        }
        let raw_ts = u32_le(data, pos + 3);
        let ch_id = u16_le(data, pos + 7);
        let n_samples = u16_le(data, pos + 9) as usize;
        let data_start = pos + 11;
        if n_samples == 0 || n_samples > 200 || n_samples * 2 > data.len() - data_start {
            pos += 1;
            continue;
        }
        let ticks = raw_ts.wrapping_sub(first_ts);
        let ghost before = channels@.map_values(|c: Channel| c@);
        let ghost block = block_samples(data@, pos as int, first_ts);
        let ghost map0 = id_to_idx@;
        proof {
            lemma_find_channel(before, ch_id);
            if find_channel(before, ch_id) >= 0 {
                assert(map0.contains_key(before[find_channel(before, ch_id)].id));
            }
        }
        let idx = match id_to_idx.get(&ch_id) {
            Some(i) => *i,
            None => {
                let i = channels.len();
                let name = default_name_string(ch_id);
                let short_name = default_short_name_string(ch_id);
                channels.push(Channel { id: ch_id, name, short_name, samples: Vec::new() });
                id_to_idx.insert(ch_id, i);
                i
            },
        };
        let ghost mid = channels@.map_values(|c: Channel| c@);
        proof {
            if find_channel(before, ch_id) >= 0 {
                assert(mid == before);
                assert(idx == find_channel(before, ch_id));
            } else {
                assert(mid =~= before.push(new_channel(ch_id, Seq::empty())));
                assert(id_to_idx@ == map0.insert(ch_id, before.len() as usize));
                lemma_index_map_push(map0, before, new_channel(ch_id, Seq::empty()));
            }
            assert(index_map_ok(id_to_idx@, mid));
        }
        let mut i: usize = 0;
        while i < n_samples
            invariant
                i <= n_samples <= 200,
                data_start + 2 * n_samples <= data@.len(),
                data@.len() <= usize::MAX,
                index_map_ok(id_to_idx@, mid),
                data_start == pos + 11,
                n_samples == block_len(data@, pos as int),
                ticks == marker_ts(data@, pos as int).wrapping_sub(first_ts),
                block == block_samples(data@, pos as int, first_ts),
                idx < mid.len(),
                channels@.len() == mid.len(),
                forall|j: int| 0 <= j < mid.len() && j != idx ==> (#[trigger] channels@[j])@ == mid[j],
                channels@[idx as int].id == mid[idx as int].id,
                channels@[idx as int].name@ == mid[idx as int].name,
                channels@[idx as int].short_name@ == mid[idx as int].short_name,
                channels@[idx as int].samples@ == mid[idx as int].samples + block.take(i as int),
            decreases n_samples - i,
        {
            let raw = u16_le(data, data_start + 2 * i);
            channels[idx].samples.push(Sample { ticks, raw });
            assert(block.take(i + 1) =~= block.take(i as int).push(Sample { ticks, raw }));
            i += 1;
        }
        proof {
            assert(block.take(i as int) =~= block);
            lemma_sample_tag_no_overlap(data@, pos as int);
            lemma_block_positions_no_block(data@, pos + 1, pos + 3);
            let ps = block_positions_upto(data@, pos + 1);
            assert(ps.drop_last() == block_positions_upto(data@, pos as int));
            assert(channels@.map_values(|c: Channel| c@) =~= add_block(before, ch_id, block));
            let now = channels@.map_values(|c: Channel| c@);
            assert forall|j: int| 0 <= j < now.len() implies now[j].id == mid[j].id by {}
            lemma_index_map_same_ids(id_to_idx@, mid, now);
        }
        pos += 3;
    }
    proof {
        lemma_block_positions_no_block(data@, pos as int, data@.len() as int);
    }
    let ghost dist = channels@.map_values(|c: Channel| c@);
    let mut out: Vec<Channel> = Vec::new();
    let mut j: usize = 0;
    while j < channels.len()
        invariant
            j <= channels@.len(),
            channels@.len() == dist.len(),
            forall|m: int| j <= m < dist.len() ==> (#[trigger] channels@[m])@ == dist[m],
            out@.len() == with_samples(dist.take(j as int)).len(),
            forall|i: int|
                0 <= i < out@.len() ==> is_sorted_version(
                    with_samples(dist.take(j as int))[i],
                    (#[trigger] out@[i])@,
                ),
        decreases channels.len() - j,
    {
        let ghost prev_kept = with_samples(dist.take(j as int));
        proof {
            lemma_with_samples_step(dist, j as int);
        }
        let mut c = Channel { id: 0, name: String::new(), short_name: String::new(), samples: Vec::new() };
        std::mem::swap(&mut c, &mut channels[j]);
        if c.samples.len() > 0 {
            let sorted = sort_by_ticks(c.samples.as_slice());
            c.samples = sorted;
            out.push(c);
            proof {
                let kept = with_samples(dist.take(j + 1));
                assert(kept == prev_kept.push(dist[j as int]));
                assert forall|i: int| 0 <= i < out@.len() implies is_sorted_version(
                    kept[i],
                    (#[trigger] out@[i])@,
                ) by {
                    if i < prev_kept.len() {
                        assert(kept[i] == prev_kept[i]);
                    }
                }
            }
        }
        j += 1;
    }
    assert(dist.take(j as int) =~= dist);
    out
}

// ─── Session ─────────────────────────────────────────────────────────────────

/// `<hTMD`: recording date.
pub open spec fn date_tag() -> Seq<u8> {
    seq![0x3cu8, 0x68u8, 0x54u8, 0x4du8, 0x44u8]
}

/// `<hTMT`: recording time.
pub open spec fn time_tag() -> Seq<u8> {
    seq![0x3cu8, 0x68u8, 0x54u8, 0x4du8, 0x54u8]
}

/// `<hTRK`: track name.
pub open spec fn track_tag() -> Seq<u8> {
    seq![0x3cu8, 0x68u8, 0x54u8, 0x52u8, 0x4bu8]
}

/// `<hVEH`: vehicle name.
pub open spec fn vehicle_tag() -> Seq<u8> {
    seq![0x3cu8, 0x68u8, 0x56u8, 0x45u8, 0x48u8]
}

/// `<hHWN`: logger name.
pub open spec fn logger_tag() -> Seq<u8> {
    seq![0x3cu8, 0x68u8, 0x48u8, 0x57u8, 0x4eu8]
}

/// Session metadata of `d`, with the given marker timestamps.
pub open spec fn is_session_info(d: Seq<u8>, info: SessionInfo, first_ts: u32, last_ts: u32) -> bool {
    &&& info.date@ == spec_extract_string(d, date_tag())
    &&& info.time@ == spec_extract_string(d, time_tag())
    &&& info.track@ == spec_extract_string(d, track_tag())
    &&& info.vehicle@ == spec_extract_string(d, vehicle_tag())
    &&& info.logger@ == spec_extract_string(d, logger_tag())
    &&& info.file_size == d.len()
    &&& info.first_ts == first_ts
    &&& info.last_ts == last_ts
}

/// Read the session metadata chunks.
pub fn parse_info(data: &[u8], first_ts: u32, last_ts: u32) -> (r: SessionInfo)
    ensures
        is_session_info(data@, r, first_ts, last_ts),
{
    let date_t = vec![0x3cu8, 0x68u8, 0x54u8, 0x4du8, 0x44u8];
    let time_t = vec![0x3cu8, 0x68u8, 0x54u8, 0x4du8, 0x54u8];
    let track_t = vec![0x3cu8, 0x68u8, 0x54u8, 0x52u8, 0x4bu8];
    let vehicle_t = vec![0x3cu8, 0x68u8, 0x56u8, 0x45u8, 0x48u8];
    let logger_t = vec![0x3cu8, 0x68u8, 0x48u8, 0x57u8, 0x4eu8];
    assert(date_t@ =~= date_tag());
    assert(time_t@ =~= time_tag());
    assert(track_t@ =~= track_tag());
    assert(vehicle_t@ =~= vehicle_tag());
    assert(logger_t@ =~= logger_tag());
    SessionInfo {
        date: extract_string(data, date_t.as_slice()),
        time: extract_string(data, time_t.as_slice()),
        track: extract_string(data, track_t.as_slice()),
        vehicle: extract_string(data, vehicle_t.as_slice()),
        logger: extract_string(data, logger_t.as_slice()),
        file_size: data.len(),
        first_ts,
        last_ts,
    }
}

/// The channels of a file whose first measurement marker has timestamp
/// `first_ts`: the defined channels and those created for undefined IDs, in
/// that order, each holding its samples in time order, those without samples
/// left out.
pub open spec fn is_channel_list(d: Seq<u8>, first_ts: u32, chans: Seq<Channel>) -> bool {
    let kept = with_samples(distribute(spec_channel_defs(d), d, block_positions(d), first_ts));
    &&& chans.len() == kept.len()
    &&& forall|i: int| 0 <= i < chans.len() ==> is_sorted_version(kept[i], (#[trigger] chans[i])@)
}

/// `f` is the session that the bytes `d` hold.
pub open spec fn is_parse_of(d: Seq<u8>, f: XrkFile) -> bool {
    &&& chs_positions(d).len() <= 65535
    &&& is_first_ts(d, f.info.first_ts)
    &&& is_last_ts(d, f.info.last_ts)
    &&& is_session_info(d, f.info, f.info.first_ts, f.info.last_ts)
    &&& is_lap_table(f.laps@, spec_lap_records(d, f.info.first_ts))
    &&& is_channel_list(d, f.info.first_ts, f.channels@)
}

/// Parse an XRK file held in memory.
pub fn parse(data: &[u8]) -> (r: Result<XrkFile, XrkError>)
    requires
        chs_positions(data@).len() <= 65535,
    ensures
        data@.len() < 64 ==> (r matches Err(XrkError::FileTooSmall(n)) && n == data@.len()),
        data@.len() >= 64 && !has_ts_marker(data@) ==> r matches Err(XrkError::NoDataMarkers),
        r is Ok <==> data@.len() >= 64 && has_ts_marker(data@),
        r matches Ok(f) ==> is_parse_of(data@, f),
{
    if data.len() < 64 {
        return Err(XrkError::FileTooSmall(data.len()));
    }
    let (first_ts, last_ts) = match first_last_timestamps(data) {
        Some(t) => t,
        None => {
            return Err(XrkError::NoDataMarkers);
        },
    };
    let info = parse_info(data, first_ts, last_ts);
    let defs = parse_channel_defs(data);
    let laps = parse_laps(data, first_ts);
    let channels = populate_samples(data, first_ts, defs);
    Ok(XrkFile { info, laps, channels })
}

} // verus!
