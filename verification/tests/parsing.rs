//! Tests of the byte-level readers, string extraction, lap and channel
//! tables, and the error cases of the parser, on small hand-made buffers.

use xrk::parser::{
    channel_def_count, extract_ascii_strings, extract_string, find, first_last_timestamps,
    lap_records, parse, parse_channel_defs, parse_laps, populate_samples, sort_by_ticks, tag_at,
    u16_le, u32_le,
};
use xrk::text::{ascii_to_string, push_padded_decimal};
use xrk::types::{raw_max, raw_min, Channel, Lap, Sample, XrkFile};
use xrk::XrkError;

fn le16(v: u16) -> Vec<u8> {
    v.to_le_bytes().to_vec()
}

fn le32(v: u32) -> Vec<u8> {
    v.to_le_bytes().to_vec()
}

fn lap_chunk(number: u16, time_ms: u32, start_ts: u32) -> Vec<u8> {
    let mut c = b"<hLAP".to_vec();
    c.resize(14, 0);
    c.extend(le16(number));
    c.extend(le32(time_ms));
    c.resize(28, 0);
    c.extend(le32(start_ts));
    c.resize(40, 0);
    c
}

fn m_block(ts: u32, ch: u16, values: &[u16]) -> Vec<u8> {
    let mut c = b")(M".to_vec();
    c.extend(le32(ts));
    c.extend(le16(ch));
    c.extend(le16(values.len() as u16));
    for v in values {
        c.extend(le16(*v));
    }
    c.extend_from_slice(&[0, 0]);
    c
}

fn chs_chunk(short: &str, long: &str) -> Vec<u8> {
    let mut c = b"<hCHS".to_vec();
    c.extend_from_slice(&[0, 0, 0]);
    c.extend_from_slice(short.as_bytes());
    c.push(0);
    c.extend_from_slice(long.as_bytes());
    c.resize(120, 0);
    c
}

fn lap(number: u16, time_ms: u32) -> Lap {
    Lap { number, time_ms, start_ticks: 0 }
}

fn session_with_laps(laps: Vec<Lap>) -> XrkFile {
    XrkFile { info: Default::default(), laps, channels: Vec::new() }
}

// ─── Integer readers and tags ────────────────────────────────────────────────

#[test]
fn test_u16_le_value() {
    assert_eq!(u16_le(&[0x00, 0x34, 0x12, 0xff], 1), 0x1234);
    assert_eq!(u16_le(&[0xff, 0xff], 0), 65535);
}

#[test]
fn test_u32_le_value() {
    assert_eq!(u32_le(&[0x78, 0x56, 0x34, 0x12], 0), 0x1234_5678);
    assert_eq!(u32_le(&[9, 0xff, 0xff, 0xff, 0xff], 1), u32::MAX);
}

#[test]
fn test_tag_at_and_find() {
    let d = b"xx<hLAPyy<hLAP";
    assert!(tag_at(d, 2, b"<hLAP"));
    assert!(!tag_at(d, 3, b"<hLAP"));
    assert!(!tag_at(d, 12, b"<hLAP"));
    assert_eq!(find(d, b"<hLAP"), Some(2));
    assert_eq!(find(d, b"<hCHS"), None);
    assert_eq!(find(b"ab", b"abc"), None);
}

// ─── String extraction ───────────────────────────────────────────────────────

#[test]
fn test_extract_ascii_strings_runs() {
    let d = b"\x01ab  cd \x02x\x03  efg \x04   \x05";
    let got = extract_ascii_strings(d, 2);
    assert_eq!(got, vec!["ab  cd".to_string(), "efg".to_string()]);
    let got1 = extract_ascii_strings(d, 1);
    assert_eq!(got1, vec!["ab  cd".to_string(), "x".to_string(), "efg".to_string()]);
    assert!(extract_ascii_strings(b"", 2).is_empty());
}

#[test]
fn test_extract_string_longest_last() {
    let mut d = b"<hTRK".to_vec();
    d.extend_from_slice(&[0, 0, 0]);
    d.extend_from_slice(b"abc\x00xyz\x00ab\x00");
    assert_eq!(extract_string(&d, b"<hTRK"), "xyz");
    assert_eq!(extract_string(&d, b"<hVEH"), "");
}

#[test]
fn test_extract_string_window_ends_at_80() {
    let mut d = b"<hTRK".to_vec();
    d.resize(70, 0);
    d.extend_from_slice(b"abcdefghijklmnop");
    assert_eq!(extract_string(&d, b"<hTRK"), "abcdefghij");
}

// ─── Timestamps ──────────────────────────────────────────────────────────────

#[test]
fn test_first_last_timestamps() {
    let mut d = vec![0u8; 4];
    d.extend(m_block(500, 1, &[1]));
    d.extend(m_block(100, 1, &[1]));
    d.extend(m_block(900, 2, &[1]));
    assert_eq!(first_last_timestamps(&d), Some((500, 900)));
    assert_eq!(first_last_timestamps(&[0u8; 40]), None);
    // A marker without room for its timestamp is not a marker.
    assert_eq!(first_last_timestamps(b")(M\x01\x02\x03"), None);
}

// ─── Laps ────────────────────────────────────────────────────────────────────

#[test]
fn test_lap_records_filter_invalid() {
    let mut d = Vec::new();
    d.extend(lap_chunk(0, 20_000, 10));
    d.extend(lap_chunk(501, 20_000, 10));
    d.extend(lap_chunk(3, 499, 10));
    d.extend(lap_chunk(3, 3_600_001, 10));
    d.extend(lap_chunk(3, 500, 110));
    d.extend(lap_chunk(500, 3_600_000, 5));
    let recs = lap_records(&d, 10);
    assert_eq!(
        recs,
        vec![
            Lap { number: 3, time_ms: 500, start_ticks: 100 },
            Lap { number: 500, time_ms: 3_600_000, start_ticks: u32::MAX - 4 },
        ]
    );
}

#[test]
fn test_parse_laps_sorted_first_record_wins() {
    let mut d = Vec::new();
    d.extend(lap_chunk(2, 20_000, 300));
    d.extend(lap_chunk(1, 30_000, 100));
    d.extend(lap_chunk(2, 25_000, 400));
    d.extend(lap_chunk(3, 22_000, 500));
    let laps = parse_laps(&d, 100);
    assert_eq!(
        laps,
        vec![
            Lap { number: 1, time_ms: 30_000, start_ticks: 0 },
            Lap { number: 2, time_ms: 20_000, start_ticks: 200 },
            Lap { number: 3, time_ms: 22_000, start_ticks: 400 },
        ]
    );
}

#[test]
fn test_time_str_values() {
    assert_eq!(lap(1, 18_696).time_str(), "0:18.696");
    assert_eq!(lap(1, 0).time_str(), "0:00.000");
    assert_eq!(lap(1, 500).time_str(), "0:00.500");
    assert_eq!(lap(1, 65_007).time_str(), "1:05.007");
    assert_eq!(lap(1, 3_600_000).time_str(), "60:00.000");
    assert_eq!(lap(1, u32::MAX).time_str(), "71582:47.295");
}

#[test]
fn test_best_lap_rules() {
    let s = session_with_laps(vec![lap(1, 4_000), lap(2, 20_000), lap(3, 19_000), lap(4, 19_000)]);
    assert_eq!(s.best_lap(5_000).map(|l| l.number), Some(3));
    assert_eq!(s.best_lap(0).map(|l| l.number), Some(1));
    assert_eq!(s.best_lap(30_000), None);
    assert_eq!(session_with_laps(Vec::new()).best_lap(0), None);
}

// ─── Channels ────────────────────────────────────────────────────────────────

#[test]
fn test_channel_defs_names_and_ids() {
    let mut d = Vec::new();
    d.extend(chs_chunk("Ch01", "LF_Shock"));
    d.extend(chs_chunk("RPM", ""));
    d.extend(chs_chunk("", ""));
    assert_eq!(channel_def_count(&d), 3);
    let defs = parse_channel_defs(&d);
    let got: Vec<(u16, &str, &str)> =
        defs.iter().map(|c| (c.id, c.short_name.as_str(), c.name.as_str())).collect();
    assert_eq!(got, vec![(0, "Ch01", "LF_Shock"), (1, "RPM", "RPM"), (2, "", "")]);
}

#[test]
fn test_populate_samples_distribution() {
    let mut d = Vec::new();
    d.extend(m_block(130, 0, &[5, 6]));
    d.extend(m_block(110, 0, &[7]));
    d.extend(m_block(120, 123, &[8]));
    d.extend(m_block(120, 5, &[9]));
    // Ignored blocks: no samples, more than 200 samples, past the end.
    d.extend(m_block(100, 0, &[]));
    d.extend(m_block(100, 0, &[1u16; 201]));
    let mut tail = m_block(100, 0, &[1, 2, 3]);
    tail.truncate(14);
    d.extend(tail);
    let defs = vec![
        Channel { id: 0, name: "A".to_string(), short_name: "a".to_string(), samples: Vec::new() },
        Channel { id: 1, name: "B".to_string(), short_name: "b".to_string(), samples: Vec::new() },
    ];
    let chans = populate_samples(&d, 100, defs);
    let got: Vec<(u16, &str, &str, Vec<(u32, u16)>)> = chans
        .iter()
        .map(|c| {
            (
                c.id,
                c.name.as_str(),
                c.short_name.as_str(),
                c.samples.iter().map(|s| (s.ticks, s.raw)).collect(),
            )
        })
        .collect();
    assert_eq!(
        got,
        vec![
            (0, "A", "a", vec![(10, 7), (30, 5), (30, 6)]),
            (123, "Channel_123", "Ch123", vec![(20, 8)]),
            (5, "Channel_5", "Ch05", vec![(20, 9)]),
        ]
    );
}

#[test]
fn test_sort_by_ticks_stable() {
    let v = vec![
        Sample { ticks: 5, raw: 1 },
        Sample { ticks: 1, raw: 2 },
        Sample { ticks: 5, raw: 3 },
        Sample { ticks: 0, raw: 4 },
    ];
    let sorted = sort_by_ticks(&v);
    let got: Vec<(u32, u16)> = sorted.iter().map(|s| (s.ticks, s.raw)).collect();
    assert_eq!(got, vec![(0, 4), (1, 2), (5, 1), (5, 3)]);
    assert!(sort_by_ticks(&[]).is_empty());
}

#[test]
fn test_raw_min_max() {
    let v = vec![Sample { ticks: 0, raw: 40 }, Sample { ticks: 1, raw: 7 }, Sample { ticks: 2, raw: 90 }];
    assert_eq!(raw_min(&v), Some(7));
    assert_eq!(raw_max(&v), Some(90));
    assert_eq!(raw_min(&[]), None);
    assert_eq!(raw_max(&[]), None);
}

// ─── Whole buffers ───────────────────────────────────────────────────────────

#[test]
fn test_parse_file_too_small() {
    match parse(&[0u8; 63]) {
        Err(XrkError::FileTooSmall(n)) => assert_eq!(n, 63),
        other => panic!("unexpected result {:?}", other.map(|_| ())),
    }
}

#[test]
fn test_parse_no_data_markers() {
    assert!(matches!(parse(&[0u8; 64]), Err(XrkError::NoDataMarkers)));
    assert!(matches!(XrkFile::from_bytes(&[0x29u8; 100]), Err(XrkError::NoDataMarkers)));
}

#[test]
fn test_parse_small_session() {
    let mut d = vec![0u8; 64];
    d.extend(chs_chunk("InlA", "InlineAcc"));
    d.extend(lap_chunk(1, 1_000, 2_000));
    d.extend(m_block(2_000, 0, &[11, 12]));
    d.extend(m_block(2_003, 7, &[13]));
    let f = parse(&d).expect("parse failed");
    assert_eq!(f.info.first_ts, 2_000);
    assert_eq!(f.info.last_ts, 2_003);
    assert_eq!(f.info.track, "");
    assert_eq!(f.laps, vec![Lap { number: 1, time_ms: 1_000, start_ticks: 0 }]);
    assert_eq!(f.channel_names(), vec!["InlineAcc", "Channel_7"]);
    assert_eq!(f.channel("InlineAcc").map(|c| c.id), Some(0));
    assert_eq!(f.channel_by_id(7).map(|c| c.samples.len()), Some(1));
    assert!(f.channel("Nope").is_none());
}

// ─── Properties of every parsed session, on one example ─────────────────────

#[test]
fn test_parsed_channel_ids_distinct_and_found() {
    let mut d = vec![0u8; 64];
    d.extend(chs_chunk("A", "Alpha"));
    d.extend(chs_chunk("B", "Beta"));
    d.extend(m_block(10, 1, &[1]));
    d.extend(m_block(11, 4, &[2]));
    d.extend(m_block(12, 0, &[3]));
    let f = parse(&d).unwrap();
    for (i, c) in f.channels.iter().enumerate() {
        for other in &f.channels[i + 1..] {
            assert_ne!(c.id, other.id);
        }
        assert!(!c.samples.is_empty());
        assert_eq!(f.channel_by_id(c.id).map(|x| x.name.clone()), Some(c.name.clone()));
        assert_eq!(f.channel(&c.name).map(|x| x.id), Some(c.id));
    }
}

#[test]
fn test_parsed_laps_strictly_increasing_and_valid() {
    let mut d = vec![0u8; 64];
    d.extend(lap_chunk(9, 600, 1));
    d.extend(lap_chunk(4, 700, 1));
    d.extend(lap_chunk(4, 800, 1));
    d.extend(lap_chunk(700, 800, 1));
    d.extend(m_block(1, 0, &[1]));
    let f = parse(&d).unwrap();
    let numbers: Vec<u16> = f.laps.iter().map(|l| l.number).collect();
    assert_eq!(numbers, vec![4, 9]);
    assert_eq!(f.laps[0].time_ms, 700);
    for l in &f.laps {
        assert!((1..=500).contains(&l.number));
        assert!((500..=3_600_000).contains(&l.time_ms));
    }
}

// ─── Text helpers ────────────────────────────────────────────────────────────

#[test]
fn test_padded_decimal_and_ascii_string() {
    let mut out = b"v=".to_vec();
    push_padded_decimal(&mut out, 7, 3);
    push_padded_decimal(&mut out, 12345, 2);
    assert_eq!(ascii_to_string(&out), "v=00712345");
    let mut zero = Vec::new();
    push_padded_decimal(&mut zero, 0, 0);
    assert_eq!(zero, b"0".to_vec());
}

#[test]
fn test_sample_count_conserved() {
    let mut d = vec![0u8; 64];
    d.extend(chs_chunk("A", "Alpha"));
    d.extend(chs_chunk("B", "Beta"));
    d.extend(m_block(10, 1, &[1, 2, 3]));
    d.extend(m_block(11, 4, &[2]));
    d.extend(m_block(12, 1, &[3, 4]));
    d.extend(m_block(13, 9, &[]));
    let f = parse(&d).unwrap();
    let total: usize = f.channels.iter().map(|c| c.samples.len()).sum();
    assert_eq!(total, 6);
    assert_eq!(f.channels.len(), 2);
}

#[test]
fn test_populate_samples_duplicate_ids_go_to_last() {
    let mut d = Vec::new();
    d.extend(m_block(5, 3, &[1, 2]));
    let defs = vec![
        Channel { id: 3, name: "X".to_string(), short_name: "x".to_string(), samples: Vec::new() },
        Channel { id: 3, name: "Y".to_string(), short_name: "y".to_string(), samples: Vec::new() },
    ];
    let chans = populate_samples(&d, 5, defs);
    assert_eq!(chans.len(), 1);
    assert_eq!(chans[0].name, "Y");
    assert_eq!(chans[0].samples.len(), 2);
}
