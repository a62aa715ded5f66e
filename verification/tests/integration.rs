//! Session-level tests on a synthetic XRK recording built in memory: nine
//! timed laps (lap 7 the fastest at 18.696 s, lap 1 at 32.295 s), four
//! defined channels and one channel that is only seen in measurement blocks.

use xrk::XrkFile;

fn le16(v: u16) -> Vec<u8> {
    v.to_le_bytes().to_vec()
}

fn le32(v: u32) -> Vec<u8> {
    v.to_le_bytes().to_vec()
}

/// A metadata chunk: tag, three header bytes, the text, zero padding.
fn info_chunk(tag: &[u8], text: &str) -> Vec<u8> {
    let mut c = tag.to_vec();
    c.extend_from_slice(&[0, 1, 2]);
    c.extend_from_slice(text.as_bytes());
    c.resize(96, 0);
    c
}

/// A channel definition chunk: tag, three header bytes, short and long name.
fn chs_chunk(short: &str, long: &str) -> Vec<u8> {
    let mut c = b"<hCHS".to_vec();
    c.extend_from_slice(&[0, 0, 0]);
    c.extend_from_slice(short.as_bytes());
    c.push(0);
    c.extend_from_slice(long.as_bytes());
    c.resize(120, 0);
    c
}

/// A lap record chunk.
fn lap_chunk(number: u16, time_ms: u32, start_ts: u32) -> Vec<u8> {
    let mut c = b"<hLAP".to_vec();
    c.resize(14, 0);
    c.extend(le16(number));
    c.extend(le32(time_ms));
    c.resize(28, 0);
    c.extend(le32(start_ts));
    c.resize(40, 0);
    c
}

/// A measurement block.
fn m_block(ts: u32, ch: u16, values: &[u16]) -> Vec<u8> {
    let mut c = b")(M".to_vec();
    c.extend(le32(ts));
    c.extend(le16(ch));
    c.extend(le16(values.len() as u16));
    for v in values {
        c.extend(le16(*v));
    }
    c.extend_from_slice(&[0, 0]);
    c
}

const LAP_TIMES: [u32; 9] = [32_295, 21_004, 19_877, 19_532, 19_210, 18_950, 18_696, 18_801, 24_113];

fn session_bytes() -> Vec<u8> {
    let mut d = vec![0u8; 16];
    d.extend(info_chunk(b"<hTMD", "01/19/2026"));
    d.extend(info_chunk(b"<hTMT", "13:56:02"));
    d.extend(info_chunk(b"<hTRK", "Mobile In"));
    d.extend(info_chunk(b"<hVEH", "Car 38"));
    d.extend(info_chunk(b"<hHWN", "Quattro"));
    d.extend(chs_chunk("Ch01", "LF_Shock"));
    d.extend(chs_chunk("Ch02", "RF_Shock"));
    d.extend(chs_chunk("InlA", "InlineAcc"));
    d.extend(chs_chunk("LatA", "LateralAcc"));
    let mut ts: u32 = 10_000;
    for (i, t) in LAP_TIMES.iter().enumerate() {
        d.extend(lap_chunk((i + 1) as u16, *t, ts));
        ts += t / 3;
    }
    for k in 0..50u32 {
        let t = 10_000 + k * 100;
        d.extend(m_block(t, 0, &[1000 + k as u16, 1010 + k as u16]));
        d.extend(m_block(t, 1, &[2000 + k as u16]));
        d.extend(m_block(t, 2, &[30_000, 30_001]));
        d.extend(m_block(t, 3, &[31_000]));
        d.extend(m_block(t, 9, &[7]));
    }
    d
}

fn load() -> Option<XrkFile> {
    Some(XrkFile::from_bytes(&session_bytes()).expect("parse failed"))
}

// ─── Lap timing ──────────────────────────────────────────────────────────────

#[test]
fn test_lap_count() {
    let Some(s) = load() else { return };
    assert_eq!(s.laps.len(), 9);
}

#[test]
fn test_lap_numbers_sequential() {
    let Some(s) = load() else { return };
    for (i, lap) in s.laps.iter().enumerate() {
        assert_eq!(lap.number, (i + 1) as u16);
    }
}

#[test]
fn test_best_lap_is_lap7() {
    let Some(s) = load() else { return };
    let best = s.best_lap(5_000).expect("no best lap");
    assert_eq!(best.number, 7);
    assert_eq!(best.time_ms, 18_696);
    assert_eq!(best.time_str(), "0:18.696");
}

#[test]
fn test_lap1_time() {
    let Some(s) = load() else { return };
    let lap1 = s.laps.iter().find(|l| l.number == 1).unwrap();
    assert_eq!(lap1.time_ms, 32_295);
}

// ─── Channel discovery ────────────────────────────────────────────────────────

#[test]
fn test_channels_present() {
    let Some(s) = load() else { return };
    assert!(!s.channels.is_empty(), "no channels decoded");
}

#[test]
fn test_channel_names_nonempty() {
    let Some(s) = load() else { return };
    for ch in &s.channels {
        assert!(!ch.name.is_empty(), "channel {} has empty name", ch.id);
    }
}

#[test]
fn test_channel_lookup_by_name() {
    let Some(s) = load() else { return };
    for ch in &s.channels {
        assert!(s.channel(&ch.name).is_some(), "channel '{}' not findable by name", ch.name);
    }
}

#[test]
fn test_channel_lookup_nonexistent() {
    let Some(s) = load() else { return };
    assert!(s.channel("this_channel_does_not_exist").is_none());
}

// ─── Sample data ─────────────────────────────────────────────────────────────

#[test]
fn test_samples_sorted_by_time() {
    let Some(s) = load() else { return };
    for ch in &s.channels {
        let times: Vec<u32> = ch.samples.iter().map(|s| s.ticks).collect();
        for w in times.windows(2) {
            assert!(w[0] <= w[1], "channel '{}' samples not in time order", ch.name);
        }
    }
}

#[test]
fn test_raw_values_in_adc_range() {
    let Some(s) = load() else { return };
    for ch in &s.channels {
        let has_nonzero = ch.samples.iter().any(|s| s.raw > 0);
        assert!(has_nonzero, "channel '{}' has all-zero samples", ch.name);
    }
}

// ─── Session info ─────────────────────────────────────────────────────────────

#[test]
fn test_track_name_present() {
    let Some(s) = load() else { return };
    assert!(!s.info.track.is_empty(), "track name is empty");
}

// ─── Whole-session contents ──────────────────────────────────────────────────

#[test]
fn test_session_metadata_values() {
    let s = load().unwrap();
    assert_eq!(s.info.date, "01/19/2026");
    assert_eq!(s.info.time, "13:56:02");
    assert_eq!(s.info.track, "Mobile In");
    assert_eq!(s.info.vehicle, "Car 38");
    assert_eq!(s.info.logger, "Quattro");
    assert_eq!(s.info.file_size, session_bytes().len());
    assert_eq!(s.info.first_ts, 10_000);
    assert_eq!(s.info.last_ts, 14_900);
}

#[test]
fn test_channel_ids_names_and_order() {
    let s = load().unwrap();
    let names: Vec<&str> = s.channel_names();
    assert_eq!(names, vec!["LF_Shock", "RF_Shock", "InlineAcc", "LateralAcc", "Channel_9"]);
    let ids: Vec<u16> = s.channels.iter().map(|c| c.id).collect();
    assert_eq!(ids, vec![0, 1, 2, 3, 9]);
    assert_eq!(s.channels[0].short_name, "Ch01");
    assert_eq!(s.channels[2].short_name, "InlA");
    assert_eq!(s.channels[4].short_name, "Ch09");
}

#[test]
fn test_channel_samples_counts_and_ticks() {
    let s = load().unwrap();
    let lf = s.channel("LF_Shock").unwrap();
    assert_eq!(lf.samples.len(), 100);
    assert_eq!(lf.samples[0].ticks, 0);
    assert_eq!(lf.samples[99].ticks, 4_900);
    assert_eq!(lf.min(), Some(1000));
    assert_eq!(lf.max(), Some(1059));
    let extra = s.channel_by_id(9).unwrap();
    assert_eq!(extra.name, "Channel_9");
    assert_eq!(extra.samples.len(), 50);
    assert!(s.channel_by_id(4).is_none());
}

#[test]
fn test_lap_start_ticks() {
    let s = load().unwrap();
    assert_eq!(s.laps[0].start_ticks, 0);
    assert_eq!(s.laps[1].start_ticks, 32_295 / 3);
}
