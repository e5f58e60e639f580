use satpass::bdeck::{BDeck, TrackSample};
use satpass::orbital::{Orbital, OrbitalError};
use satpass::pipeline::{correlated_events, refinement_requests, CorrelatedEvent, PassObservation};
use satpass::tle::{tle_epoch_to_timestamp, TLEManager};
use satpass::ParseError;

fn element_lines(epochs: &[&str]) -> Vec<Vec<u8>> {
    let mut lines = Vec::new();
    for e in epochs {
        let l1 = format!("1 25544U 98067A   {} .00000000  00000-0  00000-0 0  9990", e);
        let l2 = "2 25544  51.6400 000.0000 0001000 000.0000 000.0000 15.50000000000000".to_string();
        lines.push(l1.into_bytes());
        lines.push(l2.into_bytes());
    }
    lines
}

fn track_line(time: &str, lat: &str, lon: &str, wind: &str) -> Vec<u8> {
    format!("WP, 02, {},   , BEST,   0, {}, {}, {}, 1006, TD,", time, lat, lon, wind).into_bytes()
}

#[test]
fn test_tle_epoch_to_timestamp() {
    let timestamp = tle_epoch_to_timestamp("23045.5".as_bytes());
    assert_eq!(timestamp, Ok(1676376000));
}

#[test]
fn epoch_rounds_fraction_to_whole_seconds() {
    assert_eq!(tle_epoch_to_timestamp(b"70001.00115741"), Ok(100));
    assert_eq!(tle_epoch_to_timestamp(b"70001.00231481"), Ok(200));
    assert_eq!(tle_epoch_to_timestamp(b"70001"), Ok(0));
    assert_eq!(tle_epoch_to_timestamp(b"70002."), Ok(86400));
}

#[test]
fn epoch_year_pivot() {
    // 56 is 2056, 57 is 1957.
    assert_eq!(tle_epoch_to_timestamp(b"56001.0"), Ok(2713910400));
    assert_eq!(tle_epoch_to_timestamp(b"57001.0"), Ok(-410227200));
}

#[test]
fn epoch_leap_day() {
    assert_eq!(tle_epoch_to_timestamp(b"24366.0"), Ok(1735603200));
    assert_eq!(tle_epoch_to_timestamp(b"23366.0"), Err(ParseError));
}

#[test]
fn epoch_malformed_is_rejected() {
    assert_eq!(tle_epoch_to_timestamp(b"2x045.5"), Err(ParseError));
    assert_eq!(tle_epoch_to_timestamp(b"23"), Err(ParseError));
    assert_eq!(tle_epoch_to_timestamp(b"23.5"), Err(ParseError));
    assert_eq!(tle_epoch_to_timestamp(b"23045.5a"), Err(ParseError));
    assert_eq!(tle_epoch_to_timestamp(b"23000.5"), Err(ParseError));
}

#[test]
fn store_sorts_by_epoch() {
    let m = TLEManager::from_lines(&element_lines(&["70001.00347222", "70001.00115741", "70001.00231481"])).unwrap();
    let epochs: Vec<i64> = m.tles.iter().map(|t| t.epoch_timestamp).collect();
    assert_eq!(epochs, vec![100, 200, 300]);
    assert!(m.tles[0].line1.starts_with(b"1 25544U"));
}

#[test]
fn store_ignores_odd_tail_line() {
    let mut lines = element_lines(&["70001.00115741"]);
    lines.push(b"1 25544U 98067A   70001.00231481".to_vec());
    let m = TLEManager::from_lines(&lines).unwrap();
    assert_eq!(m.tles.len(), 1);
}

#[test]
fn store_rejects_record_without_epoch() {
    let mut lines = element_lines(&["70001.00115741"]);
    lines.push(b"1 short".to_vec());
    lines.push(b"2 short".to_vec());
    assert_eq!(TLEManager::from_lines(&lines).err(), Some(ParseError));
}

#[test]
fn store_rejects_malformed_epoch() {
    let lines = element_lines(&["70001.00115741", "7x001.00115741"]);
    assert!(TLEManager::from_lines(&lines).is_err());
}

#[test]
fn select_nearest_epoch() {
    let m = TLEManager::from_lines(&element_lines(&["70001.00115741", "70001.00231481", "70001.00347222"])).unwrap();
    assert_eq!(m.select_tle_index(240), Some(1));
    assert_eq!(m.select_tle_index(260), Some(2));
    assert_eq!(m.select_tle_index(50), Some(0));
    assert_eq!(m.select_tle_index(350), Some(2));
    assert_eq!(m.select_tle_index(200), Some(1));
    // Equally near: the earlier record.
    assert_eq!(m.select_tle_index(250), Some(1));
}

#[test]
fn select_on_empty_store() {
    let m = TLEManager::from_lines(&Vec::new()).unwrap();
    assert_eq!(m.select_tle_index(0), None);
}

fn sample_track() -> BDeck {
    let lines = vec![
        track_line("2023041900", " 75N", "1370E", " 15"),
        track_line("2023041903", " 80N", "1360E", " 20"),
        track_line("2023041906", " 85N", "1350E", " 25"),
        track_line("2023041906", " 99N", "1000E", " 99"),
        track_line("2023041912", " 95S", "1700W", "999"),
    ];
    BDeck::from_lines(&lines, 6).unwrap()
}

#[test]
fn track_cadence_duplicates_and_fields() {
    let b = sample_track();
    assert_eq!(b.time, vec![1681862400, 1681884000, 1681905600]);
    assert_eq!(b.latitude, vec![75, 85, -95]);
    assert_eq!(b.longitude, vec![1370, 1350, 1900]);
    assert_eq!(b.intensity, vec![15, 25, 0]);
}

#[test]
fn track_duplicate_time_keeps_first() {
    let lines = vec![
        track_line("2023041906", " 85N", "1350E", " 25"),
        track_line("2023041906", " 99N", "1000E", " 99"),
    ];
    let b = BDeck::from_lines(&lines, 6).unwrap();
    assert_eq!(b.time.len(), 1);
    assert_eq!(b.latitude, vec![85]);
    assert_eq!(b.intensity, vec![25]);
}

#[test]
fn track_rejects_malformed_records() {
    let bad_month = vec![track_line("2023131906", " 85N", "1350E", " 25")];
    assert_eq!(BDeck::from_lines(&bad_month, 6).err(), Some(ParseError));
    let bad_lat = vec![track_line("2023041906", " xxN", "1350E", " 25")];
    assert_eq!(BDeck::from_lines(&bad_lat, 6).err(), Some(ParseError));
    let short = vec![b"WP, 02, 20230419".to_vec()];
    assert_eq!(BDeck::from_lines(&short, 6).err(), Some(ParseError));
    let backwards = vec![
        track_line("2023041906", " 85N", "1350E", " 25"),
        track_line("2023041900", " 85N", "1350E", " 25"),
    ];
    assert_eq!(BDeck::from_lines(&backwards, 6).err(), Some(ParseError));
}

#[test]
fn track_short_record_reads_trailing_intensity() {
    // The last three bytes "45," do not read as an integer.
    let line = b"WP, 02, 2023041906,   , BEST,   0,  85N, 1350E, 45,".to_vec();
    assert_eq!(BDeck::from_lines(&vec![line], 6).err(), Some(ParseError));
    let line = b"WP, 02, 2023041906,   , BEST,   0,  85N, 1350E, 145".to_vec();
    let b = BDeck::from_lines(&vec![line], 6).unwrap();
    assert_eq!(b.intensity, vec![145]);
    let line = b"WP, 02, 2023041906,   , BEST,   0,  85N, 1350E,  45".to_vec();
    let b = BDeck::from_lines(&vec![line], 6).unwrap();
    assert_eq!(b.intensity, vec![45]);
}

#[test]
fn track_rejects_malformed_intensity() {
    let lines = vec![track_line("2023041906", " 85N", "1350E", " x5")];
    assert_eq!(BDeck::from_lines(&lines, 6).err(), Some(ParseError));
    // A record dropped by the cadence filter is not read.
    let lines = vec![track_line("2023041903", " 85N", "1350E", " x5")];
    assert_eq!(BDeck::from_lines(&lines, 6).unwrap().time.len(), 0);
}

const US: i64 = 1_000_000;

#[test]
fn interpolate_exact_at_fixes() {
    let b = sample_track();
    let mut k = 0usize;
    let s = b.interpolate_with_index(1681862400 * US, &mut k).unwrap();
    assert_eq!(s, TrackSample { latitude: 75, longitude: 1370, intensity: 15, scale: 1 });
    assert_eq!(k, 0);
    let s = b.interpolate_with_index(1681884000 * US, &mut k).unwrap();
    assert_eq!(s, TrackSample { latitude: 85, longitude: 1350, intensity: 25, scale: 1 });
    assert_eq!(k, 1);
}

#[test]
fn interpolate_between_fixes() {
    let b = sample_track();
    let mut k = 0usize;
    // A quarter of the way from the first fix to the second.
    let q = 1681862400 * US + 5400 * US;
    let s = b.interpolate_with_index(q, &mut k).unwrap();
    let den = 21600 * US as i128;
    assert_eq!(s.scale, den);
    assert_eq!(s.latitude * 4, 75 * 4 * den + 10 * den);
    assert_eq!(s.longitude * 4, 1370 * 4 * den - 20 * den);
    assert_eq!(s.intensity * 4, 15 * 4 * den + 10 * den);
    assert!(75 * s.scale < s.latitude && s.latitude < 85 * s.scale);
    assert_eq!(k, 0);
}

#[test]
fn interpolate_behind_the_hint_searches_back() {
    let b = sample_track();
    let mut k = 2usize;
    let q = 1681862400 * US + 10800 * US;
    let s = b.interpolate_with_index(q, &mut k).unwrap();
    assert_eq!(k, 0);
    assert_eq!(s.latitude * 2, 160 * s.scale);
    let mut k = 99usize;
    let s = b.interpolate_with_index(1681884000 * US, &mut k).unwrap();
    assert_eq!(k, 1);
    assert_eq!(s.scale, 1);
}

#[test]
fn interpolate_outside_span_is_none() {
    let b = sample_track();
    let mut k = 1usize;
    assert_eq!(b.interpolate_with_index(1681862400 * US - 1, &mut k), None);
    assert_eq!(b.interpolate_with_index(1681905600 * US + 1, &mut k), None);
    assert_eq!(k, 1);
    let empty = BDeck::from_lines(&Vec::new(), 6).unwrap();
    assert_eq!(empty.interpolate_with_index(0, &mut k), None);
}

#[test]
fn orbital_from_element_record() {
    let lines = vec![
        b"1 25544U 98067A   08264.51782528 -.00002182  00000-0 -11606-4 0  2927".to_vec(),
        b"2 25544  51.6416 247.4627 0006703 130.5360 325.0288 15.72125391563537".to_vec(),
    ];
    let m = TLEManager::from_lines(&lines).unwrap();
    assert!(Orbital::new(&m.tles[0]).is_ok());
    let short = TLEManager::from_lines(&element_lines(&["70001.00115741"])).unwrap();
    let mut t = short.tles;
    t[0].line2.truncate(60);
    assert_eq!(Orbital::new(&t[0]).err(), Some(OrbitalError::MalformedElements));
    // A checksum byte below '0' is refused before the parser reads it.
    let mut bad = TLEManager::from_lines(&lines).unwrap().tles;
    bad[0].line1[68] = b' ';
    assert_eq!(Orbital::new(&bad[0]).err(), Some(OrbitalError::MalformedElements));
    // A wrong checksum digit is refused by the parser.
    let mut bad = TLEManager::from_lines(&lines).unwrap().tles;
    bad[0].line2[68] = b'0';
    assert_eq!(Orbital::new(&bad[0]).err(), Some(OrbitalError::MalformedElements));
}

#[test]
fn store_keeps_order_of_equal_epochs() {
    let mut lines = element_lines(&["70001.00231481", "70001.00115741", "70001.00231481"]);
    lines[1] = b"2 first".to_vec();
    lines[5] = b"2 second".to_vec();
    let m = TLEManager::from_lines(&lines).unwrap();
    assert_eq!(m.tles[1].line2, b"2 first".to_vec());
    assert_eq!(m.tles[2].line2, b"2 second".to_vec());
    assert_eq!(m.tles[0].epoch_timestamp, 100);
}

#[test]
fn refinement_requests_keep_strong_candidates_in_range() {
    let b = sample_track();
    let t0 = 1681862400 * US;
    let quarter = t0 + 5400 * US;
    let candidates = vec![t0 - 1, quarter, 1681884000 * US, 1681905600 * US, 1681905600 * US + 1];
    let r = refinement_requests(&b, 1, &candidates, 16);
    // Before the track; 17.5 kt at the quarter point; 25 kt at the second
    // fix; 0 kt at the last; past the track.
    assert_eq!(r.len(), 2);
    assert_eq!(r[0].0, quarter);
    assert_eq!(r[0].1.intensity * 2, 35 * r[0].1.scale);
    assert_eq!(r[1], (1681884000 * US, TrackSample { latitude: 85, longitude: 1350, intensity: 25, scale: 1 }));
    // The cursor it starts from changes nothing.
    assert_eq!(refinement_requests(&b, 0, &candidates, 16), r);
    assert_eq!(refinement_requests(&b, 2, &candidates, 16), r);
    // Splitting the candidates and joining gives the same.
    let mut joined = refinement_requests(&b, 1, &candidates[..2].to_vec(), 16);
    joined.extend(refinement_requests(&b, 1, &candidates[2..].to_vec(), 16));
    assert_eq!(joined, r);
}

#[test]
fn correlated_events_filter_by_distance() {
    let sample = TrackSample { latitude: 85, longitude: 1350, intensity: 120, scale: 1 };
    let refined = vec![
        PassObservation { cpa_us: 10, distance_m: 900_000, elevation_udeg: 40_000_000 },
        PassObservation { cpa_us: 20, distance_m: 1_165_001, elevation_udeg: 10_000_000 },
        PassObservation { cpa_us: 30, distance_m: 1_165_000, elevation_udeg: -1 },
    ];
    let events = correlated_events(&refined, &sample, 1_165_000);
    assert_eq!(
        events,
        vec![
            CorrelatedEvent { cpa_us: 10, distance_m: 900_000, zenith_udeg: 50_000_000, intensity: sample },
            CorrelatedEvent { cpa_us: 30, distance_m: 1_165_000, zenith_udeg: 90_000_001, intensity: sample },
        ]
    );
    assert!(correlated_events(&Vec::new(), &sample, 0).is_empty());
}
