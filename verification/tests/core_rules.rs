use k6_analytics::clock::format_hms;
use k6_analytics::headway::is_regular_headway;
use k6_analytics::route_type::{max_speed_kmh, SpeedLimits};
use k6_analytics::text::contains_as_word;

fn limits() -> SpeedLimits<f64> {
    SpeedLimits { tram: 80.0, metro: 100.0, rail: 300.0, bus: 120.0, ferry: 60.0, cablecar: 40.0 }
}

#[test]
fn max_speed_kmh_maps_extended_route_types() {
    let cfg = limits();
    assert_eq!(max_speed_kmh(100, &cfg), cfg.rail, "100 (railway ext) = rail");
    assert_eq!(max_speed_kmh(109, &cfg), cfg.rail, "109 (S-Bahn) = rail");
    assert_eq!(max_speed_kmh(106, &cfg), cfg.rail, "106 (regional rail) = rail");
    assert_eq!(max_speed_kmh(400, &cfg), cfg.metro, "400 (U-Bahn ext) = metro");
    assert_eq!(max_speed_kmh(900, &cfg), cfg.tram, "900 (tram ext) = tram");
    assert_eq!(max_speed_kmh(700, &cfg), cfg.bus, "700 (bus ext) = bus");
    assert_eq!(max_speed_kmh(2, &cfg), cfg.rail, "standard 2 is still rail");
    assert_eq!(max_speed_kmh(3, &cfg), cfg.bus, "standard 3 is still bus");
    assert_ne!(max_speed_kmh(100, &cfg), cfg.bus, "extended rail must not get the bus limit");
}

#[test]
fn contains_as_word_handles_multibyte_utf8() {
    assert!(!contains_as_word("市バス１号系統", "bus"));
    assert!(!contains_as_word("六本木ヒルズ前", "ab"));
    assert!(!contains_as_word("東京", ""));
    assert!(contains_as_word("Route 5 Express", "5"));
    assert!(!contains_as_word("Route 51", "5"));
    assert!(contains_as_word("市バス bus 系統", "bus"));
}

#[test]
fn format_hms_correct() {
    assert_eq!(format_hms(3661), "01:01:01");
    assert_eq!(format_hms(86400), "24:00:00");
    assert_eq!(format_hms(0), "00:00:00");
}

#[test]
fn is_regular_headway_distinguishes_rural_from_gap() {
    assert!(is_regular_headway(&[18000, 18000, 18000]), "5h equal gaps = regular");
    assert!(is_regular_headway(&[36000]), "single gap (two trips) = intended");
    assert!(is_regular_headway(&[]), "empty = intended");
    assert!(!is_regular_headway(&[900, 900, 900, 14400]), "15min x3 + 4h gap = irregular");
    assert!(!is_regular_headway(&[600, 600, 7200]), "10min x2 + 2h = irregular");
}
