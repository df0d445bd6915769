use k6_analytics::fields::{
    distance_report, headsign_gap, lacks_recommended, route_label, route_url_is_agency_url, single_case_headsigns,
    stop_url_repeats, AgencyUrl, DistanceGap, DistanceReport, TripText,
};

fn trip_text(id: &str, headsign: Option<&str>) -> TripText {
    TripText { trip_id: id.to_string(), headsign: headsign.map(|h| h.to_string()) }
}

fn agency(id: Option<&str>, url: &str) -> AgencyUrl {
    AgencyUrl { agency_id: id.map(|s| s.to_string()), agency_url: url.to_string() }
}

#[test]
fn route_label_prefers_short_then_long_then_id() {
    assert_eq!(route_label(Some("5A"), Some("Merkez"), "R1"), "5A");
    assert_eq!(route_label(Some(""), Some("Merkez"), "R1"), "Merkez");
    assert_eq!(route_label(None, Some(""), "R1"), "R1");
    assert_eq!(route_label(None, None, "R1"), "R1");
}

#[test]
fn route_without_description_is_dq_003() {
    assert!(lacks_recommended("R1", None));
    assert!(lacks_recommended("R1", Some("   ")));
    assert!(!lacks_recommended("R1", Some("Sahil hattı")));
    assert!(!lacks_recommended("", None));
}

#[test]
fn headsign_gap_counts_missing_and_blank() {
    let trips = vec![
        trip_text("T1", Some("Merkez")),
        trip_text("T2", None),
        trip_text("T3", Some("  ")),
        trip_text("", None),
    ];
    assert_eq!(headsign_gap(&trips), Some((2, 3)));
    let full = vec![trip_text("T1", Some("Merkez")), trip_text("T2", Some("Liman"))];
    assert_eq!(headsign_gap(&full), None);
    assert_eq!(headsign_gap(&[]), None);
}

#[test]
fn route_url_same_as_only_agency_is_rts_020() {
    let agencies = vec![agency(None, "https://ajans.example")];
    assert!(route_url_is_agency_url("R1", Some("https://ajans.example"), None, &agencies));
    assert!(!route_url_is_agency_url("R1", Some("https://ajans.example/r1"), None, &agencies));
    assert!(!route_url_is_agency_url("R1", None, None, &agencies));
    assert!(!route_url_is_agency_url("", Some("https://ajans.example"), None, &agencies));
}

#[test]
fn route_url_compared_with_its_own_agency() {
    let agencies = vec![agency(Some("A1"), "https://a1.example"), agency(Some("A2"), "https://a2.example")];
    assert!(route_url_is_agency_url("R1", Some("https://a2.example"), Some("A2"), &agencies));
    assert!(!route_url_is_agency_url("R1", Some("https://a1.example"), Some("A2"), &agencies));
    // With two agencies there is no fallback for an unknown agency id.
    assert!(!route_url_is_agency_url("R1", Some("https://a1.example"), Some("A9"), &agencies));
    // The later of two agencies with one id wins.
    let dup = vec![agency(Some("A1"), "https://old.example"), agency(Some("A1"), "https://new.example")];
    assert!(route_url_is_agency_url("R1", Some("https://new.example"), Some("A1"), &dup));
    assert!(!route_url_is_agency_url("R1", Some("https://old.example"), Some("A1"), &dup));
}

#[test]
fn stop_url_repeating_agency_or_route_url() {
    let agency_urls = vec!["https://ajans.example".to_string(), String::new()];
    let route_urls = vec![None, Some("https://hat.example".to_string())];
    assert_eq!(stop_url_repeats(Some("https://ajans.example"), &agency_urls, &route_urls), (true, false));
    assert_eq!(stop_url_repeats(Some("https://hat.example"), &agency_urls, &route_urls), (false, true));
    assert_eq!(stop_url_repeats(Some("https://durak.example"), &agency_urls, &route_urls), (false, false));
    assert_eq!(stop_url_repeats(Some(""), &agency_urls, &route_urls), (false, false));
    assert_eq!(stop_url_repeats(None, &agency_urls, &route_urls), (false, false));
}

#[test]
fn trip_with_shape_but_no_dist_produces_stm_017() {
    let gaps = vec![DistanceGap { route_type: Some(3), shape: Some(0) }];
    match distance_report(&gaps, false, 1) {
        DistanceReport::PerTrip(v) => assert_eq!(v, vec![0]),
        other => panic!("per-trip notice expected, got {:?}", other),
    }
}

#[test]
fn stm_017_feed_wide_missing_aggregates_to_single_feed_notice() {
    let gaps = vec![DistanceGap { route_type: Some(3), shape: Some(0) }, DistanceGap { route_type: Some(3), shape: Some(0) }];
    match distance_report(&gaps, false, 1) {
        DistanceReport::Summary { trips, shapes } => {
            assert_eq!(trips, 2);
            assert_eq!(shapes, 1);
        }
        other => panic!("one feed-level notice expected, got {:?}", other),
    }
}

#[test]
fn trip_without_shape_no_stm_017() {
    match distance_report(&[], false, 0) {
        DistanceReport::PerTrip(v) => assert!(v.is_empty()),
        other => panic!("no notice expected, got {:?}", other),
    }
}

#[test]
fn stm_017_skips_rail_and_counts_distinct_shapes() {
    let gaps = vec![
        DistanceGap { route_type: Some(3), shape: Some(0) },
        DistanceGap { route_type: Some(2), shape: Some(1) },
        DistanceGap { route_type: Some(3), shape: Some(0) },
        DistanceGap { route_type: Some(700), shape: Some(2) },
        DistanceGap { route_type: None, shape: None },
    ];
    match distance_report(&gaps, false, 3) {
        DistanceReport::Summary { trips, shapes } => {
            assert_eq!(trips, 4);
            assert_eq!(shapes, 2);
        }
        other => panic!("summary expected, got {:?}", other),
    }
    match distance_report(&gaps, true, 3) {
        DistanceReport::PerTrip(v) => assert_eq!(v, vec![0, 2, 3, 4]),
        other => panic!("per-trip notices expected, got {:?}", other),
    }
}

#[test]
fn stop_headsigns_reported_once_per_text() {
    let names = vec!["MERKEZ".to_string(), "liman".to_string(), "Çarşı".to_string()];
    let rows = vec![0, 1, 0, 2, 1, 0];
    assert_eq!(single_case_headsigns(&names, &rows, true), vec![0]);
    assert_eq!(single_case_headsigns(&names, &rows, false), vec![1]);
    assert_eq!(single_case_headsigns(&names, &[], true), Vec::<usize>::new());
}
