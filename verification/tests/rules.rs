use k6_analytics::calendar::{
    active_within, any_active_on, big_gaps, days_until_expiry, end_date_far_future, feed_calendar_findings,
    feed_validity_findings, gap_days, gap_is_near_future, has_weekend_date, is_short_service, is_weekend,
    missing_feed_contact, no_upcoming_service, outside_feed_window, override_day, pack_date, service_gap_finding,
    service_period, too_many_exceptions, ymd_to_jdn, yyyymmdd_to_jdn, OverrideDay, ServicePeriod,
};
use k6_analytics::clock::{format_hms, hms_to_secs};
use k6_analytics::headway::{
    average_headway, bunching_gap, duration_references, consecutive_gaps, distinct_sorted, frequency_findings, max_of, median_deviation, min_of,
    sparse_service_gap,
};
use k6_analytics::network::{
    coverage, dominant_route, exceeds, mostly_unknown, shape_overused, shared_coordinates, small_component,
    terminus_transfer_missing, time_band, transfer_hub_missing, untimed_trip, very_short_service, weekday_only,
    Coverage,
};
use k6_analytics::route_type::{
    feed_is_demand_responsive_only, is_rail_route_type, route_type_or_bus, single_shape_two_way, vehicle_class, FlexStopTime,
    VehicleClass,
};
use k6_analytics::schedule::{
    block_clashes, duration_findings, first_departure_missing, has_mixed_timing, intervals_overlap, last_arrival_missing,
    same_stop_order, segment_timing, too_few_stops, trip_time_range, SameStopOrder, SegmentTiming, StopTime,
};
use k6_analytics::text::{is_all_caps, is_all_lower, is_blank};

fn st(line: u32, arr: Option<(u32, u32, u32)>, dep: Option<(u32, u32, u32)>) -> StopTime {
    StopTime { line, stop_sequence: Some(line), arrival: arr, departure: dep, has_shape_dist: true }
}

#[test]
fn clock_conversions() {
    assert_eq!(hms_to_secs((1, 1, 1)), 3661);
    assert_eq!(hms_to_secs((25, 0, 0)), 90000);
    assert_eq!(format_hms(hms_to_secs((7, 5, 9))), "07:05:09");
    assert_eq!(format_hms(90061), "25:01:01");
}

#[test]
fn julian_day_numbers() {
    assert_eq!(yyyymmdd_to_jdn(20000101), 2451545);
    assert_eq!(ymd_to_jdn(2000, 1, 1), 2451545);
    assert_eq!(yyyymmdd_to_jdn(20240301) - yyyymmdd_to_jdn(20240229), 1);
    assert_eq!(yyyymmdd_to_jdn(20230301) - yyyymmdd_to_jdn(20230228), 1);
    assert_eq!(yyyymmdd_to_jdn(20250101) - yyyymmdd_to_jdn(20241231), 1);
    assert_eq!(yyyymmdd_to_jdn(0), 0);
    assert_eq!(yyyymmdd_to_jdn(20240100), 0);
    assert_eq!(pack_date((2024, 3, 5)), 20240305);
}

#[test]
fn calendar_gaps() {
    assert_eq!(gap_days(20240101, 20240105), 3);
    assert_eq!(gap_days(20240101, 20240102), 0);
    assert_eq!(gap_days(20240105, 20240101), 0);
    assert_eq!(big_gaps(vec![20240110, 20240101, 20240102], 5), vec![(20240102, 20240110)]);
    assert_eq!(big_gaps(vec![20240110, 20240101, 20240102], 8), vec![]);
    assert_eq!(
        service_gap_finding(vec![20240101, 20240102, 20240120, 20240110], 5),
        Some((9, 20240110, 20240120))
    );
    assert_eq!(service_gap_finding(vec![20240101, 20240102, 20240120, 20240110], 10), None);
    assert_eq!(service_gap_finding(vec![20240101], 0), None);
}

#[test]
fn calendar_service_rules() {
    assert!(is_short_service(&[20240101, 20240102], 3));
    assert!(!is_short_service(&[20240101, 20240102, 20240103, 20240104], 3));
    assert!(no_upcoming_service(&[20240101, 20240301], 20240115, 7, 1));
    assert!(!no_upcoming_service(&[20240101, 20240301], 20240115, 7, 0));
    assert!(!no_upcoming_service(&[20240101, 20240301], 0, 7, 1));
    assert!(!no_upcoming_service(&[20240101, 20240118, 20240301], 20240115, 7, 1));
    assert!(gap_is_near_future(20240110, 20240201, 20240115));
    assert!(!gap_is_near_future(20240301, 20240401, 20240101));
    assert!(end_date_far_future(2099, 20240101, 10));
    assert!(!end_date_far_future(2030, 20240101, 10));
    assert!(!end_date_far_future(2099, 0, 10));
    assert_eq!(days_until_expiry(20240110, 20240101, 30), Some(9));
    assert_eq!(days_until_expiry(20240301, 20240101, 30), None);
    assert_eq!(days_until_expiry(20240101, 20240101, 30), None);
    assert!(too_many_exceptions(6, 10));
    assert!(!too_many_exceptions(5, 10));
    assert!(!too_many_exceptions(1, 0));
    assert!(!outside_feed_window(&[20240101, 20241231], 20240101, 20241231));
    assert!(outside_feed_window(&[20240101, 20250101], 20240101, 20241231));
}

#[test]
fn service_period_classification() {
    assert_eq!(service_period(&[20240301, 20240201], 20240101), ServicePeriod::NotStarted(20240201));
    assert_eq!(service_period(&[20240301, 20240201], 20240401), ServicePeriod::Expired(20240301));
    assert_eq!(service_period(&[20240301, 20240201], 20240215), ServicePeriod::Current);
}

#[test]
fn weekend_days() {
    assert!(is_weekend(20000101));
    assert!(is_weekend(20240106));
    assert!(is_weekend(20240107));
    assert!(!is_weekend(20240108));
    assert!(has_weekend_date(&[20240108, 20240107]));
    assert!(!has_weekend_date(&[20240108, 20240109]));
}

#[test]
fn override_days_and_activity() {
    assert_eq!(override_day(true, true), OverrideDay::BothActive);
    assert_eq!(override_day(true, false), OverrideDay::OverrideMissing);
    assert_eq!(override_day(false, false), OverrideDay::NoService);
    assert_eq!(override_day(false, true), OverrideDay::AsIntended);
    assert!(any_active_on(&[vec![1, 2], vec![5]], 5));
    assert!(!any_active_on(&[vec![1, 2], vec![5]], 3));
    assert!(active_within(&[20240105], 20240101, 7));
    assert!(!active_within(&[20240105], 20240101, 4));
}

#[test]
fn feed_calendar_and_validity() {
    let f = feed_calendar_findings(&[vec![20240201], vec![20270101]], 20240101);
    assert_eq!(f.not_yet_active, Some(20240201));
    assert_eq!(f.far_future_end, Some(20270101));
    let g = feed_calendar_findings(&[vec![20240201], vec![20270101]], 0);
    assert_eq!(g.not_yet_active, None);
    assert_eq!(g.far_future_end, None);

    let v = feed_validity_findings(Some((2023, 1, 1)), Some((2023, 12, 31)), 20240101);
    assert!(v.expired && !v.not_started && !v.end_too_far);
    assert_eq!(v.expires_within_week, None);
    assert_eq!(v.window_too_short, None);
    assert_eq!(v.window_too_long, None);

    let w = feed_validity_findings(Some((2024, 1, 5)), Some((2024, 1, 8)), 20240101);
    assert!(!w.expired && w.not_started && !w.end_too_far);
    assert_eq!(w.expires_within_week, Some(7));
    assert_eq!(w.window_too_short, Some(3));

    let x = feed_validity_findings(Some((2020, 1, 1)), Some((2030, 1, 1)), 0);
    assert!(!x.expired && !x.not_started && !x.end_too_far);
    assert_eq!(x.window_too_long, Some(3653));

    let y = feed_validity_findings(None, Some((2027, 1, 1)), 20240101);
    assert!(y.end_too_far);

    assert!(missing_feed_contact(None, Some("  ")));
    assert!(!missing_feed_contact(Some("ops@example.org"), None));
}

#[test]
fn headway_gaps() {
    assert_eq!(sparse_service_gap(vec![3600, 36000, 0, 3600], 60, false), Some(32400));
    assert_eq!(sparse_service_gap(vec![3600, 36000, 0, 3600], 60, true), None);
    assert_eq!(sparse_service_gap(vec![0, 18000, 36000], 60, false), None);
    assert_eq!(bunching_gap(vec![100, 0, 600, 600], 2), Some(100));
    assert_eq!(bunching_gap(vec![0, 600], 2), None);
    assert_eq!(distinct_sorted(vec![3, 1, 3, 2]), vec![1, 2, 3]);
    assert_eq!(consecutive_gaps(&[1, 4, 9]), vec![3, 5]);
    assert_eq!(max_of(&[3, 9, 2]), 9);
    assert_eq!(min_of(&[3, 9, 2]), 2);
}

#[test]
fn frequency_rows() {
    let a = frequency_findings(Some(3700), "T1", 60, 2);
    assert!(a.long_headway && !a.bunching);
    let b = frequency_findings(Some(120), "T1", 60, 2);
    assert!(!b.long_headway && b.bunching);
    let c = frequency_findings(Some(5000), "", 60, 2);
    assert!(!c.long_headway && !c.bunching);
    let d = frequency_findings(None, "T1", 60, 2);
    assert!(!d.long_headway && !d.bunching);
}

#[test]
fn text_case_rules() {
    assert!(is_all_caps("ABC 12"));
    assert!(is_all_caps("AB"));
    assert!(!is_all_caps("A1"));
    assert!(!is_all_caps("ABc"));
    assert!(is_all_lower("abc"));
    assert!(!is_all_lower("ab"));
    assert!(!is_all_lower("abC"));
    assert!(is_all_lower("çok iyi"));
    assert!(is_blank(" \t "));
    assert!(is_blank(""));
    assert!(!is_blank(" a "));
}

#[test]
fn route_types() {
    assert!(is_rail_route_type(12));
    assert!(is_rail_route_type(117));
    assert!(!is_rail_route_type(118));
    assert!(!is_rail_route_type(3));
    assert_eq!(vehicle_class(1300), VehicleClass::CableCar);
    assert_eq!(vehicle_class(1200), VehicleClass::Ferry);
    assert_eq!(vehicle_class(4), VehicleClass::Ferry);
    assert_eq!(vehicle_class(7), VehicleClass::CableCar);
    assert_eq!(vehicle_class(11), VehicleClass::Bus);
    assert_eq!(vehicle_class(0), VehicleClass::Tram);
    assert!(single_shape_two_way(Some(3), 1, 2));
    assert!(!single_shape_two_way(Some(1), 1, 2));
    assert!(single_shape_two_way(None, 1, 2));
    assert!(!single_shape_two_way(Some(3), 2, 2));
    assert!(!single_shape_two_way(Some(3), 1, 1));
}

#[test]
fn demand_responsive_feeds() {
    let zone = FlexStopTime { has_location_id: true, has_location_group_id: false };
    let group = FlexStopTime { has_location_id: false, has_location_group_id: true };
    let plain = FlexStopTime { has_location_id: false, has_location_group_id: false };
    assert!(feed_is_demand_responsive_only(10, 0, &[zone]));
    assert!(feed_is_demand_responsive_only(10, 0, &[plain, group]));
    assert!(!feed_is_demand_responsive_only(10, 1, &[zone]));
    assert!(!feed_is_demand_responsive_only(0, 0, &[zone]));
    assert!(!feed_is_demand_responsive_only(10, 0, &[plain]));
}

#[test]
fn network_thresholds() {
    assert_eq!(coverage(10, 0), Coverage::Complete);
    assert_eq!(coverage(10, 10), Coverage::AllMissing(10));
    assert_eq!(coverage(10, 3), Coverage::SomeMissing(3, 10));
    assert_eq!(coverage(0, 0), Coverage::Complete);
    assert!(mostly_unknown(81, 100));
    assert!(!mostly_unknown(80, 100));
    assert!(untimed_trip(3, false));
    assert!(!untimed_trip(0, false));
    assert!(very_short_service(2, true));
    assert!(!very_short_service(3, true));
    assert!(!very_short_service(0, true));
    assert_eq!(time_band(5 * 3600), 0);
    assert_eq!(time_band(8 * 3600), 1);
    assert_eq!(time_band(12 * 3600), 2);
    assert_eq!(time_band(17 * 3600), 3);
    assert_eq!(time_band(22 * 3600), 4);
    assert_eq!(time_band(25 * 3600), 0);
    assert!(weekday_only(5, 0));
    assert!(!weekday_only(4, 0));
    assert!(dominant_route(40, 100));
    assert!(!dominant_route(39, 100));
    assert!(!dominant_route(40, 49));
    assert!(shape_overused(4, 10));
    assert!(!shape_overused(3, 10));
    assert!(transfer_hub_missing(4, false, false));
    assert!(!transfer_hub_missing(4, false, true));
    assert!(terminus_transfer_missing(3, false));
    assert!(!terminus_transfer_missing(3, true));
    assert!(shared_coordinates(4, 10));
    assert!(!shared_coordinates(3, 10));
    assert!(exceeds(201, 200));
    assert!(!exceeds(200, 200));
    assert!(small_component(2, 50, 10));
    assert!(!small_component(3, 50, 10));
    assert!(small_component(5, 50, 100));
}

#[test]
fn stop_time_rules() {
    let wrap = st(1, Some((23, 59, 0)), Some((0, 1, 0)));
    assert_eq!(same_stop_order(&wrap, 4), SameStopOrder::MidnightWrap);
    assert_eq!(same_stop_order(&wrap, 0), SameStopOrder::DepartureBeforeArrival(60, 86340));
    let ok = st(2, Some((10, 0, 0)), Some((10, 5, 0)));
    assert_eq!(same_stop_order(&ok, 4), SameStopOrder::Consistent);

    let a = st(1, None, Some((8, 0, 0)));
    let b = st(2, Some((8, 0, 0)), Some((8, 0, 30)));
    let c = st(3, Some((8, 0, 35)), None);
    let d = st(4, Some((7, 59, 0)), None);
    assert_eq!(segment_timing(&a, &b), SegmentTiming::ZeroOnWholeMinutes);
    assert_eq!(segment_timing(&b, &c), SegmentTiming::Forward(5));
    assert_eq!(segment_timing(&a, &d), SegmentTiming::Backward(28800, 28740));
    assert_eq!(segment_timing(&c, &d), SegmentTiming::Untimed);

    let trip = [a, b, c];
    let f = duration_findings(&trip, 20, 60);
    assert_eq!(f.too_long, Some(35));
    assert_eq!(f.too_short, Some(35));
    assert!(!first_departure_missing(&trip));
    assert!(!last_arrival_missing(&trip));
    assert!(last_arrival_missing(&[a]));
    assert!(first_departure_missing(&[]));
    assert!(too_few_stops(&[a]));
    assert!(!too_few_stops(&trip));
    assert_eq!(trip_time_range(&trip), Some((28800, 28835)));
    let untimed = st(5, None, None);
    assert!(has_mixed_timing(&[a, untimed, c]));
    assert!(!has_mixed_timing(&[a, b, c]));
    assert!(intervals_overlap((100, 200), (150, 300)));
    assert!(!intervals_overlap((100, 200), (200, 300)));
}

#[test]
fn block_trip_clashes() {
    let trips = [(28800, 32400, 0), (30000, 36000, 0), (31000, 33000, 1), (40000, 41000, 1)];
    let apart = vec![vec![20240101], vec![20240102]];
    let m = block_clashes(&trips, &apart);
    assert!(m[0][1] && !m[1][0]);
    assert!(!m[0][2] && !m[1][2] && !m[0][3] && !m[2][3]);
    let shared = vec![vec![20240101], vec![20240101, 20240102]];
    let s = block_clashes(&trips, &shared);
    assert!(s[0][1] && s[0][2] && s[1][2] && !s[2][3]);
}

#[test]
fn average_headway_counts_repeated_departures_once() {
    assert_eq!(average_headway(vec![8 * 3600, 9 * 3600 + 1800]), Some(5400));
    assert_eq!(average_headway(vec![28800, 29700, 29700, 30600, 31500]), Some(900));
    assert_eq!(average_headway(vec![28800, 28800]), None);
    assert_eq!(average_headway(vec![]), None);
    // (31500 - 28800) / 4 gaps, rounded down.
    assert_eq!(average_headway(vec![28800, 29000, 29900, 30000, 31501]), Some(675));
}

#[test]
fn median_deviation_of_route_type_headways() {
    // Five regular groups at 15 min and one sparse group at 90 min.
    assert_eq!(median_deviation(vec![900, 900, 5400, 900, 900, 900]), Some((900, 0)));
    assert_eq!(median_deviation(vec![600, 1200, 900, 300, 1500]), Some((900, 300)));
    assert_eq!(median_deviation(vec![900, 900, 900, 900]), None);
}

#[test]
fn vat_003_references_fall_back_to_pattern_median() {
    // Four 30-minute night trips and one 3-hour trip at 06:00.
    let durs = [(1800, 3600), (1800, 7200), (1800, 10800), (1800, 14400), (10800, 21600)];
    assert_eq!(duration_references(&durs), Some(vec![1800; 5]));
}

#[test]
fn vat_003_references_use_busy_time_bands() {
    // Five 40-minute peak trips (07:00) and five 20-minute midday trips (11:00).
    let mut durs = vec![(2400, 7 * 3600); 5];
    durs.extend(vec![(1200, 11 * 3600); 5]);
    let refs = duration_references(&durs).unwrap();
    assert_eq!(refs[..5], [2400; 5]);
    assert_eq!(refs[5..], [1200; 5]);
}

#[test]
fn vat_003_skips_small_or_short_patterns() {
    assert_eq!(duration_references(&[(1800, 3600); 4]), None);
    assert_eq!(duration_references(&[(100, 3600); 6]), None);
}

#[test]
fn unknown_route_type_counts_as_bus() {
    assert_eq!(route_type_or_bus(None), 3);
    assert_eq!(route_type_or_bus(Some(2)), 2);
}
