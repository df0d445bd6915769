// Example cases for the rule functions. Each test writes out by hand the
// values a rule receives (stop, route and service indices, times in seconds,
// YYYYMMDD dates, records) for a small example, with the default thresholds:
// 24 h maximum and 60 s minimum trip duration, 240 min headway warning, 2 min
// bunching, service day starting at 03:00, 7 days of short service and of
// upcoming service, 14 days of big gap, 30 days of expiry warning.

use k6_analytics::calendar::{
    active_within, big_gaps, days_until_expiry, gap_is_near_future, is_short_service, no_upcoming_service, service_period,
    ServicePeriod,
};
use k6_analytics::grouping::{gap_pairs, group_by_key, pair_key};
use k6_analytics::headsign::{headsign_names_intermediate, TripStop};
use k6_analytics::headway::{bunching_gap, frequency_findings, sparse_service_gap};
use k6_analytics::network::{coverage, Coverage};
use k6_analytics::pathways::{station_findings, Platform};
use k6_analytics::quality::{
    feed_activity, feed_quality, is_generic_stop_name, is_zip_url, lacks_passenger_label, names_parent, FeedCounts,
    MissingFiles,
};
use k6_analytics::route_type::{feed_is_demand_responsive_only, single_shape_two_way, FlexStopTime};
use k6_analytics::schedule::{
    midnight_wrap_count, scattered_rows, duration_findings, first_late_departure, has_mixed_timing, max_same_time_run, same_stop_order, too_few_stops,
    SameStopOrder, StopTime,
};
use k6_analytics::similarity::{duplicate_routes, RouteProfile};
use k6_analytics::stops::{childless_stations, unnamed_agencies, unused_stops, StopRecord};
use k6_analytics::text::is_all_caps;
use k6_analytics::trips::{
    alone_in_block, block_route_types, group_sizes, groups_none_flagged, missing_directions, night_services,
    dateless_services, inactive_services, mixed_mode_blocks, repeated_stop, sole_values, trip_repeated_stop,
};

const MAX_TRIP_SECS: u32 = 24 * 3600;
const MIN_TRIP_SECS: u32 = 60;
const SERVICE_DAY_START_HOUR: u32 = 3;
const TODAY: u32 = 20260514;

fn timed(line: u32, arr: (u32, u32, u32), dep: (u32, u32, u32)) -> StopTime {
    StopTime { line, stop_sequence: Some(line - 1), arrival: Some(arr), departure: Some(dep), has_shape_dist: false }
}

fn untimed(line: u32) -> StopTime {
    StopTime { line, stop_sequence: Some(line - 1), arrival: None, departure: None, has_shape_dist: false }
}

fn counts(routes: u64, stops: u64, trips: u64, rows: u64, feed_info: u64) -> FeedCounts {
    FeedCounts {
        agencies: 0,
        routes,
        stops,
        trips,
        shapes: 0,
        feed_info_rows: feed_info,
        stop_time_rows: rows,
        routes_with_agency: 0,
        shapeless_trips: trips,
        stops_without_coordinates: 0,
        trips_without_stop_times: if rows == 0 { trips } else { 0 },
        stops_near_null_island: 0,
        demand_responsive_only: false,
    }
}

fn platform(id: usize, parent: Option<usize>) -> StopRecord {
    StopRecord { id: Some(id), location_type: Some(0), parent }
}

fn station(id: usize) -> StopRecord {
    StopRecord { id: Some(id), location_type: Some(1), parent: None }
}

fn named(sequence: u32, stop: usize, station: usize, name: &str) -> TripStop {
    TripStop { sequence: Some(sequence), stop, station, name: Some(name.to_string()) }
}

#[test]
fn source_url_without_zip_filename_emits_arc_028() {
    assert!(!is_zip_url("https://example.org/gtfs"));
    assert!(is_zip_url("https://example.org/feed.zip?rev=2"));
}

#[test]
fn opt_in_stop_name_profile_emits_stp_040_and_041() {
    assert!(is_generic_stop_name("Platform Stop"));
    assert!(!names_parent("Platform Stop", "Kadikoy"));
}

#[test]
fn three_consecutive_equal_times_produce_stm_053() {
    let trip = [timed(2, (8, 0, 0), (8, 0, 0)), timed(3, (8, 0, 0), (8, 0, 0)), timed(4, (8, 0, 0), (8, 0, 0))];
    assert!(max_same_time_run(&trip) >= 3);
}

#[test]
fn long_trip_produces_stm_028() {
    let trip = [timed(2, (8, 0, 0), (8, 0, 0)), timed(3, (38, 0, 0), (38, 0, 0))];
    assert!(duration_findings(&trip, MAX_TRIP_SECS, MIN_TRIP_SECS).too_long.is_some());
}

#[test]
fn normal_trip_no_stm_028() {
    let trip = [timed(2, (8, 0, 0), (8, 0, 0)), timed(3, (8, 30, 0), (8, 30, 0))];
    assert!(duration_findings(&trip, MAX_TRIP_SECS, MIN_TRIP_SECS).too_long.is_none());
}

#[test]
fn short_trip_produces_stm_029() {
    let trip = [timed(2, (8, 0, 0), (8, 0, 0)), timed(3, (8, 0, 30), (8, 0, 30))];
    assert!(duration_findings(&trip, MAX_TRIP_SECS, MIN_TRIP_SECS).too_short.is_some());
}

#[test]
fn long_headway_produces_frq_006() {
    assert!(frequency_findings(Some(14401), "T1", 240, 2).long_headway);
}

#[test]
fn short_headway_produces_frq_010() {
    assert!(frequency_findings(Some(60), "T1", 240, 2).bunching);
}

#[test]
fn normal_headway_no_frq_notices() {
    let f = frequency_findings(Some(600), "T1", 240, 2);
    assert!(!f.long_headway && !f.bunching);
}

#[test]
fn large_route_headway_produces_opr_001() {
    let deps = vec![8 * 3600, 8 * 3600 + 900, 8 * 3600 + 1800, 13 * 3600];
    assert!(sparse_service_gap(deps, 240, false).is_some());
}

#[test]
fn regular_sparse_headway_suppresses_opr_001() {
    let deps = vec![6 * 3600, 11 * 3600, 16 * 3600];
    assert!(sparse_service_gap(deps, 240, false).is_none());
}

#[test]
fn departure_before_arrival_produces_stm_007() {
    let b = timed(3, (9, 0, 0), (8, 0, 0));
    assert!(matches!(same_stop_order(&b, SERVICE_DAY_START_HOUR), SameStopOrder::DepartureBeforeArrival(_, _)));
}

#[test]
fn midnight_departure_suppresses_stm_007() {
    let b = timed(3, (23, 58, 0), (0, 0, 0));
    assert_eq!(same_stop_order(&b, SERVICE_DAY_START_HOUR), SameStopOrder::MidnightWrap);
    // The skipped row is counted once for the feed-level STM_049.
    let trip = vec![timed(2, (23, 50, 0), (23, 50, 0)), b];
    assert_eq!(midnight_wrap_count(&[trip], SERVICE_DAY_START_HOUR), 1);
}

#[test]
fn stm045_threshold_respects_service_day_start_hour() {
    let trip = [timed(2, (26, 30, 0), (26, 30, 0)), timed(3, (26, 40, 0), (26, 40, 0))];
    assert_eq!(first_late_departure(&trip, SERVICE_DAY_START_HOUR), None);
    assert_eq!(first_late_departure(&trip, 0), Some(0));
    let later = [timed(2, (28, 30, 0), (28, 30, 0)), timed(3, (28, 40, 0), (28, 40, 0))];
    assert_eq!(first_late_departure(&later, SERVICE_DAY_START_HOUR), Some(0));
}

#[test]
fn wheelchair_boarding_completeness_stp_037_038() {
    assert_eq!(coverage(2, 2), Coverage::AllMissing(2));
    assert_eq!(coverage(2, 1), Coverage::SomeMissing(1, 2));
    assert_eq!(coverage(2, 0), Coverage::Complete);
}

#[test]
fn small_route_headway_produces_opr_003() {
    assert!(bunching_gap(vec![8 * 3600, 8 * 3600 + 60], 2).is_some());
}

#[test]
fn dedup_same_time_suppresses_opr_003() {
    assert_eq!(bunching_gap(vec![28800; 5], 2), None);
}

#[test]
fn true_bunching_survives_dedup() {
    let mut deps = vec![28800; 5];
    deps.extend(vec![28860; 5]);
    assert_eq!(bunching_gap(deps, 2), Some(60));
}

#[test]
fn expired_service_produces_cal_013_not_cal_009() {
    assert_eq!(service_period(&[20251201, 20251215, 20251231], TODAY), ServicePeriod::Expired(20251231));
}

#[test]
fn calendar_dates_extended_service_no_cal_013() {
    assert_eq!(service_period(&[20251201, 20251231, 20260601], TODAY), ServicePeriod::Current);
}

#[test]
fn expiring_soon_produces_cal_008() {
    assert_eq!(days_until_expiry(20260524, TODAY, 30), Some(10));
}

#[test]
fn short_service_produces_cal_010() {
    assert!(is_short_service(&[20260511, 20260512, 20260513], 7));
}

#[test]
fn past_service_gap_produces_cal_007_not_cal_012() {
    let gaps = big_gaps(vec![20260101, 20260201], 14);
    assert_eq!(gaps, vec![(20260101, 20260201)]);
    assert!(!gap_is_near_future(20260101, 20260201, TODAY));
}

#[test]
fn near_future_service_gap_produces_cal_012_not_cal_007() {
    let gaps = big_gaps(vec![20260516, 20260601], 14);
    assert_eq!(gaps, vec![(20260516, 20260601)]);
    assert!(gap_is_near_future(20260516, 20260601, TODAY));
}

#[test]
fn gap_below_big_gap_threshold_no_cal_007() {
    assert!(big_gaps(vec![20260101, 20260112], 14).is_empty());
}

#[test]
fn spans_today_but_no_upcoming_produces_cal_021() {
    assert!(no_upcoming_service(&[20260510, 20260601], TODAY, 7, 1));
}

#[test]
fn cal_021_requires_trips() {
    assert!(!no_upcoming_service(&[20260510, 20260601], TODAY, 7, 0));
}

#[test]
fn cal_021_not_for_active_or_expired() {
    assert!(!no_upcoming_service(&[20260514, 20260515], TODAY, 7, 1));
    assert!(!no_upcoming_service(&[20251201, 20251231], TODAY, 7, 1));
}

#[test]
fn single_stop_trip_produces_opr_006() {
    assert!(too_few_stops(&[timed(2, (8, 0, 0), (8, 0, 0))]));
}

#[test]
fn repeated_stop_in_trip_produces_opr_007() {
    // Rows A(1), B(2), C(3), B(4), given out of file order.
    let rows = [(Some(2), Some(3)), (Some(0), Some(1)), (Some(1), Some(4)), (Some(1), Some(2))];
    assert_eq!(trip_repeated_stop(&rows), Some((1, 2)));
    assert_eq!(repeated_stop(&[0, 1, 2, 1]), Some((1, 2)));
}

#[test]
fn ring_route_terminal_repeat_no_opr_007() {
    // A(1), B(2), A(3)
    assert_eq!(trip_repeated_stop(&[(Some(0), Some(1)), (Some(1), Some(2)), (Some(0), Some(3))]), None);
}

#[test]
fn adjacent_repeated_stop_is_owned_by_stm_035_not_opr_007() {
    // A(1), A(2), B(3)
    assert_eq!(trip_repeated_stop(&[(Some(0), Some(1)), (Some(0), Some(2)), (Some(1), Some(3))]), None);
}

#[test]
fn mixed_timing_produces_stm_013() {
    let trip = [timed(2, (8, 0, 0), (8, 0, 0)), untimed(3), timed(4, (8, 20, 0), (8, 20, 0))];
    assert!(has_mixed_timing(&trip));
}

#[test]
fn trip_without_headsign_produces_trp_011() {
    assert!(lacks_passenger_label(None, None, false));
}

#[test]
fn single_trip_route_produces_trp_013() {
    assert_eq!(group_sizes(&[Some(0)], 1), vec![1]);
}

#[test]
fn route_without_active_service_produces_RTS_016() {
    assert_eq!(groups_none_flagged(&[(0, false)], 1), vec![true]);
}

#[test]
fn no_active_trips_produces_dq_005() {
    assert!(feed_activity(&vec![vec![20250101]], 1, TODAY).nothing_current);
}

#[test]
fn no_active_services_at_all_produces_opr_016() {
    assert!(feed_activity(&vec![], 1, TODAY).no_active_day);
}

#[test]
fn some_active_service_no_opr_016() {
    assert!(!feed_activity(&vec![vec![20261001]], 1, TODAY).no_active_day);
}

#[test]
fn trips_with_no_stop_times_produces_dq_009() {
    assert!(feed_quality(counts(1, 1, 1, 0, 0)).no_stop_times);
}

#[test]
fn no_trips_no_dq_009() {
    assert!(!feed_quality(counts(0, 0, 0, 0, 0)).no_stop_times);
}

#[test]
fn single_direction_route_produces_opr_013() {
    assert_eq!(sole_values(&[(Some(0), Some(0))], 1), vec![Some(0)]);
}

#[test]
fn trips_without_stoptimes_produces_dq_005b() {
    assert!(feed_quality(counts(1, 1, 1, 0, 0)).no_trip_has_stop_times);
}

#[test]
fn mostly_coord_missing_stops_produces_dq_005c() {
    let mut c = counts(0, 3, 0, 0, 0);
    c.stops_without_coordinates = 2;
    assert!(feed_quality(c).mostly_without_coordinates);
}

#[test]
fn route_without_shape_produces_RTS_017() {
    assert_eq!(groups_none_flagged(&[(0, false)], 1), vec![true]);
}

#[test]
fn route_with_shape_no_RTS_017() {
    assert_eq!(groups_none_flagged(&[(0, true)], 1), vec![false]);
}

#[test]
fn rts_017_one_notice_per_shapeless_route() {
    let flagged = groups_none_flagged(&[(0, false), (1, false), (2, true)], 3);
    assert_eq!(flagged, vec![true, true, false]);
}

#[test]
fn bidirectional_route_missing_direction_produces_trp_012() {
    let trips = [(0, Some(0), 2), (0, Some(1), 3), (0, None, 4)];
    assert_eq!(missing_directions(&trips, 1), vec![Some((1, 4))]);
}

#[test]
fn singleton_block_produces_trp_015() {
    assert_eq!(alone_in_block(&[Some(0)], 1), vec![true]);
}

#[test]
fn shared_block_no_trp_015() {
    assert_eq!(alone_in_block(&[Some(0), Some(0)], 1), vec![false, false]);
}

#[test]
fn bidirectional_route_single_shape_produces_opr_015() {
    assert!(single_shape_two_way(Some(3), 1, 2));
}

#[test]
fn unidirectional_route_single_shape_no_opr_015() {
    assert!(!single_shape_two_way(Some(3), 1, 1));
}

#[test]
fn headsign_matching_terminal_name_is_not_trp_020_even_if_name_repeats() {
    let trip = [named(1, 0, 0, "Başlangıç"), named(2, 1, 1, "Cimitero"), named(3, 2, 2, "Cimitero")];
    assert!(!headsign_names_intermediate(Some("Cimitero"), &trip));
}

#[test]
fn headsign_matches_intermediate_stop_produces_trp_020() {
    let trip = [named(1, 0, 0, "Stop A"), named(2, 1, 1, "Stop B")];
    assert!(headsign_names_intermediate(Some("Stop A"), &trip));
}

#[test]
fn headsign_matches_terminal_stop_no_trp_020() {
    let trip = [named(1, 0, 0, "Stop A"), named(2, 1, 1, "Stop B")];
    assert!(!headsign_names_intermediate(Some("Stop B"), &trip));
}

#[test]
fn headsign_no_stop_match_no_trp_020() {
    let trip = [named(1, 0, 0, "Stop A"), named(2, 1, 1, "Stop B")];
    assert!(!headsign_names_intermediate(Some("Tren Garı"), &trip));
}

#[test]
fn headsign_matches_repeated_turnaround_stop_no_trp_020() {
    let trip = [
        named(1, 0, 0, "Stop A"),
        named(2, 1, 1, "Stop B"),
        named(3, 2, 2, "Stop C"),
        named(4, 1, 1, "Stop B"),
        named(5, 3, 3, "Stop D"),
    ];
    assert!(!headsign_names_intermediate(Some("Stop B"), &trip));
}

#[test]
fn headsign_intermediate_with_unrelated_repeat_produces_trp_020() {
    let trip = [
        named(1, 0, 0, "Stop A"),
        named(2, 1, 1, "Stop B"),
        named(3, 2, 2, "Stop C"),
        named(4, 1, 1, "Stop B"),
        named(5, 3, 3, "Stop D"),
    ];
    assert!(headsign_names_intermediate(Some("Stop C"), &trip));
}

#[test]
fn headsign_intermediate_consecutive_duplicate_produces_trp_020() {
    let trip = [named(1, 0, 0, "Stop A"), named(2, 1, 1, "Stop B"), named(3, 1, 1, "Stop B"), named(4, 2, 2, "Stop C")];
    assert!(headsign_names_intermediate(Some("Stop B"), &trip));
}

#[test]
fn headsign_loop_via_parent_station_no_trp_020() {
    // A1 and A2 share the parent station P (index 3).
    let trip = [named(1, 0, 3, "İstasyon P"), named(2, 2, 2, "Stop B"), named(3, 1, 3, "İstasyon P")];
    assert!(!headsign_names_intermediate(Some("Stop B"), &trip));
}

#[test]
fn all_caps_stop_name_produces_dq_018() {
    assert!(is_all_caps("MERKEZ DURAK"));
}

#[test]
fn mixed_case_stop_name_no_dq_018() {
    assert!(!is_all_caps("Merkez Durak"));
}

#[test]
fn single_letter_stop_name_no_dq_018() {
    assert!(!is_all_caps("A"));
}

#[test]
fn similar_routes_produce_vat_001() {
    let routes = vec![
        RouteProfile { stops: vec![1, 2, 3, 4, 5, 6], route_type: Some(3), service_dates: vec![] },
        RouteProfile { stops: vec![1, 2, 3, 4, 5, 6], route_type: Some(3), service_dates: vec![] },
    ];
    assert!(duplicate_routes(&routes)[0][1]);
}

#[test]
fn very_different_routes_no_vat_001() {
    let routes = vec![
        RouteProfile { stops: vec![1, 2, 3], route_type: Some(3), service_dates: vec![] },
        RouteProfile { stops: vec![4, 5, 6], route_type: Some(3), service_dates: vec![] },
    ];
    let m = duplicate_routes(&routes);
    assert!(!m[0][1] && !m[1][0]);
}

#[test]
fn late_night_trips_are_summarized_once_per_route() {
    let trips = [(0, Some(23 * 3600)), (0, Some(24 * 3600))];
    assert_eq!(night_services(&trips, 1, SERVICE_DAY_START_HOUR), vec![Some((2, 82800, 86400))]);
}

#[test]
fn mixed_route_types_in_one_block_produce_trp_033() {
    let trips = [(Some(0), Some(3)), (Some(0), Some(0))];
    assert_eq!(block_route_types(&trips, 1), vec![vec![0, 3]]);
    assert_eq!(mixed_mode_blocks(&trips, 1), vec![Some("0, 3".to_string())]);
}

#[test]
fn consistent_block_produces_no_trp_033() {
    let trips = [(Some(0), Some(3)), (Some(0), Some(3))];
    assert_eq!(block_route_types(&trips, 1), vec![vec![3]]);
    assert_eq!(mixed_mode_blocks(&trips, 1), vec![None]);
}

#[test]
fn trp_033_reports_each_block_once_not_each_trip() {
    let trips: Vec<(Option<usize>, Option<u32>)> =
        (0..6).map(|i| (Some(0), Some(if i % 2 == 0 { 3 } else { 0 }))).collect();
    assert_eq!(mixed_mode_blocks(&trips, 1), vec![Some("0, 3".to_string())]);
}

#[test]
fn trips_without_block_id_are_ignored_by_trp_033() {
    let trips = [(None, Some(3)), (None, Some(0))];
    assert!(block_route_types(&trips, 0).is_empty());
}

#[test]
fn arc_020_reports_missing_shapes_on_fixed_stop_feed() {
    assert_eq!(feed_quality(counts(1, 2, 1, 2, 1)).missing_files, MissingFiles::Shapes);
}

#[test]
fn arc_020_skips_shapes_for_zone_based_drt() {
    let zone = FlexStopTime { has_location_id: true, has_location_group_id: false };
    let mut c = counts(1, 1, 1, 2, 1);
    c.demand_responsive_only = feed_is_demand_responsive_only(2, 0, &[zone, zone]);
    assert_eq!(feed_quality(c).missing_files, MissingFiles::Neither);
}

#[test]
fn arc_020_skips_shapes_for_fixed_stops_drt() {
    let group = FlexStopTime { has_location_id: false, has_location_group_id: true };
    let mut c = counts(1, 1, 1, 2, 1);
    c.demand_responsive_only = feed_is_demand_responsive_only(2, 0, &[group, group]);
    assert_eq!(feed_quality(c).missing_files, MissingFiles::Neither);
}

#[test]
fn arc_020_still_reports_missing_shapes_when_drt_is_partial() {
    let zone = FlexStopTime { has_location_id: true, has_location_group_id: false };
    let mut c = counts(1, 2, 2, 3, 1);
    c.demand_responsive_only = feed_is_demand_responsive_only(3, 2, &[zone]);
    assert_eq!(feed_quality(c).missing_files, MissingFiles::Shapes);
}

#[test]
fn pth_012_nested_platform_reachable_via_boarding_area_no_fp() {
    // Nodes: EN 0, BA 1; the platform PL is no node but has the child BA.
    let g = vec![vec![(1, 0)], vec![(0, 0)]];
    let platforms = vec![Platform { node: None, children: vec![1] }];
    let f = station_findings(&g, &[true], true, &[0], &platforms);
    assert!(f.unreachable_platforms.is_empty());
}

#[test]
fn pth_012_genuinely_unreachable_platform_fires() {
    // Nodes: EN 0, X 1, PL 2, Y 3; EN -> X and PL -> Y only.
    let g = vec![vec![(1, 0)], vec![], vec![(3, 1)], vec![]];
    let platforms = vec![Platform { node: Some(2), children: vec![] }];
    let f = station_findings(&g, &[true, true], true, &[0], &platforms);
    assert_eq!(f.unreachable_platforms, vec![0]);
}

#[test]
fn pth_013_nested_platform_accessible_via_boarding_area_no_fp() {
    let g = vec![vec![(1, 0)], vec![(0, 0)]];
    let platforms = vec![Platform { node: None, children: vec![1] }];
    let f = station_findings(&g, &[true], true, &[0], &platforms);
    assert!(!f.no_accessible_route);
}

#[test]
fn pth_013_inaccessible_station_fires() {
    // The only pathway is too steep for wheelchairs.
    let g = vec![vec![(1, 0)], vec![(0, 0)]];
    let platforms = vec![Platform { node: None, children: vec![1] }];
    let f = station_findings(&g, &[false], true, &[0], &platforms);
    assert!(f.no_accessible_route);
}

#[test]
fn unused_agency_id_produces_dq_010() {
    // AG1 (index 0) has an agency_id; the only route names no agency.
    assert_eq!(unnamed_agencies(&[Some(0)], &[None], 1), vec![true]);
}

#[test]
fn unused_stop_produces_stp_020() {
    // A (index 0) is used twice by T1; X (index 1) is never used.
    let stops = [platform(0, None), platform(1, None)];
    assert_eq!(unused_stops(&stops, &[0, 0], 2), vec![false, true]);
}

#[test]
fn parent_station_not_flagged_stp_020() {
    // PS1 (index 0, location_type 1) is never used by a trip, nor is it a
    // physical stop; A (index 1) is used.
    let stops = [station(0), platform(1, None)];
    assert_eq!(unused_stops(&stops, &[1, 1], 2), vec![false, false]);
}

#[test]
fn station_with_only_entrances_produces_stp_030() {
    // PS1 (index 0) has only an entrance E1 (index 1, location_type 2); A
    // (index 2) has no parent.
    let entrance = StopRecord { id: Some(1), location_type: Some(2), parent: Some(0) };
    let stops = [station(0), entrance, platform(2, None)];
    assert_eq!(childless_stations(&stops, 3), vec![true, false, false]);
}

#[test]
fn station_without_children_produces_stp_030() {
    let stops = [station(0), platform(1, None)];
    assert_eq!(childless_stations(&stops, 2), vec![true, false]);
}

#[test]
fn station_with_children_no_stp_030() {
    // S1 (index 1, location_type empty) names PS1 (index 0) as its parent_station.
    let child = StopRecord { id: Some(1), location_type: None, parent: Some(0) };
    let stops = [station(0), child];
    assert_eq!(childless_stations(&stops, 2), vec![false, false]);
}


#[test]
fn shared_calendar_gap_aggregates_across_services_to_one_notice() {
    // SVC_A (0) and SVC_B (1) share the gap 20260101 -> 20260201.
    let gaps = vec![big_gaps(vec![20260101, 20260201], 14), big_gaps(vec![20260101, 20260201], 14)];
    let groups = group_by_key(&gap_pairs(&gaps));
    assert_eq!(groups.len(), 1);
    assert_eq!(groups[0].key, pair_key(20260101, 20260201));
    assert_eq!(groups[0].members, vec![0, 1]);
}

#[test]
fn expired_variants_same_date_aggregate_to_one_cal_013() {
    // A.724 (0) and B.724 (1) both end on 20251231.
    let a = service_period(&[20251215, 20251231], TODAY);
    let b = service_period(&[20251201, 20251231], TODAY);
    assert_eq!(a, ServicePeriod::Expired(20251231));
    assert_eq!(b, ServicePeriod::Expired(20251231));
    let groups = group_by_key(&[(20251231, 0), (20251231, 1)]);
    assert_eq!(groups.len(), 1);
    assert_eq!(groups[0].key, 20251231);
    assert_eq!(groups[0].members, vec![0, 1]);
}

#[test]
fn cal_024_aggregates_inactive_service_to_single_service_notice() {
    let dates = [20260101, 20260201];
    let active = active_within(&dates, TODAY, 7);
    assert!(!active);
    // T1 (line 2) and T2 (line 3) both use SVC (index 0).
    assert_eq!(inactive_services(&[(0, active, 2), (0, active, 3)], 1), vec![Some((2, 2))]);
}

#[test]
fn service_with_no_active_dates_produces_opr_011() {
    assert_eq!(dateless_services(&[0], &[false]), vec![0]);
}

#[test]
fn service_with_active_dates_no_opr_011() {
    assert!(dateless_services(&[0], &[true]).is_empty());
}

#[test]
fn expired_service_in_bitmap_produces_cal_013() {
    assert_eq!(service_period(&[20251201, 20251231], TODAY), ServicePeriod::Expired(20251231));
}

#[test]
fn active_service_no_cal_013() {
    let period = service_period(&[20260601, 20260630], TODAY);
    assert!(!matches!(period, ServicePeriod::Expired(_)), "no CAL_013 for a service with future dates");
}

#[test]
fn interleaved_stop_times_rows_produce_stm_036() {
    // T1 on lines 2 and 4, T2 on lines 3 and 5.
    assert!(scattered_rows(&[2, 4]).is_some());
    assert!(scattered_rows(&[3, 5]).is_some());
}

#[test]
fn arc_020_still_reports_missing_feed_info_on_drt_feed() {
    let zone = FlexStopTime { has_location_id: true, has_location_group_id: false };
    let mut c = counts(1, 1, 1, 1, 0);
    c.demand_responsive_only = feed_is_demand_responsive_only(1, 0, &[zone]);
    assert!(c.demand_responsive_only);
    assert_eq!(feed_quality(c).missing_files, MissingFiles::FeedInfo);
}
