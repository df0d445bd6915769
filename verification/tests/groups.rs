use k6_analytics::pathways::{reachable_from, station_findings, Platform};
use k6_analytics::quality::{
    feed_activity, feed_quality, is_generic_stop_name, is_zip_url, lacks_passenger_label, long_name_repeats_short,
    names_parent, FeedCounts, MissingFiles,
};
use k6_analytics::calendar::override_window;
use k6_analytics::schedule::{midnight_wrap_count, StopTime};
use k6_analytics::report::{build_override_details, override_findings, join_numbers, summarize_patterns, text_equal, text_less};
use k6_analytics::trips::{
    alone_in_block, block_route_types, block_type_conflicts, dateless_services, dominant_name, group_sizes,
    groups_carrying_both, groups_none_flagged, inactive_services, long_transfers, missing_directions,
    night_services, occurring, repeated_ids, repeated_stop, trip_repeated_stop, shape_patterns, sole_values, TripPattern,
};
use k6_analytics::conflicts::{conflict_days, conflict_summary, service_pattern};
use k6_analytics::headsign::{headsign_names_intermediate, overlapping_windows, stable_order, trimmed, TripStop};
use k6_analytics::similarity::{duplicate_routes, RouteProfile};
use k6_analytics::grouping::{group_by_key, pair_key};
use k6_analytics::feed::{analyze, Feed, OverrideRule};
use k6_analytics::stops::{childless_stations, unnamed_agencies, unused_stops, StopRecord};
use k6_analytics::findings::{record_findings, route_field_findings, Finding, RouteText, Rule};
use k6_analytics::analysis::{finding_notices, number_notices};

#[test]
fn pattern_summary() {
    let p = vec!["A+B".to_string(), "A+C".to_string(), "A+B".to_string()];
    assert_eq!(summarize_patterns(&p), "A+B: 2 gün; A+C: 1 gün");
    assert_eq!(summarize_patterns(&[]), "");
    let q = vec!["a".to_string(), "B".to_string()];
    assert_eq!(summarize_patterns(&q), "B: 1 gün; a: 1 gün");
}

#[test]
fn override_details() {
    let d = build_override_details(12, &[20240101, 20240102], "S1,S2", "H1");
    assert_eq!(d.conflict_day_count, "12");
    assert_eq!(d.sample_dates, "20240101,20240102");
    assert_eq!(d.base_services, "S1,S2");
    assert_eq!(d.override_services, "H1");
    let e = d.entries();
    assert_eq!(e[0], ("conflict_day_count".to_string(), "12".to_string()));
    assert_eq!(e[3], ("override_services".to_string(), "H1".to_string()));
    let many: Vec<u32> = (1..=12).collect();
    let m = build_override_details(0, &many, "", "");
    assert_eq!(m.conflict_day_count, "0");
    assert_eq!(m.sample_dates, "1,2,3,4,5,6,7,8,9,10");
    assert_eq!(join_numbers(&[1, 22, 333], 2, ";"), "1;22");
    assert!(text_less("a", "b"));
    assert!(!text_less("b", "b"));
    assert!(text_equal("x", "x"));
}

#[test]
fn pathway_reachability() {
    // 0 -> 1 over pathway 0 (accessible), 1 -> 2 over pathway 1 (stairs), 3 isolated.
    let g = vec![vec![(1, 0)], vec![(2, 1)], vec![], vec![]];
    let ok = [true, false];
    assert_eq!(reachable_from(&g, &[0], &ok, false), vec![true, true, true, false]);
    assert_eq!(reachable_from(&g, &[0], &ok, true), vec![true, true, false, false]);
    let platforms = vec![
        Platform { node: Some(2), children: vec![] },
        Platform { node: Some(3), children: vec![] },
        Platform { node: None, children: vec![1] },
    ];
    let f = station_findings(&g, &ok, true, &[0], &platforms);
    assert_eq!(f.unreachable_platforms, vec![1]);
    assert!(!f.no_accessible_route);
    let h = station_findings(&g, &ok, false, &[], &platforms);
    assert_eq!(h.unreachable_platforms, vec![0, 1]);
    assert!(!h.no_accessible_route);
    let only_stairs = vec![Platform { node: Some(2), children: vec![] }];
    let s = station_findings(&g, &ok, true, &[0], &only_stairs);
    assert!(s.unreachable_platforms.is_empty());
    assert!(s.no_accessible_route);
}

#[test]
fn blocks_of_trips() {
    assert_eq!(group_sizes(&[Some(0), Some(1), Some(0), None], 3), vec![2, 1, 0]);
    assert_eq!(alone_in_block(&[Some(0), Some(1), Some(0), None], 2), vec![false, true, false, false]);
    let trips = [
        (Some(0), Some(3)),
        (Some(0), Some(3)),
        (Some(0), Some(0)),
        (Some(1), Some(2)),
        (None, Some(1)),
        (Some(0), None),
    ];
    assert_eq!(block_type_conflicts(&trips, 2), vec![None, None, Some(3), None, None, None]);
    assert_eq!(block_route_types(&trips, 2), vec![vec![0, 3], vec![2]]);
}

#[test]
fn route_directions() {
    let members = [(Some(0), Some(1)), (Some(0), Some(1)), (Some(1), Some(0)), (Some(1), Some(1)), (None, Some(0))];
    assert_eq!(sole_values(&members, 3), vec![Some(1), None, None]);
    let trips = [(0, Some(0), 10), (0, Some(1), 11), (0, None, 15), (0, None, 12), (1, None, 20), (1, Some(0), 21)];
    assert_eq!(missing_directions(&trips, 2), vec![Some((2, 12)), None]);
}

#[test]
fn route_flags() {
    assert_eq!(groups_none_flagged(&[(0, false), (0, false), (1, true), (1, false)], 3), vec![true, false, false]);
    let wc = [(Some(0), Some(1)), (Some(0), Some(2)), (Some(1), Some(1)), (Some(1), Some(0)), (None, Some(2))];
    assert_eq!(groups_carrying_both(&wc, 2, 1, 2), vec![true, false]);
}

#[test]
fn duplicate_ids() {
    let ids = [Some(3), Some(1), Some(3), None, Some(1), Some(3), None];
    assert_eq!(repeated_ids(&ids, 4), vec![3, 1]);
    assert_eq!(repeated_ids(&[None, None], 1), Vec::<usize>::new());
}

#[test]
fn night_service_and_transfers() {
    let trips = [(0, Some(83000)), (0, Some(84000)), (0, Some(3600)), (1, Some(36000)), (1, None)];
    assert_eq!(night_services(&trips, 2, 4), vec![Some((3, 3600, 84000)), None]);
    assert_eq!(night_services(&trips, 2, 0), vec![Some((2, 83000, 84000)), None]);
    let transfers = [(Some(2), Some(700)), (Some(2), Some(600)), (Some(1), Some(5000)), (Some(2), None)];
    assert_eq!(long_transfers(&transfers), Some((650, 2)));
    assert_eq!(long_transfers(&[(Some(2), Some(600))]), None);
    assert_eq!(long_transfers(&[]), None);
}

#[test]
fn placeholder_stop_names() {
    let names = [Some(0), Some(0), Some(0), Some(0), Some(0), Some(1), None];
    assert_eq!(dominant_name(&names, 2), Some((0, 5)));
    let even = [Some(0), Some(0), Some(0), Some(0), Some(1)];
    assert_eq!(dominant_name(&even, 2), None);
    let few = [Some(0), Some(0), Some(0), Some(0)];
    assert_eq!(dominant_name(&few, 1), None);
}

#[test]
fn repeated_stops() {
    assert_eq!(repeated_stop(&[0, 1, 2, 1, 3]), Some((1, 2)));
    assert_eq!(repeated_stop(&[0, 1, 1, 2]), None);
    assert_eq!(repeated_stop(&[0, 1, 2, 0]), None);
    assert_eq!(repeated_stop(&[0, 1, 0, 2, 0]), None);
    assert_eq!(repeated_stop(&[5, 1, 5, 2]), Some((5, 2)));
    assert_eq!(repeated_stop(&[]), None);
}

#[test]
fn url_and_name_rules() {
    assert!(is_zip_url("https://x.org/feed.ZIP?token=1"));
    assert!(is_zip_url("https://x.org/feed.zip#a"));
    assert!(!is_zip_url("https://x.org/feed?f=a.zip"));
    assert!(!is_zip_url("zip"));
    assert!(is_zip_url(".zip"));
    assert!(is_generic_stop_name("Main St Stop"));
    assert!(!is_generic_stop_name("Union Station"));
    assert!(!is_generic_stop_name("Central Station"));
    assert!(!is_generic_stop_name("Stopover"));
    assert!(is_generic_stop_name("Station Square"));
    assert!(is_generic_stop_name("Bus-stop 4"));
    assert!(!is_generic_stop_name(""));
    assert!(names_parent("Central Station Platform 2", "central station"));
    assert!(!names_parent("Platform 2", "Central"));
    assert!(names_parent("X", ""));
    assert!(long_name_repeats_short("5A Hattı", "5A"));
    assert!(!long_name_repeats_short("Route 5A", "5"));
    assert!(long_name_repeats_short("Route 5A", "5a"));
    assert!(!long_name_repeats_short("Route 5AB", "5A"));
    assert!(lacks_passenger_label(None, Some(""), false));
    assert!(!lacks_passenger_label(Some("Airport"), None, false));
    assert!(!lacks_passenger_label(None, None, true));
}

fn counts() -> FeedCounts {
    FeedCounts {
        agencies: 1,
        routes: 3,
        stops: 10,
        trips: 20,
        shapes: 5,
        feed_info_rows: 1,
        stop_time_rows: 200,
        routes_with_agency: 3,
        shapeless_trips: 0,
        stops_without_coordinates: 0,
        trips_without_stop_times: 0,
        stops_near_null_island: 0,
        demand_responsive_only: false,
    }
}

#[test]
fn feed_level_quality() {
    let ok = feed_quality(counts());
    assert!(!ok.single_stop && !ok.too_few_trips && !ok.no_stop_times && !ok.agencies_unassigned);
    assert!(!ok.mostly_shapeless && !ok.mostly_without_coordinates && !ok.no_trip_has_stop_times);
    assert!(!ok.null_island_stops && ok.agency_id_recommended);
    assert_eq!(ok.missing_files, MissingFiles::Neither);

    let mut c = counts();
    c.stops = 1;
    c.trips = 2;
    c.stop_time_rows = 0;
    c.agencies = 6;
    c.routes_with_agency = 0;
    c.shapeless_trips = 2;
    c.stops_without_coordinates = 1;
    c.trips_without_stop_times = 2;
    c.stops_near_null_island = 1;
    c.shapes = 0;
    c.feed_info_rows = 0;
    let bad = feed_quality(c);
    assert!(bad.single_stop && bad.too_few_trips && bad.no_stop_times && bad.agencies_unassigned);
    assert!(bad.mostly_shapeless && bad.mostly_without_coordinates && bad.no_trip_has_stop_times);
    assert!(bad.null_island_stops && !bad.agency_id_recommended);
    assert_eq!(bad.missing_files, MissingFiles::Both);

    let mut d = counts();
    d.shapes = 0;
    d.demand_responsive_only = true;
    d.feed_info_rows = 0;
    assert_eq!(feed_quality(d).missing_files, MissingFiles::FeedInfo);
    d.demand_responsive_only = false;
    d.feed_info_rows = 1;
    assert_eq!(feed_quality(d).missing_files, MissingFiles::Shapes);
    let empty = FeedCounts {
        agencies: 0,
        routes: 0,
        stops: 0,
        trips: 0,
        shapes: 0,
        feed_info_rows: 0,
        stop_time_rows: 0,
        routes_with_agency: 0,
        shapeless_trips: 0,
        stops_without_coordinates: 0,
        trips_without_stop_times: 0,
        stops_near_null_island: 0,
        demand_responsive_only: false,
    };
    assert_eq!(feed_quality(empty).missing_files, MissingFiles::Neither);
}

#[test]
fn feed_service_activity() {
    let services = vec![vec![20240101], vec![]];
    let a = feed_activity(&services, 3, 20250101);
    assert!(!a.no_active_day && a.nothing_current);
    let b = feed_activity(&services, 3, 0);
    assert!(!b.no_active_day && !b.nothing_current);
    let c = feed_activity(&services, 3, 20231231);
    assert!(!c.nothing_current);
    let none: Vec<Vec<u32>> = vec![];
    let d = feed_activity(&none, 3, 20250101);
    assert!(d.no_active_day && d.nothing_current);
    let e = feed_activity(&none, 0, 20250101);
    assert!(!e.no_active_day && !e.nothing_current);
}

#[test]
fn service_conflict_days() {
    let services = vec![vec![20240101, 20240102, 20240103], vec![20240102, 20240103], vec![20240103]];
    let added = vec![vec![], vec![20240103], vec![]];
    let removed = vec![vec![], vec![], vec![]];
    let (plain, exc) = conflict_days(&services, &added, &removed);
    assert_eq!(plain.len(), 1);
    assert_eq!(plain[0].date, 20240102);
    assert_eq!(plain[0].services, vec![0, 1]);
    assert_eq!(exc.len(), 1);
    assert_eq!(exc[0].date, 20240103);
    assert_eq!(exc[0].services, vec![0, 1, 2]);
    let names = vec!["A".to_string(), "B".to_string(), "C".to_string()];
    assert_eq!(conflict_summary(&names, &plain), "A+B: 1 gün");
    assert_eq!(conflict_summary(&names, &exc), "A+B+C: 1 gün");
    assert_eq!(service_pattern(&names, &[0, 2]), "A+C");
    let single = vec![vec![20240101]];
    let (p1, e1) = conflict_days(&single, &vec![vec![]], &vec![vec![20240101]]);
    assert!(p1.is_empty() && e1.is_empty());
}

fn ts(sequence: Option<u32>, stop: usize, station: usize, name: Option<&str>) -> TripStop {
    TripStop { sequence, stop, station, name: name.map(|n| n.to_string()) }
}

#[test]
fn headsign_against_stops() {
    let trip = vec![
        ts(Some(1), 0, 0, Some("Kadıköy")),
        ts(Some(2), 1, 1, Some(" Airport ")),
        ts(Some(3), 2, 2, Some("Harbour")),
    ];
    assert!(headsign_names_intermediate(Some("airport"), &trip));
    assert!(!headsign_names_intermediate(Some("Harbour"), &trip));
    assert!(!headsign_names_intermediate(Some("  "), &trip));
    assert!(!headsign_names_intermediate(None, &trip));
    assert!(!headsign_names_intermediate(Some("airport"), &trip[..1]));
    let ring = vec![
        ts(Some(1), 0, 0, Some("Depot")),
        ts(Some(2), 1, 1, Some("Airport")),
        ts(Some(3), 2, 0, Some("Depot B")),
    ];
    assert!(!headsign_names_intermediate(Some("airport"), &ring));
    let wye = vec![
        ts(Some(1), 0, 0, Some("Start")),
        ts(Some(2), 1, 1, Some("Airport")),
        ts(Some(3), 2, 2, Some("Middle")),
        ts(Some(4), 3, 1, Some("Airport")),
        ts(Some(5), 4, 4, Some("End")),
    ];
    assert!(!headsign_names_intermediate(Some("Airport"), &wye));
    assert_eq!(trimmed("  a b \t"), "a b");
    assert_eq!(stable_order(&[3, 1, 3, 0]), vec![3, 1, 0, 2]);
}

#[test]
fn flexible_window_overlaps() {
    let mut w = vec![(0, 3600, 7200, 10), (0, 0, 1800, 11), (0, 1800, 3600, 12), (1, 100, 200, 20)];
    assert_eq!(overlapping_windows(&w, 2), vec![None, None]);
    w.push((0, 3000, 4000, 13));
    assert_eq!(overlapping_windows(&w, 3), vec![Some(13), None, None]);
}

fn profile(stops: Vec<u32>, route_type: Option<u32>, dates: Vec<Vec<u32>>) -> RouteProfile {
    RouteProfile { stops, route_type, service_dates: dates }
}

#[test]
fn near_duplicate_routes() {
    let routes = vec![
        profile(vec![1, 2, 3, 4, 5, 6], Some(3), vec![vec![20240101]]),
        profile(vec![7, 1, 2, 2, 3, 4, 5, 6], Some(3), vec![vec![20240102], vec![20240101]]),
        profile(vec![1, 2, 3, 4, 5], Some(0), vec![]),
        profile(vec![1, 2, 3], Some(3), vec![]),
        profile(vec![1, 2, 3, 4, 5, 6], Some(3), vec![vec![20250101]]),
        profile(vec![1, 2, 3, 4, 5, 6], None, vec![]),
    ];
    let m = duplicate_routes(&routes);
    assert_eq!(m.len(), 6);
    assert!(m[0][1]);
    assert!(!m[1][0]);
    assert!(!m[0][2] && !m[0][3] && !m[0][4] && !m[1][4] && !m[0][5]);
    let far = vec![
        profile(vec![1, 2, 3, 4, 5, 6, 7, 8, 9, 10], Some(3), vec![]),
        profile(vec![1, 2, 3, 4, 5, 6, 7, 8], Some(3), vec![]),
    ];
    assert!(!duplicate_routes(&far)[0][1]);
}

#[test]
fn grouping_by_key() {
    let groups = group_by_key(&[(5, 0), (2, 1), (5, 2), (9, 3), (2, 4)]);
    let keys: Vec<u64> = groups.iter().map(|g| g.key).collect();
    assert_eq!(keys, vec![2, 5, 9]);
    assert_eq!(groups[0].members, vec![1, 4]);
    assert_eq!(groups[1].members, vec![0, 2]);
    assert_eq!(groups[2].members, vec![3]);
    assert!(group_by_key(&[]).is_empty());
    assert!(pair_key(1, 0) > pair_key(0, u32::MAX));
}

#[test]
fn services_without_days() {
    assert_eq!(dateless_services(&[2, 0, 2, 1, 0], &[false, true, false]), vec![2, 0]);
    let trips = [(0, true, 5), (1, false, 9), (1, false, 7), (0, false, 8)];
    assert_eq!(inactive_services(&trips, 3), vec![Some((1, 8)), Some((2, 9)), None]);
}

#[test]
fn stop_patterns_per_shape() {
    let t = |shape: Option<usize>, stops: Vec<usize>| TripPattern { shape, stops };
    let trips = vec![
        t(Some(0), vec![0, 1, 2]),
        t(Some(0), vec![0, 1, 2]),
        t(Some(0), vec![0, 2]),
        t(Some(1), vec![0, 1]),
        t(None, vec![5]),
    ];
    assert_eq!(shape_patterns(&trips, 2), vec![vec![0, 2], vec![3]]);
}

#[test]
fn references() {
    assert_eq!(occurring(&[2, 0, 2], 4), vec![true, false, true, false]);
}

#[test]
fn stop_selection_by_location_type() {
    let stops = [
        StopRecord { id: None, location_type: None, parent: None },
        StopRecord { id: Some(0), location_type: None, parent: Some(3) },
        StopRecord { id: Some(1), location_type: Some(2), parent: Some(3) },
        StopRecord { id: Some(2), location_type: Some(3), parent: Some(4) },
        StopRecord { id: Some(3), location_type: Some(1), parent: None },
        StopRecord { id: Some(4), location_type: Some(1), parent: None },
    ];
    // Only platforms with an id that no row uses: index 0 is used.
    assert_eq!(unused_stops(&stops, &[0], 5), vec![false, false, false, false, false, false]);
    assert_eq!(unused_stops(&stops, &[], 5), vec![false, true, false, false, false, false]);
    // Station 3 has a platform child; station 4 only a generic node.
    assert_eq!(childless_stations(&stops, 5), vec![false, false, false, false, false, true]);
}

#[test]
fn agencies_named_by_routes() {
    assert_eq!(unnamed_agencies(&[Some(0), Some(1), None], &[Some(1), None, Some(1)], 2), vec![true, false, false]);
}

#[test]
fn record_findings_in_rule_then_record_order() {
    let stops = [
        StopRecord { id: Some(0), location_type: Some(1), parent: None },
        StopRecord { id: Some(1), location_type: Some(0), parent: None },
        StopRecord { id: Some(2), location_type: None, parent: None },
        StopRecord { id: Some(3), location_type: Some(1), parent: None },
    ];
    let f = record_findings(&[Some(0), Some(1)], &[Some(1)], 2, &stops, &[2], 4);
    assert_eq!(
        f,
        vec![
            Finding { rule: Rule::UnnamedAgency, record: 0 },
            Finding { rule: Rule::UnusedStop, record: 1 },
            Finding { rule: Rule::ChildlessStation, record: 0 },
            Finding { rule: Rule::ChildlessStation, record: 3 },
        ]
    );
}

#[test]
fn trip_rows_sorted_by_sequence_for_opr_007() {
    // Without a stop_sequence a row goes last; rows without a stop are left out.
    let rows = [(Some(4), None), (Some(0), Some(1)), (None, Some(2)), (Some(4), Some(3)), (Some(2), Some(5))];
    // Sorted: 0, 4, 2, 4 -> stop 4 comes back.
    assert_eq!(trip_repeated_stop(&rows), Some((4, 2)));
    // A trip whose stops are interleaved only in file order is fine once sorted.
    let rows = [(Some(1), Some(2)), (Some(1), Some(3)), (Some(0), Some(1))];
    assert_eq!(trip_repeated_stop(&rows), None);
}

#[test]
fn number_notices_in_given_order() {
    let stops = [
        StopRecord { id: Some(0), location_type: Some(1), parent: None },
        StopRecord { id: Some(1), location_type: None, parent: None },
    ];
    let records = finding_notices(&record_findings(&[Some(0)], &[], 1, &stops, &[], 2));
    let first = finding_notices(&record_findings(&[], &[], 0, &stops, &[1], 2));
    let result = number_notices(vec![first, vec![], records]);
    let ids: Vec<&str> = result.notices.iter().map(|n| n.id.as_str()).collect();
    assert_eq!(ids, vec!["k6/STP_030#1", "k6/DQ_010#2", "k6/STP_020#3", "k6/STP_030#4"]);
    let recs: Vec<Option<usize>> = result.notices.iter().map(|n| n.record).collect();
    assert_eq!(recs, vec![Some(0), Some(0), Some(1), Some(0)]);
}

#[test]
fn numbering_of_no_findings_is_empty() {
    assert!(number_notices(vec![]).notices.is_empty());
    assert!(number_notices(vec![vec![], vec![]]).notices.is_empty());
}

#[test]
fn route_fields_findings_description_then_url() {
    let route = |id: &str, desc: Option<&str>, url: Option<&str>| RouteText {
        route_id: id.to_string(),
        route_desc: desc.map(|s| s.to_string()),
        route_url: url.map(|s| s.to_string()),
    };
    let routes = [
        route("R1", Some("Sahil"), None),
        route("R2", Some(" "), Some("https://r2.example")),
        route("", None, None),
    ];
    let f = route_field_findings(&routes);
    assert_eq!(
        f,
        vec![Finding { rule: Rule::DescriptionMissing, record: 1 }, Finding { rule: Rule::UrlMissing, record: 0 }]
    );
    let ids: Vec<String> = number_notices(vec![finding_notices(&f)]).notices.into_iter().map(|n| n.id).collect();
    assert_eq!(ids, vec!["k6/DQ_003#1".to_string(), "k6/DQ_004#2".to_string()]);
}

#[test]
fn midnight_wraps_counted_over_trips_of_two_rows() {
    let row = |line: u32, arr: (u32, u32, u32), dep: (u32, u32, u32)| StopTime {
        line,
        stop_sequence: Some(line),
        arrival: Some(arr),
        departure: Some(dep),
        has_shape_dist: false,
    };
    let wrap = row(3, (23, 58, 0), (0, 0, 0));
    let error = row(4, (9, 0, 0), (8, 0, 0));
    let trips = vec![
        vec![row(1, (23, 0, 0), (23, 0, 0)), wrap, wrap, error],
        vec![wrap],
        vec![row(5, (8, 0, 0), (8, 0, 0)), wrap],
    ];
    // The one-row trip is skipped.
    assert_eq!(midnight_wrap_count(&trips, 3), 3);
    // Without a service-day start every such row is an error, not a wrap.
    assert_eq!(midnight_wrap_count(&trips, 0), 0);
}

#[test]
fn override_window_days_by_class() {
    // Window 2024-02-27 .. 2024-03-02 crosses a leap day.
    let base = vec![vec![20240227, 20240228, 20240229]];
    let over = vec![vec![20240228, 20240301]];
    let w = override_window(20240227, 20240302, &base, &over);
    assert_eq!(w.both_active, vec![20240228]);
    assert_eq!(w.override_missing, vec![20240227, 20240229]);
    assert_eq!(w.no_service, vec![20240302]);
    let (a, b, c) = override_findings(20240227, 20240302, &base, &over, "B1", "O1");
    assert_eq!(a.unwrap().sample_dates, "20240228");
    let b = b.unwrap();
    assert_eq!(b.conflict_day_count, "2");
    assert_eq!(b.sample_dates, "20240227,20240229");
    assert_eq!(c.unwrap().base_services, "B1");
    // A window the override covers entirely gives no finding.
    let (a, b, c) = override_findings(20241230, 20250102, &[], &[vec![20241230, 20241231, 20250101, 20250102]], "", "");
    assert!(a.is_none() && b.is_none() && c.is_none());
    // An end before the start gives an empty window.
    assert!(override_window(20240305, 20240301, &base, &over).no_service.is_empty());
}

fn empty_feed() -> Feed {
    Feed {
        trip_rows: vec![],
        service_day_start_hour: 3,
        routes: vec![],
        agencies: vec![],
        route_agencies: vec![],
        n_agency_ids: 0,
        block_trips: vec![],
        n_blocks: 0,
        stops: vec![],
        stop_time_stops: vec![],
        n_stop_ids: 0,
        override_rules: vec![],
    }
}

#[test]
fn empty_feed_no_notices() {
    assert!(analyze(&empty_feed()).notices.is_empty());
}

#[test]
fn feed_checks_run_in_fixed_order() {
    let row = |line: u32, arr: (u32, u32, u32), dep: (u32, u32, u32)| StopTime {
        line,
        stop_sequence: Some(line),
        arrival: Some(arr),
        departure: Some(dep),
        has_shape_dist: false,
    };
    let mut feed = empty_feed();
    feed.trip_rows = vec![vec![row(2, (23, 50, 0), (23, 50, 0)), row(3, (23, 58, 0), (0, 0, 0))]];
    feed.routes = vec![RouteText { route_id: "R1".to_string(), route_desc: None, route_url: Some("u".to_string()) }];
    feed.agencies = vec![Some(0)];
    feed.n_agency_ids = 1;
    feed.block_trips = vec![(Some(0), Some(3)), (Some(0), Some(0))];
    feed.n_blocks = 1;
    feed.stops = vec![StopRecord { id: Some(0), location_type: Some(1), parent: None }];
    feed.n_stop_ids = 1;
    feed.override_rules = vec![OverrideRule {
        start: 20240301,
        end: 20240302,
        base: vec![vec![20240301, 20240302]],
        over: vec![vec![20240302]],
    }];
    let r = analyze(&feed);
    let ids: Vec<&str> = r.notices.iter().map(|n| n.id.as_str()).collect();
    assert_eq!(
        ids,
        vec!["k6/STM_049#1", "k6/DQ_003#2", "k6/DQ_010#3", "k6/TRP_033#4", "k6/STP_030#5", "k6/OPR_021#6", "k6/OPR_022#7"]
    );
    assert_eq!(r.notices[0].observed.as_deref(), Some("1"));
    assert_eq!(r.notices[3].observed.as_deref(), Some("0, 3"));
    assert_eq!(r.notices[3].record, Some(0));
}
