use k6_analytics::components::{isolated_components, isolated_stop_groups, stop_components, stop_network};
use k6_analytics::hubs::{routes_at_stops, week_trip_counts, CalendarWeek, RouteTrip};
use k6_analytics::network::{dominant_route, terminus_transfer_missing, transfer_hub_missing, weekday_only};

fn route_trip(route: u32, stops: &[usize]) -> RouteTrip {
    RouteTrip { route, stops: stops.to_vec() }
}

#[test]
fn busy_stop_no_transfer_produces_vat_002() {
    // Routes 0..4 each run one trip S1 (0) -> S2 (1).
    let trips: Vec<RouteTrip> = (0..4).map(|r| route_trip(r, &[0, 1])).collect();
    let at = routes_at_stops(&trips, 2, false);
    assert_eq!(at[0], vec![0, 1, 2, 3]);
    assert!(transfer_hub_missing(at[0].len() as u64, false, false));
}

#[test]
fn weekday_only_route_produces_vat_004() {
    // Service 0 runs Monday to Friday; route 0 has five trips on it.
    let cals = vec![CalendarWeek {
        service: 0,
        days: [Some(1), Some(1), Some(1), Some(1), Some(1), Some(0), Some(0)],
    }];
    let trips = vec![(0, 0); 5];
    let counts = week_trip_counts(&trips, &cals, 1, 1);
    assert_eq!(counts, vec![(5, 0)]);
    assert!(weekday_only(counts[0].0 as u64, counts[0].1 as u64));
    assert!(!weekday_only(5, 1));
    assert!(!weekday_only(4, 0));
}

#[test]
fn week_counts_follow_the_last_calendar_row() {
    let weekend = [None, Some(0), None, None, None, Some(1), None];
    let weekday = [Some(1), None, None, None, None, None, None];
    let cals = vec![
        CalendarWeek { service: 0, days: weekend },
        CalendarWeek { service: 1, days: weekend },
        CalendarWeek { service: 0, days: weekday },
    ];
    // Route 0 on services 0, 1 and 2 (2 has no calendar row); route 1 on 1.
    let trips = vec![(0, 0), (0, 1), (0, 2), (1, 1)];
    assert_eq!(week_trip_counts(&trips, &cals, 2, 3), vec![(1, 1), (0, 1)]);
}

#[test]
fn isolated_stop_cluster_produces_vat_005() {
    // Main network A..F (0..5) run by twelve trips, isolated pair X (6), Y (7).
    let mut trips: Vec<Vec<usize>> = (0..12).map(|_| vec![0, 1, 2, 3, 4, 5]).collect();
    trips.push(vec![6, 7]);
    let (rep, isolated) = isolated_stop_groups(&trips, 8);
    assert_eq!(rep, vec![0, 0, 0, 0, 0, 0, 6, 6]);
    assert_eq!(isolated, vec![6]);
}

#[test]
fn dominant_route_produces_vat_006() {
    assert!(dominant_route(80, 100));
    assert!(!dominant_route(10, 100));
}

#[test]
fn shared_terminus_no_transfer_produces_vat_007() {
    // HUB (0) starts routes 0, 1, 2 towards A (1), B (2), C (3).
    let trips = vec![route_trip(0, &[0, 1]), route_trip(1, &[0, 2]), route_trip(2, &[0, 3])];
    let at = routes_at_stops(&trips, 4, true);
    assert_eq!(at[0], vec![0, 1, 2]);
    assert!(terminus_transfer_missing(at[0].len() as u64, false));
}

#[test]
fn terminals_ignore_intermediate_stops() {
    let trips = vec![route_trip(3, &[0, 1, 2]), route_trip(1, &[2, 1, 0]), route_trip(3, &[1])];
    let all = routes_at_stops(&trips, 3, false);
    assert_eq!(all, vec![vec![1, 3], vec![1, 3], vec![1, 3]]);
    let ends = routes_at_stops(&trips, 3, true);
    assert_eq!(ends, vec![vec![1, 3], vec![3], vec![1, 3]]);
}

#[test]
fn components_label_each_stop_with_its_least_stop() {
    let trips = vec![vec![4, 2], vec![1, 3], vec![3, 0]];
    let g = stop_network(&trips, 5);
    assert_eq!(g.len(), 5);
    assert_eq!(stop_components(&g), vec![0, 0, 2, 0, 2]);
}

#[test]
fn network_edges_run_both_ways() {
    let g = stop_network(&vec![vec![0, 1, 2]], 3);
    assert_eq!(g[0], vec![(1, 0)]);
    assert_eq!(g[1], vec![(0, 0), (2, 0)]);
    assert_eq!(g[2], vec![(1, 0)]);
}

#[test]
fn small_networks_have_no_isolated_component() {
    // Four stops only: the size test needs at least five.
    assert!(isolated_components(&[0, 0, 2, 2]).is_empty());
    // One component only.
    assert!(isolated_components(&[0, 0, 0, 0, 0, 0]).is_empty());
    // Equal halves: neither is smaller than the largest.
    assert!(isolated_components(&[0, 0, 0, 3, 3, 3]).is_empty());
}
