use vstd::prelude::*;

verus! {

/// How completely an optional accessibility field is filled in.
#[derive(Debug, Clone, Copy, PartialEq, Eq, Structural)]
pub enum Coverage {
    /// Every entity has the field (or there is nothing to check).
    Complete,
    /// No entity has it (TRP_029 / STP_038); carries the entity count.
    AllMissing(u64),
    /// Some entities lack it (TRP_028 / STP_037): (missing, total).
    SomeMissing(u64, u64),
}

/// Coverage of `total` entities of which `unset` lack the field.
pub open spec fn spec_coverage(total: u64, unset: u64) -> Coverage {
    if total == 0 || unset == 0 {
        Coverage::Complete
    } else if unset == total {
        Coverage::AllMissing(total)
    } else {
        Coverage::SomeMissing(unset, total)
    }
}

/// TRP_029 (all missing) / TRP_028 (some missing) for the
/// wheelchair_accessible field of trips, and STP_038 / STP_037 for the
/// wheelchair_boarding field of physical stops.
pub fn coverage(total: u64, unset: u64) -> (r: Coverage)
    ensures
        r == spec_coverage(total, unset),
{
    if total == 0 || unset == 0 {
        Coverage::Complete
    } else if unset == total {
        Coverage::AllMissing(total)
    } else {
        Coverage::SomeMissing(unset, total)
    }
}

/// TRP_025: more than 80% of the trips have unknown wheelchair accessibility
/// (`unknown / total > 4/5`).
pub open spec fn spec_mostly_unknown(unknown: u64, total: u64) -> bool {
    total > 0 && 5 * unknown > 4 * total
}

/// TRP_025 for the feed.
pub fn mostly_unknown(unknown: u64, total: u64) -> (r: bool)
    ensures
        r == spec_mostly_unknown(unknown, total),
{
    total > 0 && 5 * (unknown as u128) > 4 * (total as u128)
}

/// TRP_009: the trip has stop_times rows but none carries a time.
pub open spec fn spec_untimed_trip(row_count: u64, any_time: bool) -> bool {
    row_count > 0 && !any_time
}

/// TRP_009 for a trip.
pub fn untimed_trip(row_count: u64, any_time: bool) -> (r: bool)
    ensures
        r == spec_untimed_trip(row_count, any_time),
{
    row_count > 0 && !any_time
}

/// OPR_018: a service used by trips that is active on one or two days only.
pub open spec fn spec_very_short_service(active_days: u64, used_by_trips: bool) -> bool {
    active_days > 0 && active_days < 3 && used_by_trips
}

/// OPR_018 for a service.
pub fn very_short_service(active_days: u64, used_by_trips: bool) -> (r: bool)
    ensures
        r == spec_very_short_service(active_days, used_by_trips),
{
    active_days > 0 && active_days < 3 && used_by_trips
}

/// VAT_003 time band of a first departure (seconds): night/early (0–5 h, also
/// 24 h and later wrapped), morning peak (6–9), day (10–15), evening peak
/// (16–19), evening (20–23).
pub open spec fn spec_time_band(dep_secs: u32) -> u32 {
    let h = (dep_secs / 3600) % 24;
    if h <= 5 {
        0
    } else if h <= 9 {
        1
    } else if h <= 15 {
        2
    } else if h <= 19 {
        3
    } else {
        4
    }
}

/// Time band of a departure for the duration-outlier rule.
pub fn time_band(dep_secs: u32) -> (r: u32)
    ensures
        r == spec_time_band(dep_secs),
        r <= 4,
{
    let h = (dep_secs / 3600) % 24;
    if h <= 5 {
        0
    } else if h <= 9 {
        1
    } else if h <= 15 {
        2
    } else if h <= 19 {
        3
    } else {
        4
    }
}

/// VAT_004: at least five weekday trips and no weekend trip.
pub open spec fn spec_weekday_only(weekday_trips: u64, weekend_trips: u64) -> bool {
    weekday_trips >= 5 && weekend_trips == 0
}

/// VAT_004 for a route.
pub fn weekday_only(weekday_trips: u64, weekend_trips: u64) -> (r: bool)
    ensures
        r == spec_weekday_only(weekday_trips, weekend_trips),
{
    weekday_trips >= 5 && weekend_trips == 0
}

/// VAT_006: in a feed of at least 50 trips, one route runs at least 40% of them.
pub open spec fn spec_dominant_route(route_trips: u64, total_trips: u64) -> bool {
    total_trips >= 50 && 5 * route_trips >= 2 * total_trips
}

/// VAT_006 for a route.
pub fn dominant_route(route_trips: u64, total_trips: u64) -> (r: bool)
    ensures
        r == spec_dominant_route(route_trips, total_trips),
{
    total_trips >= 50 && 5 * (route_trips as u128) >= 2 * (total_trips as u128)
}

/// VAT_008: a shape used by more than 30% (rounded up) of at least three
/// routes, and by at least three routes.
pub open spec fn spec_shape_overused(routes_using: u64, total_routes: u64) -> bool {
    let threshold = (3 * total_routes + 9) / 10;
    total_routes >= 3 && routes_using > threshold && routes_using >= 3
}

/// The VAT_008 threshold: `ceil(0.3 * total_routes)`.
pub open spec fn shape_threshold(total_routes: u64) -> int {
    (3 * total_routes + 9) / 10
}

/// VAT_008 for a shape.
pub fn shape_overused(routes_using: u64, total_routes: u64) -> (r: bool)
    ensures
        r == spec_shape_overused(routes_using, total_routes),
{
    let threshold = (3 * (total_routes as u128) + 9) / 10;
    total_routes >= 3 && (routes_using as u128) > threshold && routes_using >= 3
}

/// The VAT_008 threshold is the least integer not below 30% of the routes.
pub proof fn law_shape_threshold_is_ceiling(total_routes: u64)
    ensures
        10 * shape_threshold(total_routes) >= 3 * total_routes,
        10 * (shape_threshold(total_routes) - 1) < 3 * total_routes,
{
}

/// VAT_002: a stop served by at least four routes, with no transfer defined,
/// that is not a station.
pub open spec fn spec_transfer_hub_missing(route_count: u64, has_transfer: bool, is_station: bool) -> bool {
    route_count >= 4 && !has_transfer && !is_station
}

/// VAT_002 for a stop.
pub fn transfer_hub_missing(route_count: u64, has_transfer: bool, is_station: bool) -> (r: bool)
    ensures
        r == spec_transfer_hub_missing(route_count, has_transfer, is_station),
{
    route_count >= 4 && !has_transfer && !is_station
}

/// VAT_007: a stop where at least three routes start or end, with no
/// transfer defined.
pub open spec fn spec_terminus_transfer_missing(route_count: u64, has_transfer: bool) -> bool {
    route_count >= 3 && !has_transfer
}

/// VAT_007 for a stop.
pub fn terminus_transfer_missing(route_count: u64, has_transfer: bool) -> (r: bool)
    ensures
        r == spec_terminus_transfer_missing(route_count, has_transfer),
{
    route_count >= 3 && !has_transfer
}

/// GEO_021: among at least five physical stops, more than 30% share their
/// coordinates with another stop.
pub open spec fn spec_shared_coordinates(shared: u64, total: u64) -> bool {
    total >= 5 && 10 * shared > 3 * total
}

/// GEO_021 for the feed.
pub fn shared_coordinates(shared: u64, total: u64) -> (r: bool)
    ensures
        r == spec_shared_coordinates(shared, total),
{
    total >= 5 && 10 * (shared as u128) > 3 * (total as u128)
}

/// Size limits of single entities (STM_043 stops per trip, SHP_026 points per
/// shape, STM_044 stop_times rows per feed, OPR_024 trips per route and
/// service).
pub open spec fn spec_exceeds(count: u64, limit: u64) -> bool {
    count > limit
}

/// Whether a count is above its limit.
pub fn exceeds(count: u64, limit: u64) -> (r: bool)
    ensures
        r == spec_exceeds(count, limit),
{
    count > limit
}

/// STM_043: more than 200 stops in one trip.
pub const MAX_STOPS_PER_TRIP: u64 = 200;

/// SHP_026: more than 5000 points in one shape.
pub const MAX_SHAPE_POINTS: u64 = 5000;

/// STM_044: more than two million stop_times rows in the feed.
pub const MAX_STOP_TIME_ROWS: u64 = 2_000_000;

/// VAT_005: a component of the stop network is small when it has at most
/// 5% of the stops (at least 2), and it is smaller than the largest one.
pub open spec fn spec_small_component(size: u64, largest: u64, total: u64) -> bool {
    let thresh = if total / 20 > 2 { total / 20 } else { 2 };
    size < largest && size <= thresh
}

/// VAT_005 size test for a component.
pub fn small_component(size: u64, largest: u64, total: u64) -> (r: bool)
    ensures
        r == spec_small_component(size, largest, total),
{
    let thresh = if total / 20 > 2 { total / 20 } else { 2 };
    size < largest && size <= thresh
}

} // verus!
