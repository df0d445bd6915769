use vstd::prelude::*;

verus! {

/// Whether a GTFS `route_type` denotes intercity or long-distance rail:
/// 2 (rail), 12 (monorail) or one of the extended railway types 100–117.
pub open spec fn spec_is_rail_route_type(route_type: u32) -> bool {
    route_type == 2 || route_type == 12 || (100 <= route_type && route_type <= 117)
}

/// Rail route types get the looser stop-distance and shape-distance rules.
pub fn is_rail_route_type(route_type: u32) -> (r: bool)
    ensures
        r == spec_is_rail_route_type(route_type),
{
    route_type == 2 || route_type == 12 || (100 <= route_type && route_type <= 117)
}


/// Vehicle category used to pick the speed threshold of a route.
#[derive(Debug, Clone, Copy, PartialEq, Eq, Structural)]
pub enum VehicleClass {
    /// Tram / light rail: 0, 900–906.
    Tram,
    /// Metro / U-Bahn: 1, 400–405.
    Metro,
    /// Rail / S-Bahn / regional: 2, 12, 100–117.
    Rail,
    /// Bus, coach, trolleybus, taxi (3, 11, 200–209, 700–716, 800,
    /// 1500–1507) and every unknown type.
    Bus,
    /// Water transport / ferry: 4, 1000–1021, 1200.
    Ferry,
    /// Cable tram, aerial lift, funicular: 5, 6, 7, 1300–1307, 1400.
    CableCar,
}

/// Category of a standard or extended GTFS `route_type`.
pub open spec fn spec_vehicle_class(rt: u32) -> VehicleClass {
    if rt == 0 || (900 <= rt && rt <= 906) {
        VehicleClass::Tram
    } else if rt == 1 || (400 <= rt && rt <= 405) {
        VehicleClass::Metro
    } else if rt == 2 || rt == 12 || (100 <= rt && rt <= 117) {
        VehicleClass::Rail
    } else if rt == 4 || (1000 <= rt && rt <= 1021) || rt == 1200 {
        VehicleClass::Ferry
    } else if rt == 5 || rt == 6 || rt == 7 || (1300 <= rt && rt <= 1307) || rt == 1400 {
        VehicleClass::CableCar
    } else {
        VehicleClass::Bus
    }
}

/// Maps a route type to its vehicle category (unknown types count as bus).
pub fn vehicle_class(rt: u32) -> (r: VehicleClass)
    ensures
        r == spec_vehicle_class(rt),
{
    if rt == 0 || (900 <= rt && rt <= 906) {
        VehicleClass::Tram
    } else if rt == 1 || (400 <= rt && rt <= 405) {
        VehicleClass::Metro
    } else if rt == 2 || rt == 12 || (100 <= rt && rt <= 117) {
        VehicleClass::Rail
    } else if rt == 4 || (1000 <= rt && rt <= 1021) || rt == 1200 {
        VehicleClass::Ferry
    } else if rt == 5 || rt == 6 || rt == 7 || (1300 <= rt && rt <= 1307) || rt == 1400 {
        VehicleClass::CableCar
    } else {
        VehicleClass::Bus
    }
}

/// The speed thresholds (km/h) of each vehicle category.
#[derive(Debug, Clone, Copy)]
pub struct SpeedLimits<T> {
    /// Tram / light rail.
    pub tram: T,
    /// Metro.
    pub metro: T,
    /// Rail.
    pub rail: T,
    /// Bus and unknown types.
    pub bus: T,
    /// Ferry.
    pub ferry: T,
    /// Cable car / funicular.
    pub cablecar: T,
}

impl<T> SpeedLimits<T> {
    /// Threshold of one category.
    pub open spec fn limit_for(self, c: VehicleClass) -> T {
        match c {
            VehicleClass::Tram => self.tram,
            VehicleClass::Metro => self.metro,
            VehicleClass::Rail => self.rail,
            VehicleClass::Bus => self.bus,
            VehicleClass::Ferry => self.ferry,
            VehicleClass::CableCar => self.cablecar,
        }
    }
}

/// Speed threshold for a route type: the limit of its vehicle category.
pub fn max_speed_kmh<T: Copy>(route_type: u32, cfg: &SpeedLimits<T>) -> (r: T)
    ensures
        r == cfg.limit_for(spec_vehicle_class(route_type)),
{
    match vehicle_class(route_type) {
        VehicleClass::Tram => cfg.tram,
        VehicleClass::Metro => cfg.metro,
        VehicleClass::Rail => cfg.rail,
        VehicleClass::Bus => cfg.bus,
        VehicleClass::Ferry => cfg.ferry,
        VehicleClass::CableCar => cfg.cablecar,
    }
}

/// The rail test and the speed categories agree: a route type is rail exactly
/// when it falls in the rail category.
pub proof fn law_rail_types_are_rail_class(rt: u32)
    ensures
        spec_is_rail_route_type(rt) <==> spec_vehicle_class(rt) == VehicleClass::Rail,
{
}

/// OPR_015: a two-way route (more than one `direction_id`) whose trips all
/// use one shape, for route types other than tram, metro, rail, cable tram and
/// monorail (those run one shape by nature). A missing route type counts as bus.
pub open spec fn spec_single_shape_two_way(route_type: Option<u32>, shape_count: nat, direction_count: nat) -> bool {
    let rt = match route_type {
        Some(t) => t,
        None => 3,
    };
    !(rt == 0 || rt == 1 || rt == 2 || rt == 5 || rt == 12) && shape_count == 1 && direction_count > 1
}

/// OPR_015 for one route.
pub fn single_shape_two_way(route_type: Option<u32>, shape_count: usize, direction_count: usize) -> (r: bool)
    ensures
        r == spec_single_shape_two_way(route_type, shape_count as nat, direction_count as nat),
{
    let rt = match route_type {
        Some(t) => t,
        None => 3,
    };
    !(rt == 0 || rt == 1 || rt == 2 || rt == 5 || rt == 12) && shape_count == 1 && direction_count > 1
}

/// A flexible-service row of stop_times.txt: which location reference it uses.
#[derive(Debug, Clone, Copy)]
pub struct FlexStopTime {
    /// `location_id` is given.
    pub has_location_id: bool,
    /// `location_group_id` is given.
    pub has_location_group_id: bool,
}

/// The feed is demand-responsive only: it has stop_times rows, none of them
/// references a fixed `stop_id`, and some row references a flexible location
/// or location group. Such feeds need no shapes.
pub open spec fn spec_feed_is_demand_responsive_only(
    total_rows: u64,
    fixed_stop_ids: nat,
    flex: Seq<FlexStopTime>,
) -> bool {
    total_rows > 0 && fixed_stop_ids == 0 && exists|i: int|
        0 <= i < flex.len() && ((#[trigger] flex[i]).has_location_id || flex[i].has_location_group_id)
}

/// Whether the whole feed consists of demand-responsive service.
pub fn feed_is_demand_responsive_only(total_rows: u64, fixed_stop_ids: usize, flex: &[FlexStopTime]) -> (r: bool)
    ensures
        r == spec_feed_is_demand_responsive_only(total_rows, fixed_stop_ids as nat, flex@),
{
    if total_rows == 0 || fixed_stop_ids != 0 {
        return false;
    }
    let mut i: usize = 0;
    while i < flex.len()
        invariant
            i <= flex.len(),
            total_rows > 0,
            fixed_stop_ids == 0,
            forall|k: int| 0 <= k < i ==> !((#[trigger] flex@[k]).has_location_id || flex@[k].has_location_group_id),
        decreases flex.len() - i,
    {
        if flex[i].has_location_id || flex[i].has_location_group_id {
            return true;
        }
        i += 1;
    }
    false
}

/// The route type a rule works with: the route's own, or bus (3) when the
/// route or its type is unknown.
pub open spec fn spec_route_type_or_bus(rt: Option<u32>) -> u32 {
    match rt {
        Some(t) => t,
        None => 3,
    }
}

/// A route type, bus (3) when unknown.
pub fn route_type_or_bus(rt: Option<u32>) -> (r: u32)
    ensures
        r == spec_route_type_or_bus(rt),
{
    match rt {
        Some(t) => t,
        None => 3,
    }
}

} // verus!
