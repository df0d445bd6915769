use vstd::prelude::*;
use crate::trips::occurring;

verus! {

// Records that nothing refers to: STP_020 (a physical stop no trip uses),
// STP_030 (a station without platforms) and DQ_010 (an agency no route
// names).

/// A stops.txt row. `id` is the index of its stop_id (`None` when the
/// stop_id is empty); `parent` is the index of its parent_station once
/// trimmed (`None` when that is empty or absent). Equal texts share one
/// index.
#[derive(Debug, Clone, Copy)]
pub struct StopRecord {
    pub id: Option<usize>,
    pub location_type: Option<u32>,
    pub parent: Option<usize>,
}

/// A stop or platform where vehicles stop: location_type 0 or empty.
pub open spec fn is_platform(s: StopRecord) -> bool {
    s.location_type is None || s.location_type == Some(0u32)
}

/// Every index in the records is below `n`.
pub open spec fn stops_indexed_below(stops: Seq<StopRecord>, n: usize) -> bool {
    forall|k: int| 0 <= k < stops.len() ==> ((#[trigger] stops[k]).id is Some ==> stops[k].id->0 < n)
        && (stops[k].parent is Some ==> stops[k].parent->0 < n)
}

/// STP_020: the stop has a stop_id, is a platform, and no stop_times row
/// uses it.
pub open spec fn spec_unused_stop(s: StopRecord, used: Seq<usize>) -> bool {
    s.id is Some && is_platform(s) && !used.contains(s.id->0)
}

/// Some platform names `x` as its parent_station.
pub open spec fn has_platform_child(stops: Seq<StopRecord>, x: usize) -> bool {
    exists|j: int| 0 <= j < stops.len() && is_platform(#[trigger] stops[j]) && stops[j].parent == Some(x)
}

/// STP_030: a station (location_type 1) with a stop_id that no platform
/// names as its parent_station; entrances and other nodes do not count.
pub open spec fn spec_childless_station(stops: Seq<StopRecord>, s: StopRecord) -> bool {
    s.location_type == Some(1u32) && s.id is Some && !has_platform_child(stops, s.id->0)
}

fn platform(s: StopRecord) -> (r: bool)
    ensures
        r == is_platform(s),
{
    match s.location_type {
        None => true,
        Some(t) => t == 0,
    }
}

/// STP_020 for every stop, given the stop indices of all stop_times rows.
pub fn unused_stops(stops: &[StopRecord], used: &[usize], n: usize) -> (r: Vec<bool>)
    requires
        stops_indexed_below(stops@, n),
        forall|k: int| 0 <= k < used@.len() ==> #[trigger] used@[k] < n,
    ensures
        r@.len() == stops@.len(),
        forall|k: int| 0 <= k < stops@.len() ==> r@[k] == spec_unused_stop(#[trigger] stops@[k], used@),
{
    let present = occurring(used, n);
    let mut r: Vec<bool> = Vec::new();
    let mut k: usize = 0;
    while k < stops.len()
        invariant
            k <= stops.len(),
            stops_indexed_below(stops@, n),
            present@.len() == n,
            forall|x: int| 0 <= x < n ==> present@[x] == used@.contains(x as usize),
            r@.len() == k,
            forall|j: int| 0 <= j < k ==> r@[j] == spec_unused_stop(#[trigger] stops@[j], used@),
        decreases stops.len() - k,
    {
        let s = stops[k];
        proof {
            assert(stops@[k as int] == s);
        }
        let flagged = match s.id {
            Some(x) => platform(s) && !present[x],
            None => false,
        };
        r.push(flagged);
        k += 1;
    }
    r
}

/// STP_030 for every stop.
pub fn childless_stations(stops: &[StopRecord], n: usize) -> (r: Vec<bool>)
    requires
        stops_indexed_below(stops@, n),
    ensures
        r@.len() == stops@.len(),
        forall|k: int| 0 <= k < stops@.len() ==> r@[k] == spec_childless_station(stops@, #[trigger] stops@[k]),
{
    // The parents named by platforms.
    let mut parents: Vec<usize> = Vec::new();
    let mut j: usize = 0;
    while j < stops.len()
        invariant
            j <= stops.len(),
            stops_indexed_below(stops@, n),
            forall|q: int| 0 <= q < parents@.len() ==> #[trigger] parents@[q] < n,
            forall|x: usize| parents@.contains(x) <==> exists|i: int| 0 <= i < j && is_platform(#[trigger] stops@[i])
                && stops@[i].parent == Some(x),
        decreases stops.len() - j,
    {
        let s = stops[j];
        proof {
            assert(stops@[j as int] == s);
        }
        let ghost before = parents@;
        if platform(s) {
            match s.parent {
                Some(p) => {
                    parents.push(p);
                },
                None => {},
            }
        }
        proof {
            assert forall|x: usize| parents@.contains(x) <==> exists|i: int| 0 <= i < j + 1 && is_platform(#[trigger] stops@[i])
                && stops@[i].parent == Some(x) by {
                if parents@.contains(x) {
                    let q = choose|q: int| 0 <= q < parents@.len() && parents@[q] == x;
                    if q < before.len() {
                        assert(before[q] == x);
                        assert(before.contains(x));
                    } else {
                        assert(is_platform(stops@[j as int]) && stops@[j as int].parent == Some(x));
                    }
                }
                if exists|i: int| 0 <= i < j + 1 && is_platform(#[trigger] stops@[i]) && stops@[i].parent == Some(x) {
                    let i = choose|i: int| 0 <= i < j + 1 && is_platform(#[trigger] stops@[i]) && stops@[i].parent == Some(x);
                    if i < j {
                        assert(before.contains(x));
                        let q = choose|q: int| 0 <= q < before.len() && before[q] == x;
                        assert(parents@[q] == x);
                    } else {
                        assert(parents@[parents@.len() - 1] == x);
                    }
                }
            }
        }
        j += 1;
    }
    let present = occurring(&parents, n);
    let mut r: Vec<bool> = Vec::new();
    let mut k: usize = 0;
    while k < stops.len()
        invariant
            k <= stops.len(),
            stops_indexed_below(stops@, n),
            present@.len() == n,
            forall|x: int| 0 <= x < n ==> present@[x] == has_platform_child(stops@, x as usize),
            r@.len() == k,
            forall|i: int| 0 <= i < k ==> r@[i] == spec_childless_station(stops@, #[trigger] stops@[i]),
        decreases stops.len() - k,
    {
        let s = stops[k];
        proof {
            assert(stops@[k as int] == s);
        }
        let flagged = match s.id {
            Some(x) => s.location_type == Some(1u32) && !present[x],
            None => false,
        };
        r.push(flagged);
        k += 1;
    }
    r
}

/// DQ_010: the agency has an agency_id (`Some`, an index; an empty id still
/// counts) that no route's agency_id names.
pub open spec fn spec_unnamed_agency(agency: Option<usize>, route_agencies: Seq<Option<usize>>) -> bool {
    agency is Some && !route_agencies.contains(agency)
}

/// DQ_010 for every agency, given the agency_id index of every agency and
/// of every route (`None` where the column is absent).
pub fn unnamed_agencies(agencies: &[Option<usize>], route_agencies: &[Option<usize>], n: usize) -> (r: Vec<bool>)
    requires
        forall|k: int| 0 <= k < agencies@.len() && (#[trigger] agencies@[k]) is Some ==> agencies@[k]->0 < n,
        forall|k: int| 0 <= k < route_agencies@.len() && (#[trigger] route_agencies@[k]) is Some ==> route_agencies@[k]->0 < n,
    ensures
        r@.len() == agencies@.len(),
        forall|k: int| 0 <= k < agencies@.len() ==> r@[k] == spec_unnamed_agency(#[trigger] agencies@[k], route_agencies@),
{
    let mut named: Vec<usize> = Vec::new();
    let mut j: usize = 0;
    while j < route_agencies.len()
        invariant
            j <= route_agencies.len(),
            forall|k: int| 0 <= k < route_agencies@.len() && (#[trigger] route_agencies@[k]) is Some ==> route_agencies@[k]->0 < n,
            forall|q: int| 0 <= q < named@.len() ==> #[trigger] named@[q] < n,
            forall|x: usize| named@.contains(x) <==> route_agencies@.take(j as int).contains(Some(x)),
        decreases route_agencies.len() - j,
    {
        let ghost before = named@;
        let a = route_agencies[j];
        proof {
            assert(route_agencies@.take(j + 1) =~= route_agencies@.take(j as int).push(a));
        }
        match a {
            Some(x) => {
                named.push(x);
            },
            None => {},
        }
        proof {
            let pre = route_agencies@.take(j as int);
            let post = route_agencies@.take(j + 1);
            assert forall|x: usize| named@.contains(x) <==> post.contains(Some(x)) by {
                if named@.contains(x) {
                    let q = choose|q: int| 0 <= q < named@.len() && named@[q] == x;
                    if q < before.len() {
                        assert(before.contains(x));
                        let i = choose|i: int| 0 <= i < pre.len() && pre[i] == Some(x);
                        assert(post[i] == Some(x));
                    } else {
                        assert(post[j as int] == Some(x));
                    }
                }
                if post.contains(Some(x)) {
                    let i = choose|i: int| 0 <= i < post.len() && post[i] == Some(x);
                    if i < j {
                        assert(pre[i] == Some(x));
                        assert(before.contains(x));
                        let q = choose|q: int| 0 <= q < before.len() && before[q] == x;
                        assert(named@[q] == x);
                    } else {
                        assert(named@[named@.len() - 1] == x);
                    }
                }
            }
        }
        j += 1;
    }
    proof {
        assert(route_agencies@.take(route_agencies@.len() as int) =~= route_agencies@);
    }
    let present = occurring(&named, n);
    let mut r: Vec<bool> = Vec::new();
    let mut k: usize = 0;
    while k < agencies.len()
        invariant
            k <= agencies.len(),
            forall|i: int| 0 <= i < agencies@.len() && (#[trigger] agencies@[i]) is Some ==> agencies@[i]->0 < n,
            present@.len() == n,
            forall|x: int| 0 <= x < n ==> present@[x] == route_agencies@.contains(Some(x as usize)),
            r@.len() == k,
            forall|i: int| 0 <= i < k ==> r@[i] == spec_unnamed_agency(#[trigger] agencies@[i], route_agencies@),
        decreases agencies.len() - k,
    {
        let a = agencies[k];
        proof {
            assert(agencies@[k as int] == a);
        }
        let flagged = match a {
            Some(x) => !present[x],
            None => false,
        };
        r.push(flagged);
        k += 1;
    }
    r
}

} // verus!
