use vstd::prelude::*;
use crate::headway::strictly_increasing;
use crate::trips::{block_route_types, carries, value_set};

verus! {

// VAT_002 (a stop served by many routes) and VAT_007 (a stop where many
// routes start or end): the distinct routes at every stop.

/// A trip's route and the stops it calls at, in order.
#[derive(Debug, Clone)]
pub struct RouteTrip {
    pub route: u32,
    pub stops: Vec<usize>,
}

/// The stops of a trip that count: all of them, or only its first and (for a
/// trip of two or more stops) its last.
pub open spec fn counted_stops(stops: Seq<usize>, terminals: bool) -> Seq<usize> {
    if !terminals {
        stops
    } else if stops.len() == 0 {
        Seq::empty()
    } else if stops.len() == 1 {
        seq![stops[0]]
    } else {
        seq![stops[0], stops.last()]
    }
}

/// Some trip of route `r` counts stop `s`.
pub open spec fn serves(trips: Seq<RouteTrip>, terminals: bool, r: u32, s: usize) -> bool {
    exists|j: int| 0 <= j < trips.len() && (#[trigger] trips[j]).route == r
        && counted_stops(trips[j].stops@, terminals).contains(s)
}

/// Every stop of every trip is below `n`.
pub open spec fn stops_below(trips: Seq<RouteTrip>, n: usize) -> bool {
    forall|j: int, k: int| 0 <= j < trips.len() && 0 <= k < trips[j].stops@.len() ==> #[trigger] trips[j].stops@[k] < n
}

fn counted(stops: &Vec<usize>, terminals: bool) -> (r: Vec<usize>)
    ensures
        r@ == counted_stops(stops@, terminals),
{
    if !terminals {
        return stops.clone();
    }
    let mut r: Vec<usize> = Vec::new();
    if stops.len() >= 1 {
        r.push(stops[0]);
    }
    if stops.len() >= 2 {
        r.push(stops[stops.len() - 1]);
    }
    proof {
        if stops@.len() == 1 {
            assert(r@ =~= seq![stops@[0]]);
        } else if stops@.len() >= 2 {
            assert(r@ =~= seq![stops@[0], stops@.last()]);
        } else {
            assert(r@ =~= Seq::<usize>::empty());
        }
    }
    r
}

/// One (stop, route) pair for every counted stop of every trip.
fn visit_pairs(trips: &[RouteTrip], n_stops: usize, terminals: bool) -> (r: Vec<(Option<usize>, Option<u32>)>)
    requires
        stops_below(trips@, n_stops),
    ensures
        forall|k: int| 0 <= k < r@.len() ==> (#[trigger] r@[k]).0 is Some && r@[k].1 is Some && r@[k].0->0 < n_stops,
        forall|s: usize, x: u32| #[trigger] r@.contains((Some(s), Some(x))) <==> serves(trips@, terminals, x, s),
{
    let mut r: Vec<(Option<usize>, Option<u32>)> = Vec::new();
    let mut j: usize = 0;
    while j < trips.len()
        invariant
            j <= trips.len(),
            stops_below(trips@, n_stops),
            forall|k: int| 0 <= k < r@.len() ==> (#[trigger] r@[k]).0 is Some && r@[k].1 is Some && r@[k].0->0 < n_stops,
            forall|s: usize, x: u32| #[trigger] r@.contains((Some(s), Some(x))) <==> serves(trips@.take(j as int), terminals, x, s),
        decreases trips.len() - j,
    {
        let t = &trips[j];
        let vs = counted(&t.stops, terminals);
        let route = t.route;
        let ghost before = trips@.take(j as int);
        let ghost after = trips@.take(j + 1);
        let ghost r0 = r@;
        proof {
            assert(after =~= before.push(trips@[j as int]));
            assert forall|m: int| 0 <= m < vs@.len() implies #[trigger] vs@[m] < n_stops by {
                if terminals && m == 1 {
                    assert(vs@[m] == t.stops@[t.stops@.len() - 1]);
                }
            }
        }
        let mut m: usize = 0;
        while m < vs.len()
            invariant
                m <= vs@.len(),
                forall|q: int| 0 <= q < vs@.len() ==> #[trigger] vs@[q] < n_stops,
                r@.len() >= r0.len(),
                forall|k: int| 0 <= k < r0.len() ==> r@[k] == r0[k],
                forall|k: int| 0 <= k < r@.len() ==> (#[trigger] r@[k]).0 is Some && r@[k].1 is Some && r@[k].0->0 < n_stops,
                forall|s: usize, x: u32| #[trigger] r@.contains((Some(s), Some(x))) <==> (r0.contains((Some(s), Some(x)))
                    || (x == route && vs@.take(m as int).contains(s))),
            decreases vs@.len() - m,
        {
            let ghost r1 = r@;
            r.push((Some(vs[m]), Some(route)));
            proof {
                assert(vs@.take(m + 1) =~= vs@.take(m as int).push(vs@[m as int]));
                assert forall|s: usize, x: u32| #[trigger] r@.contains((Some(s), Some(x))) <==> (r0.contains((Some(s), Some(x)))
                    || (x == route && vs@.take(m + 1).contains(s))) by {
                    if r@.contains((Some(s), Some(x))) {
                        let k = choose|k: int| 0 <= k < r@.len() && r@[k] == (Some(s), Some(x));
                        if k < r1.len() {
                            assert(r1[k] == r@[k]);
                            assert(r1.contains((Some(s), Some(x))));
                            if !r0.contains((Some(s), Some(x))) {
                                let q = choose|q: int| 0 <= q < vs@.take(m as int).len() && #[trigger] vs@.take(m as int)[q] == s;
                                assert(vs@.take(m + 1)[q] == s);
                            }
                        } else {
                            assert(vs@.take(m + 1)[m as int] == s);
                        }
                    }
                    if r0.contains((Some(s), Some(x))) {
                        let k = choose|k: int| 0 <= k < r0.len() && r0[k] == (Some(s), Some(x));
                        assert(r@[k] == r0[k]);
                    }
                    if x == route && vs@.take(m + 1).contains(s) {
                        let q = choose|q: int| 0 <= q < vs@.take(m + 1).len() && #[trigger] vs@.take(m + 1)[q] == s;
                        if q < m {
                            assert(vs@.take(m as int)[q] == s);
                            assert(r1.contains((Some(s), Some(x))));
                            let k = choose|k: int| 0 <= k < r1.len() && r1[k] == (Some(s), Some(x));
                            assert(r@[k] == r1[k]);
                        } else {
                            assert(r@[r1.len() as int] == (Some(s), Some(x)));
                        }
                    }
                }
            }
            m += 1;
        }
        proof {
            assert(vs@.take(vs@.len() as int) =~= vs@);
            assert forall|s: usize, x: u32| #[trigger] r@.contains((Some(s), Some(x))) <==> serves(after, terminals, x, s) by {
                if serves(after, terminals, x, s) {
                    let q = choose|q: int| 0 <= q < after.len() && (#[trigger] after[q]).route == x
                        && counted_stops(after[q].stops@, terminals).contains(s);
                    if q < before.len() {
                        assert(before[q] == after[q]);
                        assert(serves(before, terminals, x, s));
                    }
                }
                if serves(before, terminals, x, s) {
                    let q = choose|q: int| 0 <= q < before.len() && (#[trigger] before[q]).route == x
                        && counted_stops(before[q].stops@, terminals).contains(s);
                    assert(after[q] == before[q]);
                }
                if x == route && vs@.contains(s) {
                    assert(after[j as int] == trips@[j as int]);
                    assert(serves(after, terminals, x, s));
                }
            }
        }
        j += 1;
    }
    proof {
        assert(trips@.take(trips@.len() as int) =~= trips@);
    }
    r
}

/// For every stop `0..n_stops`, the distinct routes that count it (all
/// calls for VAT_002, first and last calls for VAT_007), ascending.
pub fn routes_at_stops(trips: &[RouteTrip], n_stops: usize, terminals: bool) -> (r: Vec<Vec<u32>>)
    requires
        stops_below(trips@, n_stops),
    ensures
        r@.len() == n_stops,
        forall|s: int| 0 <= s < n_stops ==> strictly_increasing((#[trigger] r@[s])@),
        forall|s: int, x: u32| 0 <= s < n_stops ==> (#[trigger] r@[s]@.contains(x) <==> serves(trips@, terminals, x, s as usize)),
{
    let pairs = visit_pairs(trips, n_stops, terminals);
    let r = block_route_types(&pairs, n_stops);
    proof {
        assert forall|s: int, x: u32| 0 <= s < n_stops implies (#[trigger] r@[s]@.contains(x) <==> serves(trips@, terminals, x, s as usize)) by {
            if value_set(pairs@, s as usize).contains(x) {
                let k = choose|k: int| 0 <= k < pairs@.len() && #[trigger] carries(pairs@, s as usize, k) && pairs@[k].1 == Some(x);
                assert(pairs@[k] == (Some(s as usize), Some(x)));
                assert(pairs@.contains((Some(s as usize), Some(x))));
            }
            if serves(trips@, terminals, x, s as usize) {
                assert(pairs@.contains((Some(s as usize), Some(x))));
                let k = choose|k: int| 0 <= k < pairs@.len() && pairs@[k] == (Some(s as usize), Some(x));
                assert(carries(pairs@, s as usize, k));
                assert(value_set(pairs@, s as usize).contains(x));
            }
        }
    }
    r
}

/// A calendar.txt row: its service (by index) and its seven day columns,
/// Monday first (`Some(1)` when the service runs that day).
#[derive(Debug, Clone, Copy)]
pub struct CalendarWeek {
    pub service: usize,
    pub days: [Option<u32>; 7],
}

/// The row runs on some day from Monday to Friday.
pub open spec fn runs_weekdays(days: Seq<Option<u32>>) -> bool {
    exists|i: int| 0 <= i < 5 && #[trigger] days[i] == Some(1u32)
}

/// The row runs on Saturday or Sunday.
pub open spec fn runs_weekends(days: Seq<Option<u32>>) -> bool {
    exists|i: int| 5 <= i < 7 && #[trigger] days[i] == Some(1u32)
}

/// Whether service `s` runs on weekdays and on weekends, by its last
/// calendar row (`None` without one).
pub open spec fn service_week(cals: Seq<CalendarWeek>, s: usize) -> Option<(bool, bool)>
    decreases cals.len(),
{
    if cals.len() == 0 {
        None
    } else if cals.last().service == s {
        Some((runs_weekdays(cals.last().days@), runs_weekends(cals.last().days@)))
    } else {
        service_week(cals.drop_last(), s)
    }
}

/// The service of a trip runs on weekdays (`weekend == false`) or on
/// weekends (`weekend == true`).
pub open spec fn runs_in(week: Option<(bool, bool)>, weekend: bool) -> bool {
    match week {
        Some((wd, we)) => if weekend { we } else { wd },
        None => false,
    }
}

/// The trips of route `r` (trips are (route, service) pairs) whose service
/// runs on weekdays, or on weekends.
pub open spec fn week_trips(trips: Seq<(usize, usize)>, cals: Seq<CalendarWeek>, r: usize, weekend: bool) -> nat
    decreases trips.len(),
{
    if trips.len() == 0 {
        0
    } else {
        week_trips(trips.drop_last(), cals, r, weekend) + if trips.last().0 == r
            && runs_in(service_week(cals, trips.last().1), weekend) { 1nat } else { 0nat }
    }
}

fn day_runs(days: &[Option<u32>; 7], from: usize, to: usize) -> (r: bool)
    requires
        from <= to <= 7,
    ensures
        r == exists|i: int| from <= i < to && #[trigger] days@[i] == Some(1u32),
{
    let mut i: usize = from;
    while i < to
        invariant
            from <= i <= to <= 7,
            forall|k: int| from <= k < i ==> #[trigger] days@[k] != Some(1u32),
        decreases to - i,
    {
        if days[i] == Some(1u32) {
            return true;
        }
        i += 1;
    }
    false
}

proof fn lemma_week_trips_bound(trips: Seq<(usize, usize)>, cals: Seq<CalendarWeek>, r: usize, weekend: bool)
    ensures
        week_trips(trips, cals, r, weekend) <= trips.len(),
    decreases trips.len(),
{
    if trips.len() > 0 {
        lemma_week_trips_bound(trips.drop_last(), cals, r, weekend);
    }
}

/// VAT_004 counts: for every route `0..n_routes`, its trips whose service
/// runs on weekdays and its trips whose service runs on weekends, by the
/// services' calendar rows (the last row of a service counts).
pub fn week_trip_counts(trips: &[(usize, usize)], cals: &[CalendarWeek], n_routes: usize, n_services: usize) -> (r: Vec<(usize, usize)>)
    requires
        forall|j: int| 0 <= j < trips@.len() ==> (#[trigger] trips@[j]).0 < n_routes && trips@[j].1 < n_services,
        forall|c: int| 0 <= c < cals@.len() ==> (#[trigger] cals@[c]).service < n_services,
    ensures
        r@.len() == n_routes,
        forall|x: int| 0 <= x < n_routes ==> (#[trigger] r@[x]).0 == week_trips(trips@, cals@, x as usize, false)
            && r@[x].1 == week_trips(trips@, cals@, x as usize, true),
{
    let mut week: Vec<Option<(bool, bool)>> = Vec::new();
    let mut k: usize = 0;
    while k < n_services
        invariant
            k <= n_services,
            week@.len() == k,
            forall|s: int| 0 <= s < k ==> week@[s] is None,
        decreases n_services - k,
    {
        week.push(None);
        k += 1;
    }
    let mut c: usize = 0;
    while c < cals.len()
        invariant
            c <= cals.len(),
            week@.len() == n_services,
            forall|q: int| 0 <= q < cals@.len() ==> (#[trigger] cals@[q]).service < n_services,
            forall|s: int| 0 <= s < n_services ==> #[trigger] week@[s] == service_week(cals@.take(c as int), s as usize),
        decreases cals.len() - c,
    {
        let row = cals[c];
        let wd = day_runs(&row.days, 0, 5);
        let we = day_runs(&row.days, 5, 7);
        proof {
            assert(cals@.take(c + 1).drop_last() =~= cals@.take(c as int));
            assert(cals@.take(c + 1).last() == row);
        }
        week.set(row.service, Some((wd, we)));
        c += 1;
    }
    proof {
        assert(cals@.take(cals@.len() as int) =~= cals@);
    }
    let mut r: Vec<(usize, usize)> = Vec::new();
    let mut k: usize = 0;
    while k < n_routes
        invariant
            k <= n_routes,
            r@.len() == k,
            forall|x: int| 0 <= x < k ==> r@[x] == (0usize, 0usize),
        decreases n_routes - k,
    {
        r.push((0, 0));
        k += 1;
    }
    let mut j: usize = 0;
    while j < trips.len()
        invariant
            j <= trips.len(),
            r@.len() == n_routes,
            week@.len() == n_services,
            forall|q: int| 0 <= q < trips@.len() ==> (#[trigger] trips@[q]).0 < n_routes && trips@[q].1 < n_services,
            forall|s: int| 0 <= s < n_services ==> #[trigger] week@[s] == service_week(cals@, s as usize),
            forall|x: int| 0 <= x < n_routes ==> (#[trigger] r@[x]).0 == week_trips(trips@.take(j as int), cals@, x as usize, false)
                && r@[x].1 == week_trips(trips@.take(j as int), cals@, x as usize, true),
        decreases trips.len() - j,
    {
        let (route, service) = trips[j];
        proof {
            assert(trips@.take(j + 1).drop_last() =~= trips@.take(j as int));
            assert(trips@.take(j + 1).last() == (route, service));
            lemma_week_trips_bound(trips@.take(j as int), cals@, route, false);
            lemma_week_trips_bound(trips@.take(j as int), cals@, route, true);
        }
        let (wd, we) = match week[service] {
            Some(f) => f,
            None => (false, false),
        };
        let (a, b) = r[route];
        let a2 = if wd { a + 1 } else { a };
        let b2 = if we { b + 1 } else { b };
        r.set(route, (a2, b2));
        j += 1;
    }
    proof {
        assert(trips@.take(trips@.len() as int) =~= trips@);
    }
    r
}

/// A route that starts or ends at a stop also serves it: the terminal
/// routes of a stop (VAT_007) are among its routes (VAT_002).
pub proof fn law_terminal_routes_serve(trips: Seq<RouteTrip>, r: u32, s: usize)
    requires
        serves(trips, true, r, s),
    ensures
        serves(trips, false, r, s),
{
    let j = choose|j: int| 0 <= j < trips.len() && (#[trigger] trips[j]).route == r
        && counted_stops(trips[j].stops@, true).contains(s);
    let st = trips[j].stops@;
    let c = counted_stops(st, true);
    let q = choose|q: int| 0 <= q < c.len() && c[q] == s;
    if q == 0 {
        assert(st[0] == s);
    } else {
        assert(st[st.len() - 1] == s);
    }
    assert(counted_stops(st, false).contains(s));
}

} // verus!
