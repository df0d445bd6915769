use vstd::prelude::*;
use crate::calendar::all_dates;
use crate::conflicts::{concat_dates, contains_sorted, lists_view};
use crate::headway::{distinct_sorted, is_distinct_sorted_of, strictly_increasing};
use crate::pathways::count_true;

verus! {

// VAT_001: routes that serve nearly the same stops.

/// What VAT_001 reads of a route.
#[derive(Debug, Clone)]
pub struct RouteProfile {
    /// Indices of the stops its trips serve (in any order, repeats allowed).
    pub stops: Vec<u32>,
    /// Its route_type, when given.
    pub route_type: Option<u32>,
    /// Active dates of each service its trips use.
    pub service_dates: Vec<Vec<u32>>,
}

/// Number of elements of `a` that `b` contains.
pub open spec fn common_count(a: Seq<u32>, b: Seq<u32>) -> nat
    decreases a.len(),
{
    if a.len() == 0 {
        0
    } else {
        common_count(a.drop_last(), b) + if b.contains(a.last()) { 1nat } else { 0nat }
    }
}

/// A route takes part in the comparison: at least five distinct stops and a
/// route_type.
pub open spec fn is_candidate(stops: Seq<u32>, route_type: Option<u32>) -> bool {
    stops.len() >= 5 && route_type is Some
}

/// Two date lists have a date in common.
pub open spec fn shares_day(a: Seq<u32>, b: Seq<u32>) -> bool {
    exists|d: u32| a.contains(d) && b.contains(d)
}

/// VAT_001 for two routes, given their distinct stops, route types and the
/// distinct active dates of their services: both take part, they have the same
/// route type, their stop sets have a Jaccard index of at least 85%
/// (`20 * common >= 17 * union`), and they are not known to run on disjoint
/// days (both have dates and no date in common).
pub open spec fn spec_near_duplicate(
    sa: Seq<u32>,
    ta: Option<u32>,
    da: Seq<u32>,
    sb: Seq<u32>,
    tb: Option<u32>,
    db: Seq<u32>,
) -> bool {
    let common = common_count(sa, sb);
    &&& is_candidate(sa, ta)
    &&& is_candidate(sb, tb)
    &&& ta == tb
    &&& 20 * common >= 17 * (sa.len() + sb.len() - common)
    &&& !(da.len() > 0 && db.len() > 0 && !shares_day(da, db))
}

/// Number of elements of `a` that the strictly increasing `b` contains.
fn count_common(a: &Vec<u32>, b: &Vec<u32>) -> (r: u64)
    requires
        strictly_increasing(b@),
    ensures
        r == common_count(a@, b@),
{
    let mut c: u64 = 0;
    let mut i: usize = 0;
    while i < a.len()
        invariant
            i <= a.len(),
            strictly_increasing(b@),
            c == common_count(a@.take(i as int), b@),
            c <= i,
        decreases a.len() - i,
    {
        proof {
            assert(a@.take(i + 1).drop_last() =~= a@.take(i as int));
        }
        if contains_sorted(b, a[i]) {
            c = c + 1;
        }
        i += 1;
    }
    assert(a@.take(a.len() as int) =~= a@);
    c
}

/// Whether two strictly increasing date lists share a date.
pub(crate) fn share_day(a: &Vec<u32>, b: &Vec<u32>) -> (r: bool)
    requires
        strictly_increasing(b@),
    ensures
        r == shares_day(a@, b@),
{
    let mut i: usize = 0;
    while i < a.len()
        invariant
            i <= a.len(),
            strictly_increasing(b@),
            forall|k: int| 0 <= k < i ==> !b@.contains(#[trigger] a@[k]),
        decreases a.len() - i,
    {
        if contains_sorted(b, a[i]) {
            proof {
                assert(a@.contains(a@[i as int]));
            }
            return true;
        }
        i += 1;
    }
    proof {
        assert forall|d: u32| !(a@.contains(d) && b@.contains(d)) by {
            if a@.contains(d) {
                let k = choose|k: int| 0 <= k < a@.len() && a@[k] == d;
            }
        }
    }
    false
}

fn copy_values(v: &Vec<u32>) -> (r: Vec<u32>)
    ensures
        r@ == v@,
{
    let mut r: Vec<u32> = Vec::new();
    let mut i: usize = 0;
    while i < v.len()
        invariant
            i <= v.len(),
            r@ == v@.take(i as int),
        decreases v.len() - i,
    {
        r.push(v[i]);
        proof {
            assert(r@ =~= v@.take(i + 1));
        }
        i += 1;
    }
    assert(v@.take(v.len() as int) =~= v@);
    r
}

/// The routes' flags of taking part in the comparison.
pub open spec fn candidate_flags(ds: Seq<Seq<u32>>, routes: Seq<RouteProfile>) -> Seq<bool> {
    Seq::new(routes.len(), |i: int| is_candidate(ds[i], routes[i].route_type))
}

/// The VAT_001 verdicts for `routes`, given the distinct stops `ds` and the
/// distinct service dates `dd` of each: `m[i][j]` for `i < j` when the two are
/// near duplicates; nothing is reported when more than 300 routes take part.
pub open spec fn spec_duplicate_matrix(
    ds: Seq<Seq<u32>>,
    dd: Seq<Seq<u32>>,
    routes: Seq<RouteProfile>,
    m: Seq<Seq<bool>>,
) -> bool {
    &&& m.len() == routes.len()
    &&& forall|i: int| 0 <= i < m.len() ==> (#[trigger] m[i]).len() == routes.len()
    &&& forall|i: int, j: int| 0 <= i < routes.len() && 0 <= j < routes.len() ==> #[trigger] m[i][j] == (
        count_true(candidate_flags(ds, routes)) <= 300 && i < j && spec_near_duplicate(
            ds[i], routes[i].route_type, dd[i], ds[j], routes[j].route_type, dd[j]))
}

/// VAT_001 over the routes: which pairs serve nearly the same stops.
pub fn duplicate_routes(routes: &Vec<RouteProfile>) -> (r: Vec<Vec<bool>>)
    requires
        routes@.len() < u64::MAX,
    ensures
        exists|ds: Seq<Seq<u32>>, dd: Seq<Seq<u32>>|
            ds.len() == routes@.len() && dd.len() == routes@.len()
            && (forall|i: int| 0 <= i < routes@.len() ==> is_distinct_sorted_of(#[trigger] ds[i], routes@[i].stops@))
            && (forall|i: int| 0 <= i < routes@.len() ==> is_distinct_sorted_of(#[trigger] dd[i],
                all_dates(lists_view(routes@[i].service_dates@))))
            && spec_duplicate_matrix(ds, dd, routes@, r.deep_view()),
{
    let n = routes.len();
    let mut stops: Vec<Vec<u32>> = Vec::new();
    let mut days: Vec<Vec<u32>> = Vec::new();
    let mut candidates: u64 = 0;
    let mut i: usize = 0;
    while i < n
        invariant
            i <= n,
            n == routes@.len(),
            n < u64::MAX,
            stops@.len() == i,
            days@.len() == i,
            forall|k: int| 0 <= k < i ==> is_distinct_sorted_of(#[trigger] stops@[k]@, routes@[k].stops@),
            forall|k: int| 0 <= k < i ==> is_distinct_sorted_of(#[trigger] days@[k]@,
                all_dates(lists_view(routes@[k].service_dates@))),
            candidates == count_true(candidate_flags(stops.deep_view(), routes@).take(i as int)),
            candidates <= i,
        decreases n - i,
    {
        let route = &routes[i];
        let s = distinct_sorted(copy_values(&route.stops));
        let d = distinct_sorted(concat_dates(&route.service_dates));
        let is_cand = s.len() >= 5 && route.route_type.is_some();
        let ghost old_stops = stops.deep_view();
        stops.push(s);
        days.push(d);
        proof {
            let flags_now = candidate_flags(stops.deep_view(), routes@);
            let flags_old = candidate_flags(old_stops, routes@);
            assert forall|k: int| 0 <= k < i implies flags_now[k] == flags_old[k] by {
                assert(stops.deep_view()[k] == old_stops[k]);
            }
            assert(flags_now.take(i + 1).drop_last() =~= flags_old.take(i as int));
            assert(flags_now[i as int] == is_cand);
        }
        if is_cand {
            candidates = candidates + 1;
        }
        i += 1;
    }
    assert(candidate_flags(stops.deep_view(), routes@).take(n as int) =~= candidate_flags(stops.deep_view(), routes@));
    let report = candidates <= 300;
    let mut r: Vec<Vec<bool>> = Vec::new();
    let mut a: usize = 0;
    while a < n
        invariant
            a <= n,
            n == routes@.len(),
            stops@.len() == n,
            days@.len() == n,
            forall|k: int| 0 <= k < n ==> is_distinct_sorted_of(#[trigger] stops@[k]@, routes@[k].stops@),
            forall|k: int| 0 <= k < n ==> is_distinct_sorted_of(#[trigger] days@[k]@,
                all_dates(lists_view(routes@[k].service_dates@))),
            report == (count_true(candidate_flags(stops.deep_view(), routes@)) <= 300),
            r@.len() == a,
            forall|x: int| 0 <= x < a ==> (#[trigger] r@[x])@.len() == n,
            forall|x: int, y: int| 0 <= x < a && 0 <= y < n ==> #[trigger] r@[x]@[y] == (report && x < y
                && spec_near_duplicate(stops@[x]@, routes@[x].route_type, days@[x]@, stops@[y]@,
                    routes@[y].route_type, days@[y]@)),
        decreases n - a,
    {
        let mut row: Vec<bool> = Vec::new();
        let mut b: usize = 0;
        while b < n
            invariant
                a < n,
                b <= n,
                n == routes@.len(),
                stops@.len() == n,
                days@.len() == n,
                forall|k: int| 0 <= k < n ==> is_distinct_sorted_of(#[trigger] stops@[k]@, routes@[k].stops@),
                forall|k: int| 0 <= k < n ==> is_distinct_sorted_of(#[trigger] days@[k]@,
                    all_dates(lists_view(routes@[k].service_dates@))),
                row@.len() == b,
                forall|y: int| 0 <= y < b ==> #[trigger] row@[y] == (report && a < y
                    && spec_near_duplicate(stops@[a as int]@, routes@[a as int].route_type, days@[a as int]@,
                        stops@[y]@, routes@[y].route_type, days@[y]@)),
            decreases n - b,
        {
            let mut dup = false;
            if report && a < b {
                let sa = &stops[a];
                let sb = &stops[b];
                let ta = routes[a].route_type;
                let tb = routes[b].route_type;
                if sa.len() >= 5 && sb.len() >= 5 && ta.is_some() && ta == tb {
                    let common = count_common(sa, sb);
                    proof {
                        lemma_common_bound(sa@, sb@);
                    }
                    let union: u128 = sa.len() as u128 + sb.len() as u128 - common as u128;
                    if 20 * (common as u128) >= 17 * union {
                        let da = &days[a];
                        let db = &days[b];
                        let disjoint = da.len() > 0 && db.len() > 0 && !share_day(da, db);
                        dup = !disjoint;
                    }
                }
            }
            row.push(dup);
            b += 1;
        }
        r.push(row);
        a += 1;
    }
    proof {
        let m = r.deep_view();
        assert forall|x: int| 0 <= x < m.len() implies (#[trigger] m[x]).len() == n by {
            assert(m[x] == r@[x]@);
        }
        assert forall|x: int, y: int| 0 <= x < n && 0 <= y < n implies #[trigger] m[x][y] == (
            count_true(candidate_flags(stops.deep_view(), routes@)) <= 300 && x < y && spec_near_duplicate(
                stops.deep_view()[x], routes@[x].route_type, days.deep_view()[x], stops.deep_view()[y],
                routes@[y].route_type, days.deep_view()[y])) by {
            assert(m[x] == r@[x]@);
            assert(stops.deep_view()[x] == stops@[x]@);
            assert(stops.deep_view()[y] == stops@[y]@);
            assert(days.deep_view()[x] == days@[x]@);
            assert(days.deep_view()[y] == days@[y]@);
        }
        assert forall|k: int| 0 <= k < n implies is_distinct_sorted_of(#[trigger] stops.deep_view()[k], routes@[k].stops@) by {
            assert(stops.deep_view()[k] == stops@[k]@);
        }
        assert forall|k: int| 0 <= k < n implies is_distinct_sorted_of(#[trigger] days.deep_view()[k],
            all_dates(lists_view(routes@[k].service_dates@))) by {
            assert(days.deep_view()[k] == days@[k]@);
        }
        assert(stops.deep_view().len() == n && days.deep_view().len() == n);
        assert(spec_duplicate_matrix(stops.deep_view(), days.deep_view(), routes@, m));
    }
    r
}

/// At most every element of `a` is in common.
proof fn lemma_common_bound(a: Seq<u32>, b: Seq<u32>)
    ensures
        common_count(a, b) <= a.len(),
    decreases a.len(),
{
    if a.len() > 0 {
        lemma_common_bound(a.drop_last(), b);
    }
}

/// `common_count(a, ·)` depends only on which elements of `a` the second list holds.
proof fn lemma_common_same_members(a: Seq<u32>, b: Seq<u32>, c: Seq<u32>)
    requires
        forall|k: int| 0 <= k < a.len() ==> b.contains(#[trigger] a[k]) == c.contains(a[k]),
    ensures
        common_count(a, b) == common_count(a, c),
    decreases a.len(),
{
    if a.len() > 0 {
        let t = a.drop_last();
        assert forall|k: int| 0 <= k < t.len() implies b.contains(#[trigger] t[k]) == c.contains(t[k]) by {
            assert(t[k] == a[k]);
        }
        lemma_common_same_members(t, b, c);
        assert(a.last() == a[a.len() - 1]);
    }
}

/// The number of common elements of two strictly increasing lists does not
/// depend on their order.
proof fn lemma_common_symmetric(a: Seq<u32>, b: Seq<u32>)
    requires
        strictly_increasing(a),
        strictly_increasing(b),
    ensures
        common_count(a, b) == common_count(b, a),
    decreases a.len() + b.len(),
{
    if a.len() == 0 {
        lemma_common_same_members(b, a, Seq::empty());
        lemma_common_none(b);
    } else if b.len() == 0 {
        lemma_common_same_members(a, b, Seq::empty());
        lemma_common_none(a);
    } else {
        let a2 = a.drop_last();
        let b2 = b.drop_last();
        let x = a.last();
        let y = b.last();
        assert(strictly_increasing(a2));
        assert(strictly_increasing(b2));
        if x == y {
            assert forall|k: int| 0 <= k < a2.len() implies b.contains(#[trigger] a2[k]) == b2.contains(a2[k]) by {
                assert(a2[k] < x);
                if b.contains(a2[k]) {
                    let j = choose|j: int| 0 <= j < b.len() && b[j] == a2[k];
                    assert(j != b.len() - 1);
                    assert(b2[j] == a2[k]);
                }
                if b2.contains(a2[k]) {
                    let j = choose|j: int| 0 <= j < b2.len() && b2[j] == a2[k];
                    assert(b[j] == a2[k]);
                }
            }
            lemma_common_same_members(a2, b, b2);
            assert forall|k: int| 0 <= k < b2.len() implies a.contains(#[trigger] b2[k]) == a2.contains(b2[k]) by {
                assert(b2[k] < y);
                if a.contains(b2[k]) {
                    let j = choose|j: int| 0 <= j < a.len() && a[j] == b2[k];
                    assert(j != a.len() - 1);
                    assert(a2[j] == b2[k]);
                }
                if a2.contains(b2[k]) {
                    let j = choose|j: int| 0 <= j < a2.len() && a2[j] == b2[k];
                    assert(a[j] == b2[k]);
                }
            }
            lemma_common_same_members(b2, a, a2);
            assert(b.contains(x)) by {
                assert(b[b.len() - 1] == x);
            }
            assert(a.contains(y)) by {
                assert(a[a.len() - 1] == y);
            }
            lemma_common_symmetric(a2, b2);
        } else if x > y {
            assert(!b.contains(x)) by {
                if b.contains(x) {
                    let j = choose|j: int| 0 <= j < b.len() && b[j] == x;
                    if j < b.len() - 1 {
                        assert(b[j] < b[b.len() - 1]);
                    }
                }
            }
            assert forall|k: int| 0 <= k < b.len() implies a.contains(#[trigger] b[k]) == a2.contains(b[k]) by {
                if k < b.len() - 1 {
                    assert(b[k] < b[b.len() - 1]);
                }
                if a.contains(b[k]) {
                    let j = choose|j: int| 0 <= j < a.len() && a[j] == b[k];
                    assert(j != a.len() - 1);
                    assert(a2[j] == b[k]);
                }
                if a2.contains(b[k]) {
                    let j = choose|j: int| 0 <= j < a2.len() && a2[j] == b[k];
                    assert(a[j] == b[k]);
                }
            }
            lemma_common_same_members(b, a, a2);
            lemma_common_symmetric(a2, b);
        } else {
            assert(!a.contains(y)) by {
                if a.contains(y) {
                    let j = choose|j: int| 0 <= j < a.len() && a[j] == y;
                    if j < a.len() - 1 {
                        assert(a[j] < a[a.len() - 1]);
                    }
                }
            }
            assert forall|k: int| 0 <= k < a.len() implies b.contains(#[trigger] a[k]) == b2.contains(a[k]) by {
                if k < a.len() - 1 {
                    assert(a[k] < a[a.len() - 1]);
                }
                if b.contains(a[k]) {
                    let j = choose|j: int| 0 <= j < b.len() && b[j] == a[k];
                    assert(j != b.len() - 1);
                    assert(b2[j] == a[k]);
                }
                if b2.contains(a[k]) {
                    let j = choose|j: int| 0 <= j < b2.len() && b2[j] == a[k];
                    assert(b[j] == a[k]);
                }
            }
            lemma_common_same_members(a, b, b2);
            lemma_common_symmetric(a, b2);
        }
    }
}

/// Nothing is in common with the empty list.
proof fn lemma_common_none(a: Seq<u32>)
    ensures
        common_count(a, Seq::empty()) == 0,
    decreases a.len(),
{
    if a.len() > 0 {
        lemma_common_none(a.drop_last());
    }
}

/// Being near duplicates does not depend on which of the two routes comes
/// first.
pub proof fn law_near_duplicate_is_symmetric(
    sa: Seq<u32>,
    ta: Option<u32>,
    da: Seq<u32>,
    sb: Seq<u32>,
    tb: Option<u32>,
    db: Seq<u32>,
)
    requires
        strictly_increasing(sa),
        strictly_increasing(sb),
    ensures
        spec_near_duplicate(sa, ta, da, sb, tb, db) == spec_near_duplicate(sb, tb, db, sa, ta, da),
{
    lemma_common_symmetric(sa, sb);
}

/// Only routes of one route type are ever reported as near duplicates, and
/// exactly these pairs are: `(i, j)` is reported if and only if `i < j`, at
/// most 300 routes take part, both routes have a route type and it is the
/// same, each serves at least five distinct stops, their stop sets overlap by
/// at least 85% (Jaccard: `20 * common >= 17 * union`), and they do not run
/// on known, disjoint sets of days.
pub proof fn law_duplicates_share_route_type(
    ds: Seq<Seq<u32>>,
    dd: Seq<Seq<u32>>,
    routes: Seq<RouteProfile>,
    m: Seq<Seq<bool>>,
    i: int,
    j: int,
)
    requires
        spec_duplicate_matrix(ds, dd, routes, m),
        0 <= i < routes.len(),
        0 <= j < routes.len(),
    ensures
        m[i][j] ==> routes[i].route_type is Some && routes[i].route_type == routes[j].route_type,
        m[i][j] <==> {
            let common = common_count(ds[i], ds[j]);
            &&& i < j
            &&& count_true(candidate_flags(ds, routes)) <= 300
            &&& routes[i].route_type is Some
            &&& routes[i].route_type == routes[j].route_type
            &&& ds[i].len() >= 5
            &&& ds[j].len() >= 5
            &&& 20 * common >= 17 * (ds[i].len() + ds[j].len() - common)
            &&& !(dd[i].len() > 0 && dd[j].len() > 0 && !(exists|d: u32| dd[i].contains(d) && dd[j].contains(d)))
        },
{
    assert(m[i][j] == (count_true(candidate_flags(ds, routes)) <= 300 && i < j && spec_near_duplicate(
        ds[i], routes[i].route_type, dd[i], ds[j], routes[j].route_type, dd[j])));
}

} // verus!
