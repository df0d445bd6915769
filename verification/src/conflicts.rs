use vstd::prelude::*;
use crate::calendar::all_dates;
use crate::headway::{distinct_sorted, is_distinct_sorted_of, strictly_increasing};
use crate::report::{is_pattern_summary, join, summarize_patterns, summary_text};

verus! {

// OPR_019 / OPR_020: days on which more than one of a route's services runs.

/// Whether `x` is in the strictly increasing list `v` (binary search).
pub fn contains_sorted(v: &Vec<u32>, x: u32) -> (r: bool)
    requires
        strictly_increasing(v@),
    ensures
        r == v@.contains(x),
{
    let mut lo: usize = 0;
    let mut hi: usize = v.len();
    while lo < hi
        invariant
            lo <= hi <= v.len(),
            strictly_increasing(v@),
            forall|k: int| 0 <= k < lo ==> v@[k] < x,
            forall|k: int| hi <= k < v.len() ==> v@[k] > x,
        decreases hi - lo,
    {
        let mid = lo + (hi - lo) / 2;
        if v[mid] == x {
            assert(v@[mid as int] == x);
            return true;
        } else if v[mid] < x {
            lo = mid + 1;
        } else {
            hi = mid;
        }
    }
    assert forall|k: int| 0 <= k < v@.len() implies v@[k] != x by {}
    false
}

/// Indices, ascending, of the services active on `d`.
pub open spec fn active_services(services: Seq<Seq<u32>>, d: u32) -> Seq<usize>
    decreases services.len(),
{
    if services.len() == 0 {
        Seq::empty()
    } else {
        let rest = active_services(services.drop_last(), d);
        if services.last().contains(d) { rest.push((services.len() - 1) as usize) } else { rest }
    }
}

/// One of the services `svcs` has a calendar_dates.txt exception (added or
/// removed) on `d`.
pub open spec fn has_exception(added: Seq<Seq<u32>>, removed: Seq<Seq<u32>>, svcs: Seq<usize>, d: u32) -> bool {
    exists|k: int| 0 <= k < svcs.len() && (added[#[trigger] svcs[k] as int].contains(d) || removed[svcs[k] as int].contains(d))
}

/// The days among `dates` (in their order) on which at least two services
/// run, with those services, keeping the days whose exception status is `exc`.
pub open spec fn spec_conflicts(
    dates: Seq<u32>,
    services: Seq<Seq<u32>>,
    added: Seq<Seq<u32>>,
    removed: Seq<Seq<u32>>,
    exc: bool,
) -> Seq<(u32, Seq<usize>)>
    decreases dates.len(),
{
    if dates.len() == 0 {
        Seq::empty()
    } else {
        let rest = spec_conflicts(dates.drop_last(), services, added, removed, exc);
        let d = dates.last();
        let a = active_services(services, d);
        if a.len() >= 2 && has_exception(added, removed, a, d) == exc { rest.push((d, a)) } else { rest }
    }
}

/// A day on which several services of a route run.
#[derive(Debug, Clone)]
pub struct ConflictDay {
    pub date: u32,
    /// The services active that day, as indices into the route's service list.
    pub services: Vec<usize>,
}

/// The days as (date, services) pairs.
pub open spec fn days_view(days: Seq<ConflictDay>) -> Seq<(u32, Seq<usize>)> {
    days.map_values(|c: ConflictDay| (c.date, c.services@))
}

/// The date lists of a list of services, each strictly increasing.
pub open spec fn all_sorted(s: Seq<Seq<u32>>) -> bool {
    forall|i: int| 0 <= i < s.len() ==> strictly_increasing(#[trigger] s[i])
}

/// The view of a list of date vectors.
pub open spec fn lists_view(v: Seq<Vec<u32>>) -> Seq<Seq<u32>> {
    v.map_values(|x: Vec<u32>| x@)
}

pub(crate) fn concat_dates(services: &Vec<Vec<u32>>) -> (r: Vec<u32>)
    ensures
        r@ == all_dates(lists_view(services@)),
{
    let ghost sv = lists_view(services@);
    let mut all: Vec<u32> = Vec::new();
    let mut i: usize = 0;
    while i < services.len()
        invariant
            i <= services.len(),
            sv == lists_view(services@),
            all@ == all_dates(sv.take(i as int)),
        decreases services.len() - i,
    {
        let v = &services[i];
        let ghost base = all@;
        let mut j: usize = 0;
        while j < v.len()
            invariant
                j <= v.len(),
                all@ == base + v@.take(j as int),
            decreases v.len() - j,
        {
            all.push(v[j]);
            proof {
                assert(v@.take(j + 1) =~= v@.take(j as int).push(v@[j as int]));
            }
            j += 1;
        }
        proof {
            assert(v@.take(v.len() as int) =~= v@);
            assert(sv.take(i + 1).drop_last() =~= sv.take(i as int));
            assert(sv[i as int] == v@);
        }
        i += 1;
    }
    assert(sv.take(services.len() as int) =~= sv);
    all
}

/// The services (indices, ascending) active on `d`.
fn services_on(services: &Vec<Vec<u32>>, d: u32) -> (r: Vec<usize>)
    requires
        all_sorted(lists_view(services@)),
    ensures
        r@ == active_services(lists_view(services@), d),
{
    let ghost sv = lists_view(services@);
    let mut r: Vec<usize> = Vec::new();
    let mut i: usize = 0;
    while i < services.len()
        invariant
            i <= services.len(),
            sv == lists_view(services@),
            all_sorted(sv),
            r@ == active_services(sv.take(i as int), d),
        decreases services.len() - i,
    {
        proof {
            assert(sv.take(i + 1).drop_last() =~= sv.take(i as int));
            assert(sv[i as int] == services@[i as int]@);
        }
        if contains_sorted(&services[i], d) {
            r.push(i);
        }
        i += 1;
    }
    assert(sv.take(services.len() as int) =~= sv);
    r
}

/// Whether one of the services `svcs` has an exception on `d`.
fn exception_on(added: &Vec<Vec<u32>>, removed: &Vec<Vec<u32>>, svcs: &Vec<usize>, d: u32) -> (r: bool)
    requires
        all_sorted(lists_view(added@)),
        all_sorted(lists_view(removed@)),
        forall|k: int| 0 <= k < svcs@.len() ==> #[trigger] svcs@[k] < added@.len() && svcs@[k] < removed@.len(),
    ensures
        r == has_exception(lists_view(added@), lists_view(removed@), svcs@, d),
{
    let ghost av = lists_view(added@);
    let ghost rv = lists_view(removed@);
    let mut k: usize = 0;
    while k < svcs.len()
        invariant
            k <= svcs.len(),
            av == lists_view(added@),
            rv == lists_view(removed@),
            all_sorted(av),
            all_sorted(rv),
            forall|j: int| 0 <= j < svcs@.len() ==> #[trigger] svcs@[j] < added@.len() && svcs@[j] < removed@.len(),
            forall|j: int| 0 <= j < k ==> !(av[#[trigger] svcs@[j] as int].contains(d) || rv[svcs@[j] as int].contains(d)),
        decreases svcs.len() - k,
    {
        let s = svcs[k];
        proof {
            assert(av[s as int] == added@[s as int]@);
            assert(rv[s as int] == removed@[s as int]@);
        }
        if contains_sorted(&added[s], d) || contains_sorted(&removed[s], d) {
            return true;
        }
        k += 1;
    }
    false
}

/// OPR_019 / OPR_020 for one route: the days, in date order, on which at
/// least two of its services run, split into days without any exception of
/// those services (OPR_019, first) and days with one (OPR_020, second).
/// `services[i]`, `added[i]` and `removed[i]` are the active dates and the
/// calendar_dates.txt additions and removals of the route's i-th service,
/// each strictly increasing.
pub fn conflict_days(
    services: &Vec<Vec<u32>>,
    added: &Vec<Vec<u32>>,
    removed: &Vec<Vec<u32>>,
) -> (r: (Vec<ConflictDay>, Vec<ConflictDay>))
    requires
        added@.len() == services@.len(),
        removed@.len() == services@.len(),
        all_sorted(lists_view(services@)),
        all_sorted(lists_view(added@)),
        all_sorted(lists_view(removed@)),
    ensures
        exists|ds: Seq<u32>|
            is_distinct_sorted_of(ds, all_dates(lists_view(services@)))
            && days_view(r.0@) == spec_conflicts(ds, lists_view(services@), lists_view(added@), lists_view(removed@), false)
            && days_view(r.1@) == spec_conflicts(ds, lists_view(services@), lists_view(added@), lists_view(removed@), true),
{
    let ghost sv = lists_view(services@);
    let ghost av = lists_view(added@);
    let ghost rv = lists_view(removed@);
    let dates = distinct_sorted(concat_dates(services));
    let mut plain: Vec<ConflictDay> = Vec::new();
    let mut with_exc: Vec<ConflictDay> = Vec::new();
    let mut i: usize = 0;
    while i < dates.len()
        invariant
            i <= dates.len(),
            sv == lists_view(services@),
            av == lists_view(added@),
            rv == lists_view(removed@),
            added@.len() == services@.len(),
            removed@.len() == services@.len(),
            all_sorted(sv),
            all_sorted(av),
            all_sorted(rv),
            days_view(plain@) == spec_conflicts(dates@.take(i as int), sv, av, rv, false),
            days_view(with_exc@) == spec_conflicts(dates@.take(i as int), sv, av, rv, true),
        decreases dates.len() - i,
    {
        let d = dates[i];
        let ghost pre = dates@.take(i as int);
        proof {
            assert(dates@.take(i + 1).drop_last() =~= pre);
            assert(dates@.take(i + 1).last() == d);
        }
        let svcs = services_on(services, d);
        proof {
            lemma_active_below(sv, d);
        }
        if svcs.len() >= 2 {
            let exc = exception_on(added, removed, &svcs, d);
            let ghost a = svcs@;
            let day = ConflictDay { date: d, services: svcs };
            if exc {
                with_exc.push(day);
                proof {
                    assert(days_view(with_exc@) =~= spec_conflicts(pre, sv, av, rv, true).push((d, a)));
                }
            } else {
                plain.push(day);
                proof {
                    assert(days_view(plain@) =~= spec_conflicts(pre, sv, av, rv, false).push((d, a)));
                }
            }
        }
        i += 1;
    }
    proof {
        assert(dates@.take(dates.len() as int) =~= dates@);
    }
    (plain, with_exc)
}

/// Every active service index is below the number of services.
proof fn lemma_active_below(services: Seq<Seq<u32>>, d: u32)
    ensures
        forall|k: int| 0 <= k < active_services(services, d).len() ==> #[trigger] active_services(services, d)[k] < services.len(),
    decreases services.len(),
{
    if services.len() > 0 {
        let t = services.drop_last();
        lemma_active_below(t, d);
        let r = active_services(t, d);
        let a = active_services(services, d);
        assert forall|k: int| 0 <= k < a.len() implies #[trigger] a[k] < services.len() by {
            if k < r.len() {
                assert(a[k] == r[k]);
            }
        }
    }
}

/// Day `d` is one of the listed days.
pub open spec fn listed(days: Seq<(u32, Seq<usize>)>, d: u32) -> bool {
    exists|k: int| 0 <= k < days.len() && (#[trigger] days[k]).0 == d
}

/// Each day on which two or more of the route's services run is reported
/// exactly once: by OPR_019 when none of them has an exception that day,
/// otherwise by OPR_020.
pub proof fn law_each_conflict_day_reported_once(
    dates: Seq<u32>,
    services: Seq<Seq<u32>>,
    added: Seq<Seq<u32>>,
    removed: Seq<Seq<u32>>,
    d: u32,
)
    requires
        strictly_increasing(dates),
        dates.contains(d),
        active_services(services, d).len() >= 2,
    ensures
        listed(spec_conflicts(dates, services, added, removed, has_exception(added, removed, active_services(services, d), d)), d),
        !listed(spec_conflicts(dates, services, added, removed, !has_exception(added, removed, active_services(services, d), d)), d),
    decreases dates.len(),
{
    let e = has_exception(added, removed, active_services(services, d), d);
    let t = dates.drop_last();
    if dates.last() == d {
        let s = spec_conflicts(dates, services, added, removed, e);
        assert(s[s.len() - 1].0 == d);
        let o = spec_conflicts(t, services, added, removed, !e);
        assert(spec_conflicts(dates, services, added, removed, !e) == o);
        lemma_conflict_dates_from(t, services, added, removed, !e);
        if listed(o, d) {
            let k = choose|k: int| 0 <= k < o.len() && (#[trigger] o[k]).0 == d;
            let j = choose|j: int| 0 <= j < t.len() && t[j] == o[k].0;
            assert(dates[j] == t[j]);
            assert(dates[j] < dates[dates.len() - 1]);
        }
    } else {
        assert(t.contains(d)) by {
            let j = choose|j: int| 0 <= j < dates.len() && dates[j] == d;
            assert(j != dates.len() - 1);
            assert(t[j] == d);
        }
        assert(strictly_increasing(t));
        law_each_conflict_day_reported_once(t, services, added, removed, d);
        let s = spec_conflicts(t, services, added, removed, e);
        let k = choose|k: int| 0 <= k < s.len() && (#[trigger] s[k]).0 == d;
        let full = spec_conflicts(dates, services, added, removed, e);
        assert(full[k] == s[k]);
        let o = spec_conflicts(t, services, added, removed, !e);
        let ofull = spec_conflicts(dates, services, added, removed, !e);
        if listed(ofull, d) {
            let m = choose|m: int| 0 <= m < ofull.len() && (#[trigger] ofull[m]).0 == d;
            if m < o.len() {
                assert(ofull[m] == o[m]);
                assert(listed(o, d));
            } else {
                assert(ofull[m].0 == dates.last());
            }
        }
    }
}

/// Every date listed by `spec_conflicts` is one of `dates`.
proof fn lemma_conflict_dates_from(dates: Seq<u32>, services: Seq<Seq<u32>>, added: Seq<Seq<u32>>, removed: Seq<Seq<u32>>, exc: bool)
    ensures
        forall|k: int| 0 <= k < spec_conflicts(dates, services, added, removed, exc).len() ==>
            exists|j: int| 0 <= j < dates.len() && dates[j] == (#[trigger] spec_conflicts(dates, services, added, removed, exc)[k]).0,
    decreases dates.len(),
{
    if dates.len() > 0 {
        let t = dates.drop_last();
        lemma_conflict_dates_from(t, services, added, removed, exc);
        let s = spec_conflicts(dates, services, added, removed, exc);
        let o = spec_conflicts(t, services, added, removed, exc);
        assert forall|k: int| 0 <= k < s.len() implies exists|j: int| 0 <= j < dates.len() && dates[j] == (#[trigger] s[k]).0 by {
            if k < o.len() {
                assert(s[k] == o[k]);
                let j = choose|j: int| 0 <= j < t.len() && t[j] == o[k].0;
                assert(dates[j] == t[j]);
            } else {
                assert(dates[dates.len() - 1] == s[k].0);
            }
        }
    }
}

/// The pattern of a conflicting day: the names of its services joined with
/// "+" (the route's services are listed in name order, so the names come out
/// sorted).
pub open spec fn spec_service_pattern(names: Seq<Seq<char>>, svcs: Seq<usize>) -> Seq<char> {
    join(Seq::new(svcs.len(), |k: int| names[svcs[k] as int]), "+"@)
}

/// The pattern text of one conflicting day.
pub fn service_pattern(names: &[String], svcs: &[usize]) -> (r: String)
    requires
        forall|k: int| 0 <= k < svcs@.len() ==> #[trigger] svcs@[k] < names@.len(),
    ensures
        r@ == spec_service_pattern(names@.map_values(|n: String| n@), svcs@),
{
    let ghost nv = names@.map_values(|n: String| n@);
    let ghost parts = Seq::new(svcs@.len(), |k: int| nv[svcs@[k] as int]);
    let mut r = String::new();
    let mut i: usize = 0;
    while i < svcs.len()
        invariant
            i <= svcs.len(),
            nv == names@.map_values(|n: String| n@),
            parts == Seq::new(svcs@.len(), |k: int| nv[svcs@[k] as int]),
            forall|k: int| 0 <= k < svcs@.len() ==> #[trigger] svcs@[k] < names@.len(),
            r@ == join(parts.take(i as int), "+"@),
        decreases svcs.len() - i,
    {
        if i > 0 {
            r.append("+");
        }
        let name = &names[svcs[i]];
        r.append(name.as_str());
        proof {
            let t = parts.take(i + 1);
            assert(t.drop_last() =~= parts.take(i as int));
            assert(t.last() == nv[svcs@[i as int] as int]);
            assert(nv[svcs@[i as int] as int] == name@);
            assert(r@ =~= join(t, "+"@));
        }
        i += 1;
    }
    assert(parts.take(svcs.len() as int) =~= parts);
    r
}

/// The "active_service_patterns" detail of an OPR_019 / OPR_020 finding: the
/// patterns of the days, counted and summarised in text order.
pub fn conflict_summary(names: &[String], days: &[ConflictDay]) -> (r: String)
    requires
        forall|d: int, k: int| 0 <= d < days@.len() && 0 <= k < days@[d].services@.len()
            ==> #[trigger] days@[d].services@[k] < names@.len(),
    ensures
        exists|entries: Seq<(Seq<char>, nat)>|
            is_pattern_summary(entries, days@.map_values(|c: ConflictDay|
                spec_service_pattern(names@.map_values(|n: String| n@), c.services@)))
            && r@ == summary_text(entries),
{
    let ghost nv = names@.map_values(|n: String| n@);
    let mut patterns: Vec<String> = Vec::new();
    let mut i: usize = 0;
    while i < days.len()
        invariant
            i <= days.len(),
            nv == names@.map_values(|n: String| n@),
            forall|d: int, k: int| 0 <= d < days@.len() && 0 <= k < days@[d].services@.len()
                ==> #[trigger] days@[d].services@[k] < names@.len(),
            patterns@.map_values(|p: String| p@) == days@.take(i as int).map_values(|c: ConflictDay|
                spec_service_pattern(nv, c.services@)),
        decreases days.len() - i,
    {
        let day = &days[i];
        proof {
            assert forall|k: int| 0 <= k < day.services@.len() implies #[trigger] day.services@[k] < names@.len() by {
                assert(days@[i as int].services@[k] < names@.len());
            }
        }
        let p = service_pattern(names, day.services.as_slice());
        let ghost pv = p@;
        let ghost before = patterns@;
        patterns.push(p);
        proof {
            let lhs = patterns@.map_values(|p: String| p@);
            let rhs = days@.take(i + 1).map_values(|c: ConflictDay| spec_service_pattern(nv, c.services@));
            let old_rhs = days@.take(i as int).map_values(|c: ConflictDay| spec_service_pattern(nv, c.services@));
            assert(pv == spec_service_pattern(nv, days@[i as int].services@));
            assert(before.map_values(|p: String| p@).len() == old_rhs.len());
            assert(before.len() == i);
            assert(patterns@ == before.push(patterns@[i as int]));
            assert(patterns@[i as int]@ == pv);
            assert(lhs.len() == i + 1);
            assert(rhs.len() == i + 1);
            assert forall|k: int| 0 <= k < lhs.len() implies lhs[k] == rhs[k] by {
                if k < i {
                    assert(lhs[k] == before[k]@);
                    assert(before.map_values(|p: String| p@)[k] == old_rhs[k]);
                    assert(days@.take(i + 1)[k] == days@.take(i as int)[k]);
                }
            }
            assert(lhs =~= rhs);
        }
        i += 1;
    }
    proof {
        assert(days@.take(days.len() as int) =~= days@);
    }
    summarize_patterns(patterns.as_slice())
}

} // verus!
