use vstd::prelude::*;
use crate::clock::{decimal, push_char, push_decimal};

verus! {

// ── Text order ───────────────────────────────────────────────────────────────

/// Lexicographic order of character sequences by code point, a proper prefix
/// first. This is the order of `str`: UTF-8 preserves code-point order.
pub open spec fn text_lt(a: Seq<char>, b: Seq<char>) -> bool
    decreases a.len(),
{
    if a.len() == 0 {
        b.len() > 0
    } else if b.len() == 0 {
        false
    } else if a[0] != b[0] {
        a[0] < b[0]
    } else {
        text_lt(a.drop_first(), b.drop_first())
    }
}

/// Exactly one of `a < b`, `a == b`, `b < a` holds.
pub proof fn lemma_text_trichotomy(a: Seq<char>, b: Seq<char>)
    ensures
        (text_lt(a, b) as int) + ((a == b) as int) + (text_lt(b, a) as int) == 1,
    decreases a.len(),
{
    if a.len() > 0 && b.len() > 0 && a[0] == b[0] {
        lemma_text_trichotomy(a.drop_first(), b.drop_first());
        if a.drop_first() == b.drop_first() {
            assert(a =~= seq![a[0]] + a.drop_first());
            assert(b =~= seq![b[0]] + b.drop_first());
        } else {
            assert(a != b) by {
                if a == b {
                    assert(a.drop_first() == b.drop_first());
                }
            }
        }
    } else if a.len() > 0 && b.len() > 0 {
        assert(a != b) by {
            if a == b {
                assert(a[0] == b[0]);
            }
        }
    } else if a.len() == 0 && b.len() == 0 {
        assert(a =~= b);
    } else {
        assert(a != b) by {
            if a == b {
                assert(a.len() == b.len());
            }
        }
    }
}

/// The order is transitive.
pub proof fn lemma_text_transitive(a: Seq<char>, b: Seq<char>, c: Seq<char>)
    requires
        text_lt(a, b),
        text_lt(b, c),
    ensures
        text_lt(a, c),
    decreases a.len(),
{
    if a.len() > 0 && b.len() > 0 && c.len() > 0 {
        if a[0] == b[0] && b[0] == c[0] {
            lemma_text_transitive(a.drop_first(), b.drop_first(), c.drop_first());
        }
    }
}

/// Compares two texts in this order.
pub fn text_less(a: &str, b: &str) -> (r: bool)
    ensures
        r == text_lt(a@, b@),
{
    let x = crate::text::chars_of(a);
    let y = crate::text::chars_of(b);
    let mut i: usize = 0;
    assert(x@.skip(0) =~= x@);
    assert(y@.skip(0) =~= y@);
    while i < x.len() && i < y.len() && x[i] == y[i]
        invariant
            i <= x.len(),
            i <= y.len(),
            text_lt(x@, y@) == text_lt(x@.skip(i as int), y@.skip(i as int)),
        decreases x.len() - i,
    {
        proof {
            let xs = x@.skip(i as int);
            let ys = y@.skip(i as int);
            assert(xs.drop_first() =~= x@.skip(i + 1));
            assert(ys.drop_first() =~= y@.skip(i + 1));
        }
        i += 1;
    }
    let ghost xs = x@.skip(i as int);
    let ghost ys = y@.skip(i as int);
    if i == x.len() {
        assert(xs.len() == 0);
        i < y.len()
    } else if i == y.len() {
        assert(ys.len() == 0);
        false
    } else {
        assert(xs[0] == x@[i as int] && ys[0] == y@[i as int]);
        assert(x@[i as int] != y@[i as int]);
        x[i] < y[i]
    }
}

/// Equality of two texts.
pub fn text_equal(a: &str, b: &str) -> (r: bool)
    ensures
        r == (a@ == b@),
{
    let x = crate::text::chars_of(a);
    let y = crate::text::chars_of(b);
    if x.len() != y.len() {
        assert(x@.len() != y@.len());
        return false;
    }
    let mut i: usize = 0;
    while i < x.len()
        invariant
            i <= x.len(),
            x.len() == y.len(),
            x@ == a@,
            y@ == b@,
            forall|k: int| 0 <= k < i ==> x@[k] == y@[k],
        decreases x.len() - i,
    {
        if x[i] != y[i] {
            assert(x@[i as int] != y@[i as int]);
            assert(a@ != b@) by {
                if a@ == b@ {
                    assert(x@[i as int] == y@[i as int]);
                }
            }
            return false;
        }
        i += 1;
    }
    assert(x@ =~= y@);
    true
}

// ── Joining ───────────────────────────────────────────────────────────────────

/// The texts joined with `sep` between consecutive ones.
pub open spec fn join(parts: Seq<Seq<char>>, sep: Seq<char>) -> Seq<char>
    decreases parts.len(),
{
    if parts.len() == 0 {
        Seq::empty()
    } else if parts.len() == 1 {
        parts[0]
    } else {
        join(parts.drop_last(), sep) + sep + parts.last()
    }
}

/// The first `limit` numbers in decimal, joined with `sep`.
pub open spec fn spec_join_numbers(values: Seq<u32>, limit: int, sep: Seq<char>) -> Seq<char> {
    let n = if values.len() < limit { values.len() as int } else { limit };
    join(Seq::new(n as nat, |i: int| decimal(values[i] as nat)), sep)
}

/// Writes the first `limit` numbers in decimal separated by `sep`
/// (e.g. sample dates "20260101,20260102").
pub fn join_numbers(values: &[u32], limit: usize, sep: &str) -> (r: String)
    ensures
        r@ == spec_join_numbers(values@, limit as int, sep@),
{
    let n = if values.len() < limit { values.len() } else { limit };
    let ghost parts = Seq::new(n as nat, |i: int| decimal(values@[i] as nat));
    let mut r = String::new();
    let mut i: usize = 0;
    while i < n
        invariant
            n <= values.len(),
            i <= n,
            parts == Seq::new(n as nat, |i: int| decimal(values@[i] as nat)),
            r@ == join(parts.take(i as int), sep@),
        decreases n - i,
    {
        if i > 0 {
            r.append(sep);
        }
        push_decimal(&mut r, values[i] as u64);
        proof {
            let t = parts.take(i + 1);
            assert(t.drop_last() =~= parts.take(i as int));
            assert(t.last() == decimal(values@[i as int] as nat));
            if i == 0 {
                assert(r@ =~= join(t, sep@));
            } else {
                assert(r@ =~= join(t, sep@));
            }
        }
        i += 1;
    }
    assert(parts.take(n as int) =~= parts);
    r
}


// ── Service-pattern summaries (OPR_019 / OPR_020) ────────────────────────────

/// How many times `k` occurs in `ps`.
pub open spec fn occurrences(ps: Seq<Seq<char>>, k: Seq<char>) -> nat
    decreases ps.len(),
{
    if ps.len() == 0 {
        0
    } else {
        occurrences(ps.drop_last(), k) + if ps.last() == k { 1nat } else { 0nat }
    }
}

/// `entries` lists each distinct pattern of `ps` once, in increasing text
/// order, with the number of times it occurs.
pub open spec fn is_pattern_summary(entries: Seq<(Seq<char>, nat)>, ps: Seq<Seq<char>>) -> bool {
    &&& forall|i: int, j: int| 0 <= i < j < entries.len() ==> text_lt(entries[i].0, entries[j].0)
    &&& forall|k: Seq<char>| (exists|i: int| 0 <= i < entries.len() && #[trigger] entries[i].0 == k) <==> ps.contains(k)
    &&& forall|i: int| 0 <= i < entries.len() ==> #[trigger] entries[i].1 == occurrences(ps, entries[i].0)
}

/// One summary line: `pattern: N gün` ("N days").
pub open spec fn summary_item(e: (Seq<char>, nat)) -> Seq<char> {
    e.0 + ": "@ + decimal(e.1) + " gün"@
}

/// The summary text: the items joined with "; ".
pub open spec fn summary_text(entries: Seq<(Seq<char>, nat)>) -> Seq<char> {
    join(entries.map_values(|e: (Seq<char>, nat)| summary_item(e)), "; "@)
}

spec fn entries_view(v: Seq<(String, usize)>) -> Seq<(Seq<char>, nat)> {
    v.map_values(|e: (String, usize)| (e.0@, e.1 as nat))
}

proof fn lemma_occurrences_push(ps: Seq<Seq<char>>, p: Seq<char>, k: Seq<char>)
    ensures
        occurrences(ps.push(p), k) == occurrences(ps, k) + if p == k { 1nat } else { 0nat },
{
    assert(ps.push(p).drop_last() =~= ps);
}

proof fn lemma_occurrences_le(ps: Seq<Seq<char>>, k: Seq<char>)
    ensures
        occurrences(ps, k) <= ps.len(),
    decreases ps.len(),
{
    if ps.len() > 0 {
        lemma_occurrences_le(ps.drop_last(), k);
    }
}

/// Counts the service patterns of conflicting days and summarises them in
/// text order: "A+B: 12 gün; A+C: 3 gün".
pub fn summarize_patterns(patterns: &[String]) -> (r: String)
    ensures
        exists|entries: Seq<(Seq<char>, nat)>|
            is_pattern_summary(entries, patterns@.map_values(|p: String| p@)) && r@ == summary_text(entries),
{
    let ghost ps = patterns@.map_values(|p: String| p@);
    let mut entries: Vec<(String, usize)> = Vec::new();
    let mut i: usize = 0;
    while i < patterns.len()
        invariant
            i <= patterns.len(),
            ps == patterns@.map_values(|p: String| p@),
            is_pattern_summary(entries_view(entries@), ps.take(i as int)),
            forall|j: int| 0 <= j < entries@.len() ==> #[trigger] entries@[j].1 <= i,
        decreases patterns.len() - i,
    {
        let p = &patterns[i];
        let ghost pv = p@;
        let ghost before = entries_view(entries@);
        let ghost pre = ps.take(i as int);
        let ghost post = ps.take(i + 1);
        proof {
            assert(post =~= pre.push(pv));
            assert(ps[i as int] == pv);
        }
        // First entry whose key is not below p.
        let mut j: usize = 0;
        while j < entries.len() && text_less(entries[j].0.as_str(), p.as_str())
            invariant
                j <= entries.len(),
                before == entries_view(entries@),
                pv == p@,
                forall|k: int| 0 <= k < j ==> text_lt(#[trigger] before[k].0, pv),
            decreases entries.len() - j,
        {
            j += 1;
        }
        let found = j < entries.len() && text_equal(entries[j].0.as_str(), p.as_str());
        if found {
            let key = entries[j].0.clone();
            let c = entries[j].1;
            entries.set(j, (key, c + 1));
            proof {
                let after = entries_view(entries@);
                assert(before[j as int].0 == pv);
                assert(before[j as int].1 == c as nat);
                assert(after[j as int] == (pv, (c + 1) as nat));
                assert forall|k: int| 0 <= k < after.len() implies #[trigger] after[k].1 == occurrences(post, after[k].0) by {
                    lemma_occurrences_push(pre, pv, after[k].0);
                    if k == j {
                        assert(before[k].1 == occurrences(pre, before[k].0));
                    } else {
                        assert(after[k] == before[k]);
                        assert(before[k].0 != pv) by {
                            lemma_text_trichotomy(before[k].0, before[j as int].0);
                            if k < j {
                                assert(text_lt(before[k].0, before[j as int].0));
                            } else {
                                assert(text_lt(before[j as int].0, before[k].0));
                            }
                        }
                    }
                }
                assert forall|key2: Seq<char>|
                    (exists|k: int| 0 <= k < after.len() && #[trigger] after[k].0 == key2) <==> post.contains(key2) by {
                    if exists|k: int| 0 <= k < after.len() && #[trigger] after[k].0 == key2 {
                        let k = choose|k: int| 0 <= k < after.len() && #[trigger] after[k].0 == key2;
                        assert(before[k].0 == key2);
                        assert(pre.contains(key2));
                        let m = choose|m: int| 0 <= m < pre.len() && pre[m] == key2;
                        assert(post[m] == key2);
                    }
                    if post.contains(key2) {
                        let m = choose|m: int| 0 <= m < post.len() && post[m] == key2;
                        if m == i {
                            assert(after[j as int].0 == key2);
                        } else {
                            assert(pre[m] == key2);
                            assert(pre.contains(key2));
                            let k = choose|k: int| 0 <= k < before.len() && #[trigger] before[k].0 == key2;
                            assert(after[k].0 == key2);
                        }
                    }
                }
                assert forall|a: int, b: int| 0 <= a < b < after.len() implies text_lt(after[a].0, after[b].0) by {
                    assert(after[a].0 == before[a].0 && after[b].0 == before[b].0);
                }
                lemma_occurrences_le(pre, pv);
                assert(before[j as int].1 == occurrences(pre, pv));
            }
        } else {
            let ghost old_entries = entries@;
            entries.insert(j, (p.clone(), 1));
            proof {
                let after = entries_view(entries@);
                assert(after.len() == before.len() + 1);
                assert(after[j as int] == (pv, 1nat));
                assert forall|k: int| 0 <= k < j implies #[trigger] after[k] == before[k] by {}
                assert forall|k: int| j < k < after.len() implies #[trigger] after[k] == before[k - 1] by {}
                // p is new: no existing key equals it.
                assert(!pre.contains(pv)) by {
                    if pre.contains(pv) {
                        let k = choose|k: int| 0 <= k < before.len() && #[trigger] before[k].0 == pv;
                        if k < j {
                            lemma_text_trichotomy(before[k].0, pv);
                        } else {
                            // before[j] is not below pv and differs from it, so it is above;
                            // keys after j are above before[j].
                            lemma_text_trichotomy(before[j as int].0, pv);
                            if k > j {
                                assert(text_lt(before[j as int].0, before[k].0));
                                lemma_text_transitive(pv, before[j as int].0, before[k].0);
                                lemma_text_trichotomy(pv, before[k].0);
                            }
                        }
                    }
                }
                if j < before.len() {
                    lemma_text_trichotomy(before[j as int].0, pv);
                    assert(text_lt(pv, before[j as int].0));
                }
                assert forall|a: int, b: int| 0 <= a < b < after.len() implies text_lt(after[a].0, after[b].0) by {
                    if b < j {
                    } else if b == j {
                        assert(text_lt(before[a].0, pv));
                    } else if a > j {
                        assert(text_lt(before[a - 1].0, before[b - 1].0));
                    } else if a == j {
                        if b - 1 > j {
                            assert(text_lt(before[j as int].0, before[b - 1].0));
                            lemma_text_transitive(pv, before[j as int].0, before[b - 1].0);
                        }
                    } else {
                        // a < j < b
                        assert(text_lt(before[a].0, pv));
                        if b - 1 > j {
                            assert(text_lt(before[j as int].0, before[b - 1].0));
                            lemma_text_transitive(pv, before[j as int].0, before[b - 1].0);
                        }
                        lemma_text_transitive(before[a].0, pv, before[b - 1].0);
                    }
                }
                assert forall|k: int| 0 <= k < after.len() implies #[trigger] after[k].1 == occurrences(post, after[k].0) by {
                    lemma_occurrences_push(pre, pv, after[k].0);
                    if k == j {
                        assert(occurrences(pre, pv) == 0) by {
                            lemma_occurrences_zero(pre, pv);
                        }
                    } else {
                        let kb = if k < j { k } else { k - 1 };
                        assert(after[k] == before[kb]);
                        assert(pre.contains(before[kb].0)) by {
                            assert(before[kb].0 == before[kb].0);
                        }
                        assert(before[kb].0 != pv);
                    }
                }
                assert forall|key2: Seq<char>|
                    (exists|k: int| 0 <= k < after.len() && #[trigger] after[k].0 == key2) <==> post.contains(key2) by {
                    if exists|k: int| 0 <= k < after.len() && #[trigger] after[k].0 == key2 {
                        let k = choose|k: int| 0 <= k < after.len() && #[trigger] after[k].0 == key2;
                        if k == j {
                            assert(post[i as int] == key2);
                        } else {
                            let kb = if k < j { k } else { k - 1 };
                            assert(before[kb].0 == key2);
                            assert(pre.contains(key2));
                            let m = choose|m: int| 0 <= m < pre.len() && pre[m] == key2;
                            assert(post[m] == key2);
                        }
                    }
                    if post.contains(key2) {
                        let m = choose|m: int| 0 <= m < post.len() && post[m] == key2;
                        if m == i {
                            assert(after[j as int].0 == key2);
                        } else {
                            assert(pre[m] == key2);
                            assert(pre.contains(key2));
                            let k = choose|k: int| 0 <= k < before.len() && #[trigger] before[k].0 == key2;
                            if k < j {
                                assert(after[k].0 == key2);
                            } else {
                                assert(after[k + 1].0 == key2);
                            }
                        }
                    }
                }
            }
        }
        i += 1;
    }
    assert(ps.take(i as int) =~= ps);
    let ghost ev = entries_view(entries@);
    let mut r = String::new();
    let mut k: usize = 0;
    let ghost items = ev.map_values(|e: (Seq<char>, nat)| summary_item(e));
    while k < entries.len()
        invariant
            k <= entries.len(),
            ev == entries_view(entries@),
            items == ev.map_values(|e: (Seq<char>, nat)| summary_item(e)),
            r@ == join(items.take(k as int), "; "@),
        decreases entries.len() - k,
    {
        if k > 0 {
            r.append("; ");
        }
        r.append(entries[k].0.as_str());
        r.append(": ");
        push_decimal(&mut r, entries[k].1 as u64);
        r.append(" gün");
        proof {
            let t = items.take(k + 1);
            assert(t.drop_last() =~= items.take(k as int));
            assert(t.last() == summary_item(ev[k as int]));
            assert(r@ =~= join(t, "; "@));
        }
        k += 1;
    }
    assert(items.take(k as int) =~= items);
    assert(is_pattern_summary(ev, ps) && r@ == summary_text(ev));
    r
}

proof fn lemma_occurrences_zero(ps: Seq<Seq<char>>, k: Seq<char>)
    requires
        !ps.contains(k),
    ensures
        occurrences(ps, k) == 0,
    decreases ps.len(),
{
    if ps.len() > 0 {
        assert(!ps.drop_last().contains(k)) by {
            if ps.drop_last().contains(k) {
                let m = choose|m: int| 0 <= m < ps.drop_last().len() && ps.drop_last()[m] == k;
                assert(ps[m] == k);
            }
        }
        lemma_occurrences_zero(ps.drop_last(), k);
        assert(ps.last() != k) by {
            if ps.last() == k {
                assert(ps[ps.len() - 1] == k);
            }
        }
    }
}


/// Details of an OPR_021 / OPR_022 / OPR_023 finding.
#[derive(Debug, Clone)]
pub struct OverrideDetails {
    /// Number of affected days, in decimal.
    pub conflict_day_count: String,
    /// The first ten affected dates, comma separated.
    pub sample_dates: String,
    /// The rule's base service ids.
    pub base_services: String,
    /// The rule's override service ids.
    pub override_services: String,
}

impl OverrideDetails {
    /// The details as (key, value) pairs, in a fixed order.
    pub fn entries(&self) -> (r: Vec<(String, String)>)
        ensures
            r@.len() == 4,
            r@[0].0@ == "conflict_day_count"@ && r@[0].1@ == self.conflict_day_count@,
            r@[1].0@ == "sample_dates"@ && r@[1].1@ == self.sample_dates@,
            r@[2].0@ == "base_services"@ && r@[2].1@ == self.base_services@,
            r@[3].0@ == "override_services"@ && r@[3].1@ == self.override_services@,
    {
        let mut r: Vec<(String, String)> = Vec::new();
        r.push((String::from_str("conflict_day_count"), self.conflict_day_count.clone()));
        r.push((String::from_str("sample_dates"), self.sample_dates.clone()));
        r.push((String::from_str("base_services"), self.base_services.clone()));
        r.push((String::from_str("override_services"), self.override_services.clone()));
        r
    }
}

/// Builds the details of an override-rule finding: the day count, up to ten
/// sample dates, and the rule's base and override service lists.
pub fn build_override_details(count: usize, dates: &[u32], base_str: &str, override_str: &str) -> (r: OverrideDetails)
    ensures
        r.conflict_day_count@ == decimal(count as nat),
        r.sample_dates@ == spec_join_numbers(dates@, 10, ","@),
        r.base_services@ == base_str@,
        r.override_services@ == override_str@,
{
    let mut c = String::new();
    push_decimal(&mut c, count as u64);
    assert(c@ =~= decimal(count as nat));
    OverrideDetails {
        conflict_day_count: c,
        sample_dates: join_numbers(dates, 10, ","),
        base_services: String::from_str(base_str),
        override_services: String::from_str(override_str),
    }
}

/// The details of one override-rule finding over the days `dates` of its
/// class: none when there is no such day.
pub open spec fn override_finding_ok(dates: Seq<u32>, base_str: Seq<char>, override_str: Seq<char>, r: Option<OverrideDetails>) -> bool {
    match r {
        Some(x) => dates.len() > 0 && x.conflict_day_count@ == decimal(dates.len()) && x.sample_dates@ == spec_join_numbers(
            dates,
            10,
            seq![','],
        ) && x.base_services@ == base_str && x.override_services@ == override_str,
        None => dates.len() == 0,
    }
}

/// The OPR_021, OPR_022 and OPR_023 findings of one override rule: each at
/// most once, with the day count and the first ten days of its class in
/// date order, and the rule's base and override service lists (`base_str`,
/// `override_str`, already joined by ",").
pub fn override_findings(
    start: u32,
    end: u32,
    base: &[Vec<u32>],
    over: &[Vec<u32>],
    base_str: &str,
    override_str: &str,
) -> (r: (Option<OverrideDetails>, Option<OverrideDetails>, Option<OverrideDetails>))
    requires
        crate::calendar::is_valid_date(
            crate::calendar::date_parts(start).0,
            crate::calendar::date_parts(start).1,
            crate::calendar::date_parts(start).2,
        ),
        end <= u32::MAX - 20000,
    ensures
        ({
            let days = crate::calendar::window_days(crate::calendar::date_parts(start), end as int);
            let b = base@.map_values(|v: Vec<u32>| v@);
            let o = over@.map_values(|v: Vec<u32>| v@);
            &&& override_finding_ok(crate::calendar::days_of_kind(days, b, o, crate::calendar::OverrideDay::BothActive),
                base_str@, override_str@, r.0)
            &&& override_finding_ok(crate::calendar::days_of_kind(days, b, o, crate::calendar::OverrideDay::OverrideMissing),
                base_str@, override_str@, r.1)
            &&& override_finding_ok(crate::calendar::days_of_kind(days, b, o, crate::calendar::OverrideDay::NoService),
                base_str@, override_str@, r.2)
        }),
{
    let w = crate::calendar::override_window(start, end, base, over);
    proof {
        reveal_strlit(",");
        assert(","@ =~= seq![',']);
    }
    let a = if w.both_active.len() > 0 {
        Some(build_override_details(w.both_active.len(), w.both_active.as_slice(), base_str, override_str))
    } else {
        None
    };
    let b = if w.override_missing.len() > 0 {
        Some(build_override_details(w.override_missing.len(), w.override_missing.as_slice(), base_str, override_str))
    } else {
        None
    };
    let c = if w.no_service.len() > 0 {
        Some(build_override_details(w.no_service.len(), w.no_service.as_slice(), base_str, override_str))
    } else {
        None
    };
    (a, b, c)
}

} // verus!
