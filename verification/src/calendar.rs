use vstd::prelude::*;

verus! {

// ── Julian day numbers ────────────────────────────────────────────────────────

/// Julian Day Number of a proleptic Gregorian date (the Fliegel–Van Flandern
/// integer formula). March is taken as the first month of the computational
/// year, so January and February count towards the previous one.
pub open spec fn spec_ymd_to_jdn(y: int, m: int, d: int) -> int {
    let a: int = if m <= 2 { 1 } else { 0 };
    let yy = y + 4800 - a;
    let mm = m + 12 * a - 3;
    d + (153 * mm + 2) / 5 + 365 * yy + yy / 4 - yy / 100 + yy / 400 - 32045
}

/// Leap years of the Gregorian calendar.
pub open spec fn is_leap_year(y: int) -> bool {
    (y % 4 == 0 && y % 100 != 0) || y % 400 == 0
}

/// Number of days of a month (1..=12) of year `y`.
pub open spec fn days_in_month(y: int, m: int) -> int {
    if m == 2 {
        if is_leap_year(y) { 29 } else { 28 }
    } else if m == 4 || m == 6 || m == 9 || m == 11 {
        30
    } else {
        31
    }
}

/// A real calendar date.
pub open spec fn is_valid_date(y: int, m: int, d: int) -> bool {
    y >= 1 && 1 <= m <= 12 && 1 <= d <= days_in_month(y, m)
}

/// The date that follows `(y, m, d)`.
pub open spec fn next_day(y: int, m: int, d: int) -> (int, int, int) {
    if d < days_in_month(y, m) {
        (y, m, d + 1)
    } else if m < 12 {
        (y, m + 1, 1)
    } else {
        (y + 1, 1, 1)
    }
}

/// Day numbers count days: the day after any valid date has the next number.
pub proof fn law_jdn_counts_days(y: int, m: int, d: int)
    requires
        is_valid_date(y, m, d),
    ensures
        spec_ymd_to_jdn(next_day(y, m, d).0, next_day(y, m, d).1, next_day(y, m, d).2)
            == spec_ymd_to_jdn(y, m, d) + 1,
{
    if d < days_in_month(y, m) {
    } else if m < 12 {
        if m == 2 {
            let yy = y + 4799;
            assert(yy + 1 == y + 4800);
            // The leap-day terms of the computational year change exactly when y is a leap year.
            assert((yy + 1) / 4 - yy / 4 == if (y % 4 == 0) { 1int } else { 0int });
            assert((yy + 1) / 100 - yy / 100 == if (y % 100 == 0) { 1int } else { 0int });
            assert((yy + 1) / 400 - yy / 400 == if (y % 400 == 0) { 1int } else { 0int });
        }
    } else {
    }
}

/// Julian Day Number of `(y, m, d)`; defined by [`spec_ymd_to_jdn`] for every
/// input (the year must stay below one million for the result to fit `u32`).
pub fn ymd_to_jdn(y: u32, m: u32, d: u32) -> (r: u32)
    requires
        y <= 1_000_000,
        m <= 100,
        d <= 100,
    ensures
        r == spec_ymd_to_jdn(y as int, m as int, d as int),
{
    let a: u64 = if m <= 2 { 1 } else { 0 };
    let yy: u64 = y as u64 + 4800 - a;
    let mm: u64 = m as u64 + 12 * a - 3;
    let r: u64 = d as u64 + (153 * mm + 2) / 5 + 365 * yy + yy / 4 - yy / 100 + yy / 400 - 32045;
    r as u32
}

/// Year, month and day of a packed `YYYYMMDD` value.
pub open spec fn date_parts(yyyymmdd: u32) -> (int, int, int) {
    ((yyyymmdd / 10000) as int, ((yyyymmdd / 100) % 100) as int, (yyyymmdd % 100) as int)
}

/// Julian Day Number of a packed `YYYYMMDD` date; 0 when the year, month or
/// day component is 0.
pub open spec fn spec_yyyymmdd_to_jdn(yyyymmdd: u32) -> int {
    let (y, m, d) = date_parts(yyyymmdd);
    if y == 0 || m == 0 || d == 0 {
        0
    } else {
        spec_ymd_to_jdn(y, m, d)
    }
}

/// Packed `YYYYMMDD` → Julian Day Number (0 for a zero component).
pub fn yyyymmdd_to_jdn(yyyymmdd: u32) -> (r: u32)
    ensures
        r == spec_yyyymmdd_to_jdn(yyyymmdd),
{
    let y = yyyymmdd / 10000;
    let m = (yyyymmdd / 100) % 100;
    let d = yyyymmdd % 100;
    if y == 0 || m == 0 || d == 0 {
        return 0;
    }
    ymd_to_jdn(y, m, d)
}

/// Packs a year, month and day as `YYYYMMDD`.
pub open spec fn spec_pack_date(y: u32, m: u32, d: u32) -> int {
    y * 10000 + m * 100 + d
}

/// Packs a date tuple as `YYYYMMDD`.
pub fn pack_date(date: (u32, u32, u32)) -> (r: u32)
    requires
        spec_pack_date(date.0, date.1, date.2) <= u32::MAX,
    ensures
        r == spec_pack_date(date.0, date.1, date.2),
{
    proof {
        assert(date.0 * 10000 <= spec_pack_date(date.0, date.1, date.2)) by (nonlinear_arith)
            requires date.1 >= 0, date.2 >= 0,
                spec_pack_date(date.0, date.1, date.2) == date.0 * 10000 + date.1 * 100 + date.2;
        assert(date.1 * 100 <= spec_pack_date(date.0, date.1, date.2)) by (nonlinear_arith)
            requires date.0 >= 0, date.2 >= 0,
                spec_pack_date(date.0, date.1, date.2) == date.0 * 10000 + date.1 * 100 + date.2;
    }
    date.0 * 10000 + date.1 * 100 + date.2
}

/// Whole days strictly between two dates (0 when they are adjacent or out of
/// order): `jdn(b) - jdn(a) - 1`, never below zero.
pub open spec fn spec_gap_days(a: u32, b: u32) -> int {
    let diff = spec_yyyymmdd_to_jdn(b) - spec_yyyymmdd_to_jdn(a);
    if diff <= 1 { 0 } else { diff - 1 }
}

/// Number of inactive days between two active dates.
pub fn gap_days(a: u32, b: u32) -> (r: u32)
    ensures
        r == spec_gap_days(a, b),
{
    let ja = yyyymmdd_to_jdn(a);
    let jb = yyyymmdd_to_jdn(b);
    jb.saturating_sub(ja).saturating_sub(1)
}


// ── Per-service calendar rules ────────────────────────────────────────────────

/// CAL_010: a service with at most `threshold` active days is suspiciously short.
pub open spec fn spec_is_short_service(active_days: int, threshold: u32) -> bool {
    active_days <= threshold
}

/// CAL_010 for a service with the given active dates (`dates` holds each date once).
pub fn is_short_service(dates: &[u32], threshold: u32) -> (r: bool)
    requires
        dates@.len() <= u32::MAX,
    ensures
        r == spec_is_short_service(dates@.len() as int, threshold),
{
    (dates.len() as u32) <= threshold
}

/// The pairs of consecutive active dates (of an ascending list) with at least
/// `threshold` inactive days between them.
pub open spec fn spec_big_gaps(sorted: Seq<u32>, threshold: u32) -> Seq<(u32, u32)>
    decreases sorted.len(),
{
    if sorted.len() < 2 {
        Seq::empty()
    } else {
        let a = sorted[sorted.len() - 2];
        let b = sorted.last();
        let rest = spec_big_gaps(sorted.drop_last(), threshold);
        if spec_gap_days(a, b) >= threshold {
            rest.push((a, b))
        } else {
            rest
        }
    }
}

/// CAL_007 / CAL_012 candidates of one service: the gaps of at least
/// `threshold` inactive days between its consecutive active dates, in date
/// order. The dates are sorted first (duplicates dropped).
pub fn big_gaps(dates: Vec<u32>, threshold: u32) -> (r: Vec<(u32, u32)>)
    ensures
        exists|d: Seq<u32>|
            crate::headway::is_distinct_sorted_of(d, dates@) && r@ == spec_big_gaps(d, threshold),
{
    let d = crate::headway::distinct_sorted(dates);
    let mut r: Vec<(u32, u32)> = Vec::new();
    if d.len() < 2 {
        assert(r@ =~= spec_big_gaps(d@, threshold));
        return r;
    }
    let mut i: usize = 1;
    assert(r@ =~= spec_big_gaps(d@.take(1), threshold));
    while i < d.len()
        invariant
            1 <= i <= d.len(),
            r@ == spec_big_gaps(d@.take(i as int), threshold),
        decreases d.len() - i,
    {
        let a = d[i - 1];
        let b = d[i];
        assert(d@.take(i + 1).drop_last() =~= d@.take(i as int));
        if gap_days(a, b) >= threshold {
            r.push((a, b));
        }
        i += 1;
    }
    assert(d@.take(i as int) =~= d@);
    r
}

/// The pairs of `spec_big_gaps`, by `spec_gap_days`.
#[verifier::spinoff_prover]
#[verifier::rlimit(40)]
proof fn lemma_big_gaps_pairs(sorted: Seq<u32>, threshold: u32)
    requires
        crate::headway::strictly_increasing(sorted),
    ensures
        forall|k: int| 0 <= k < sorted.len() - 1 && #[trigger] spec_gap_days(sorted[k], sorted[k + 1]) >= threshold
            ==> spec_big_gaps(sorted, threshold).contains((sorted[k], sorted[k + 1])),
        forall|j: int| 0 <= j < spec_big_gaps(sorted, threshold).len() ==> exists|k: int|
            0 <= k < sorted.len() - 1 && #[trigger] spec_big_gaps(sorted, threshold)[j] == (sorted[k], sorted[k + 1])
                && #[trigger] spec_gap_days(sorted[k], sorted[k + 1]) >= threshold,
        forall|j1: int, j2: int| 0 <= j1 < j2 < spec_big_gaps(sorted, threshold).len()
            ==> (#[trigger] spec_big_gaps(sorted, threshold)[j1]).0 < (#[trigger] spec_big_gaps(sorted, threshold)[j2]).0,
    decreases sorted.len(),
{
    if sorted.len() >= 2 {
        let s0 = sorted.drop_last();
        assert(crate::headway::strictly_increasing(s0)) by {
            assert forall|i: int, j: int| 0 <= i < j < s0.len() implies s0[i] < s0[j] by {
                assert(s0[i] == sorted[i] && s0[j] == sorted[j]);
            }
        }
        lemma_big_gaps_pairs(s0, threshold);
        let rest = spec_big_gaps(s0, threshold);
        let r = spec_big_gaps(sorted, threshold);
        let n = sorted.len();
        let a = sorted[n - 2];
        let b = sorted.last();
        assert forall|k: int| 0 <= k < sorted.len() - 1 && #[trigger] spec_gap_days(sorted[k], sorted[k + 1]) >= threshold
            implies r.contains((sorted[k], sorted[k + 1])) by {
            if k < n - 2 {
                assert(s0[k] == sorted[k] && s0[k + 1] == sorted[k + 1]);
                assert(spec_gap_days(s0[k], s0[k + 1]) >= threshold);
                assert(rest.contains((s0[k], s0[k + 1])));
                let j = choose|j: int| 0 <= j < rest.len() && rest[j] == (s0[k], s0[k + 1]);
                assert(r[j] == rest[j]);
            } else {
                assert(r.last() == (a, b));
                assert(r[r.len() - 1] == (a, b));
            }
        }
        assert forall|j: int| 0 <= j < r.len() implies exists|k: int|
            0 <= k < sorted.len() - 1 && #[trigger] r[j] == (sorted[k], sorted[k + 1])
                && #[trigger] spec_gap_days(sorted[k], sorted[k + 1]) >= threshold by {
            if j < rest.len() {
                assert(r[j] == rest[j]);
                let k = choose|k: int| 0 <= k < s0.len() - 1 && #[trigger] rest[j] == (s0[k], s0[k + 1])
                    && #[trigger] spec_gap_days(s0[k], s0[k + 1]) >= threshold;
                assert(s0[k] == sorted[k] && s0[k + 1] == sorted[k + 1]);
                assert(spec_gap_days(sorted[k], sorted[k + 1]) >= threshold);
            } else {
                assert(r[j] == (sorted[n - 2], sorted[n - 2 + 1]));
                assert(spec_gap_days(sorted[n - 2], sorted[n - 2 + 1]) >= threshold);
            }
        }
        assert forall|j1: int, j2: int| 0 <= j1 < j2 < r.len()
            implies (#[trigger] r[j1]).0 < (#[trigger] r[j2]).0 by {
            assert(r[j1] == rest[j1]);
            let k1 = choose|k: int| 0 <= k < s0.len() - 1 && #[trigger] rest[j1] == (s0[k], s0[k + 1])
                && #[trigger] spec_gap_days(s0[k], s0[k + 1]) >= threshold;
            assert(s0[k1] == sorted[k1]);
            if j2 < rest.len() {
                assert(r[j2] == rest[j2]);
            } else {
                assert(r[j2] == (a, b));
                assert(sorted[k1] < sorted[n - 2]);
            }
        }
    }
}

/// At least `t` whole days lie strictly between dates `a` and `b`, counted by
/// their day numbers (always true for `t == 0`).
pub open spec fn inactive_days_at_least(a: u32, b: u32, t: u32) -> bool {
    t == 0 || spec_yyyymmdd_to_jdn(b) - spec_yyyymmdd_to_jdn(a) - 1 >= t
}

/// `e` is a pair of consecutive dates of `sorted` with at least `t` whole
/// days between them.
pub open spec fn is_wide_pair_of(sorted: Seq<u32>, t: u32, e: (u32, u32)) -> bool {
    exists|k: int| 0 <= k < sorted.len() - 1 && e == (sorted[k], sorted[k + 1])
        && #[trigger] inactive_days_at_least(sorted[k], sorted[k + 1], t)
}

proof fn lemma_gap_days_at_least(a: u32, b: u32, t: u32)
    ensures
        spec_gap_days(a, b) >= t <==> inactive_days_at_least(a, b, t),
{
}

/// CAL_007 / CAL_012 list every pair `(a, b)` of consecutive active dates with
/// at least `threshold` inactive days between them, and nothing else, in date
/// order.
#[verifier::spinoff_prover]
#[verifier::rlimit(40)]
pub proof fn law_big_gaps_are_all_wide_pairs(sorted: Seq<u32>, threshold: u32)
    requires
        crate::headway::strictly_increasing(sorted),
    ensures
        forall|k: int| 0 <= k < sorted.len() - 1 && #[trigger] inactive_days_at_least(sorted[k], sorted[k + 1], threshold)
            ==> spec_big_gaps(sorted, threshold).contains((sorted[k], sorted[k + 1])),
        forall|j: int| 0 <= j < spec_big_gaps(sorted, threshold).len()
            ==> is_wide_pair_of(sorted, threshold, #[trigger] spec_big_gaps(sorted, threshold)[j]),
        forall|j1: int, j2: int| 0 <= j1 < j2 < spec_big_gaps(sorted, threshold).len()
            ==> (#[trigger] spec_big_gaps(sorted, threshold)[j1]).0 < (#[trigger] spec_big_gaps(sorted, threshold)[j2]).0,
{
    lemma_big_gaps_pairs(sorted, threshold);
    let r = spec_big_gaps(sorted, threshold);
    assert forall|k: int| 0 <= k < sorted.len() - 1 && #[trigger] inactive_days_at_least(sorted[k], sorted[k + 1], threshold)
        implies r.contains((sorted[k], sorted[k + 1])) by {
        lemma_gap_days_at_least(sorted[k], sorted[k + 1], threshold);
    }
    assert forall|j: int| 0 <= j < spec_big_gaps(sorted, threshold).len()
        implies is_wide_pair_of(sorted, threshold, #[trigger] spec_big_gaps(sorted, threshold)[j]) by {
        let k = choose|k: int| 0 <= k < sorted.len() - 1 && #[trigger] r[j] == (sorted[k], sorted[k + 1])
            && #[trigger] spec_gap_days(sorted[k], sorted[k + 1]) >= threshold;
        lemma_gap_days_at_least(sorted[k], sorted[k + 1], threshold);
        assert(0 <= k < sorted.len() - 1 && spec_big_gaps(sorted, threshold)[j] == (sorted[k], sorted[k + 1])
            && inactive_days_at_least(sorted[k], sorted[k + 1], threshold));
    }
}

/// Some active date falls in the Julian-day window `[from, to]`.
pub open spec fn has_date_in_window(dates: Seq<u32>, from: int, to: int) -> bool {
    exists|i: int| 0 <= i < dates.len() && from <= spec_yyyymmdd_to_jdn(#[trigger] dates[i]) <= to
}

/// Some active date lies within `[lo, hi]` (packed dates compare as integers).
pub open spec fn min_le(dates: Seq<u32>, x: u32) -> bool {
    exists|i: int| 0 <= i < dates.len() && #[trigger] dates[i] <= x
}

/// Some active date is at or after `x`.
pub open spec fn max_ge(dates: Seq<u32>, x: u32) -> bool {
    exists|i: int| 0 <= i < dates.len() && #[trigger] dates[i] >= x
}

/// CAL_021: the service's active period spans today (earliest active date ≤
/// today ≤ latest), it is used by at least one trip, and none of its active
/// dates falls in the next `upcoming_days` days (today included). Only
/// evaluated when today is known (non-zero).
pub open spec fn spec_no_upcoming_service(
    dates: Seq<u32>,
    today: u32,
    upcoming_days: u32,
    trip_count: u32,
) -> bool {
    let today_jdn = spec_yyyymmdd_to_jdn(today);
    &&& today > 0
    &&& min_le(dates, today)
    &&& max_ge(dates, today)
    &&& trip_count > 0
    &&& !has_date_in_window(dates, today_jdn, today_jdn + upcoming_days)
}

/// Whether any active date falls in the Julian-day window `[from, to]`.
pub fn has_date_between(dates: &[u32], from: u32, to: u64) -> (r: bool)
    ensures
        r == has_date_in_window(dates@, from as int, to as int),
{
    let mut i: usize = 0;
    while i < dates.len()
        invariant
            i <= dates.len(),
            forall|k: int| 0 <= k < i ==> !(from <= spec_yyyymmdd_to_jdn(#[trigger] dates@[k]) <= to),
        decreases dates.len() - i,
    {
        let j = yyyymmdd_to_jdn(dates[i]);
        if j >= from && (j as u64) <= to {
            return true;
        }
        i += 1;
    }
    false
}

/// CAL_021 for one service.
pub fn no_upcoming_service(dates: &[u32], today: u32, upcoming_days: u32, trip_count: u32) -> (r: bool)
    ensures
        r == spec_no_upcoming_service(dates@, today, upcoming_days, trip_count),
{
    if today == 0 || trip_count == 0 {
        return false;
    }
    let mut has_min = false;
    let mut has_max = false;
    let mut i: usize = 0;
    while i < dates.len()
        invariant
            i <= dates.len(),
            has_min == exists|k: int| 0 <= k < i && #[trigger] dates@[k] <= today,
            has_max == exists|k: int| 0 <= k < i && #[trigger] dates@[k] >= today,
        decreases dates.len() - i,
    {
        if dates[i] <= today {
            has_min = true;
        }
        if dates[i] >= today {
            has_max = true;
        }
        i += 1;
    }
    if !(has_min && has_max) {
        return false;
    }
    let today_jdn = yyyymmdd_to_jdn(today);
    !has_date_between(dates, today_jdn, today_jdn as u64 + upcoming_days as u64)
}

/// CAL_012 rather than CAL_007: the gap between two active dates overlaps the
/// period from today to 30 days ahead.
pub open spec fn spec_gap_is_near_future(gap_from: u32, gap_to: u32, today: u32) -> bool {
    let a = spec_yyyymmdd_to_jdn(gap_from);
    let b = spec_yyyymmdd_to_jdn(gap_to);
    let today_jdn = spec_yyyymmdd_to_jdn(today);
    (if b >= 1 { b - 1 } else { 0 }) >= today_jdn && a + 1 <= today_jdn + 30
}

/// Whether a service gap lies in the near future (CAL_012) or not (CAL_007).
pub fn gap_is_near_future(gap_from: u32, gap_to: u32, today: u32) -> (r: bool)
    ensures
        r == spec_gap_is_near_future(gap_from, gap_to, today),
{
    let a = yyyymmdd_to_jdn(gap_from) as u64;
    let b = yyyymmdd_to_jdn(gap_to) as u64;
    let t = yyyymmdd_to_jdn(today) as u64;
    let b1 = if b >= 1 { b - 1 } else { 0 };
    b1 >= t && a + 1 <= t + 30
}

/// CAL_023: the calendar's end year lies `max_future_years` or more years after
/// the current year (placeholder dates such as 2099-12-31).
pub open spec fn spec_end_date_far_future(end_year: u32, today: u32, max_future_years: u32) -> bool {
    today > 0 && end_year >= today / 10000 + max_future_years
}

/// CAL_023 for one calendar.txt row.
pub fn end_date_far_future(end_year: u32, today: u32, max_future_years: u32) -> (r: bool)
    ensures
        r == spec_end_date_far_future(end_year, today, max_future_years),
{
    today > 0 && (end_year as u64) >= (today / 10000) as u64 + max_future_years as u64
}

/// CAL_008: the calendar ends after today but within `warning_days` days; the
/// result is the number of days left.
pub open spec fn spec_days_until_expiry(end: u32, today: u32, warning_days: u32) -> Option<int> {
    let e = spec_yyyymmdd_to_jdn(end);
    let t = spec_yyyymmdd_to_jdn(today);
    if today > 0 && e > t && e - t <= warning_days {
        Some(e - t)
    } else {
        None
    }
}

/// CAL_008 for one calendar.txt row with the packed end date `end`.
pub fn days_until_expiry(end: u32, today: u32, warning_days: u32) -> (r: Option<u32>)
    ensures
        match r {
            Some(x) => spec_days_until_expiry(end, today, warning_days) == Some(x as int),
            None => spec_days_until_expiry(end, today, warning_days) is None,
        },
{
    if today == 0 {
        return None;
    }
    let e = yyyymmdd_to_jdn(end);
    let t = yyyymmdd_to_jdn(today);
    if e > t && e - t <= warning_days {
        Some(e - t)
    } else {
        None
    }
}

/// CLD_007: more than half of the service's active days come from
/// calendar_dates.txt exceptions.
pub open spec fn spec_too_many_exceptions(exception_count: u32, active_days: u32) -> bool {
    active_days > 0 && exception_count > active_days / 2
}

/// CLD_007 for one service.
pub fn too_many_exceptions(exception_count: u32, active_days: u32) -> (r: bool)
    ensures
        r == spec_too_many_exceptions(exception_count, active_days),
{
    active_days > 0 && exception_count > active_days / 2
}

/// CAL_014: some active date lies before the feed start or after the feed end
/// given in feed_info.txt.
pub open spec fn spec_outside_feed_window(dates: Seq<u32>, feed_start: u32, feed_end: u32) -> bool {
    exists|i: int| 0 <= i < dates.len() && (#[trigger] dates[i] < feed_start || dates[i] > feed_end)
}

/// CAL_014 for one service.
pub fn outside_feed_window(dates: &[u32], feed_start: u32, feed_end: u32) -> (r: bool)
    ensures
        r == spec_outside_feed_window(dates@, feed_start, feed_end),
{
    let mut i: usize = 0;
    while i < dates.len()
        invariant
            i <= dates.len(),
            forall|k: int| 0 <= k < i ==> !(#[trigger] dates@[k] < feed_start || dates@[k] > feed_end),
        decreases dates.len() - i,
    {
        if dates[i] < feed_start || dates[i] > feed_end {
            return true;
        }
        i += 1;
    }
    false
}

/// Where a service's active period lies relative to today.
#[derive(Debug, Clone, Copy, PartialEq, Eq, Structural)]
pub enum ServicePeriod {
    /// CAL_017: every active date is after today; carries the earliest one.
    NotStarted(u32),
    /// CAL_013: every active date is before today; carries the latest one.
    Expired(u32),
    /// Today lies within the active period.
    Current,
}

/// Earliest of the dates (0 when empty).
pub open spec fn earliest(dates: Seq<u32>) -> u32 {
    crate::headway::seq_min(dates)
}

/// Latest of the dates (0 when empty).
pub open spec fn latest(dates: Seq<u32>) -> u32 {
    crate::headway::seq_max(dates)
}

/// CAL_017 / CAL_013 classification of a service with at least one active date.
pub open spec fn spec_service_period(dates: Seq<u32>, today: u32) -> ServicePeriod {
    if earliest(dates) > today {
        ServicePeriod::NotStarted(earliest(dates))
    } else if latest(dates) < today {
        ServicePeriod::Expired(latest(dates))
    } else {
        ServicePeriod::Current
    }
}

/// Classifies a service's active period against today.
pub fn service_period(dates: &[u32], today: u32) -> (r: ServicePeriod)
    ensures
        r == spec_service_period(dates@, today),
{
    let lo = crate::headway::min_of(dates);
    let hi = crate::headway::max_of(dates);
    if lo > today {
        ServicePeriod::NotStarted(lo)
    } else if hi < today {
        ServicePeriod::Expired(hi)
    } else {
        ServicePeriod::Current
    }
}

/// The earliest value is one of the values and no value is smaller.
pub proof fn lemma_seq_min_is_min(s: Seq<u32>)
    requires
        s.len() > 0,
    ensures
        s.contains(crate::headway::seq_min(s)),
        forall|i: int| 0 <= i < s.len() ==> crate::headway::seq_min(s) <= #[trigger] s[i],
    decreases s.len(),
{
    if s.len() > 1 {
        lemma_seq_min_is_min(s.drop_last());
        let m = crate::headway::seq_min(s.drop_last());
        assert forall|i: int| 0 <= i < s.len() implies crate::headway::seq_min(s) <= #[trigger] s[i] by {
            if i < s.len() - 1 {
                assert(s.drop_last()[i] == s[i]);
            }
        }
        if m <= s.last() {
            let k = choose|k: int| 0 <= k < s.drop_last().len() && s.drop_last()[k] == m;
            assert(s[k] == m);
        } else {
            assert(s[s.len() - 1] == s.last());
        }
    } else {
        assert(s[0] == s[0]);
    }
}

/// The latest value is one of the values and no value is larger.
pub proof fn lemma_seq_max_is_max(s: Seq<u32>)
    requires
        s.len() > 0,
    ensures
        s.contains(crate::headway::seq_max(s)),
        forall|i: int| 0 <= i < s.len() ==> #[trigger] s[i] <= crate::headway::seq_max(s),
    decreases s.len(),
{
    if s.len() > 1 {
        lemma_seq_max_is_max(s.drop_last());
        let m = crate::headway::seq_max(s.drop_last());
        assert forall|i: int| 0 <= i < s.len() implies #[trigger] s[i] <= crate::headway::seq_max(s) by {
            if i < s.len() - 1 {
                assert(s.drop_last()[i] == s[i]);
            }
        }
        if m >= s.last() {
            let k = choose|k: int| 0 <= k < s.drop_last().len() && s.drop_last()[k] == m;
            assert(s[k] == m);
        } else {
            assert(s[s.len() - 1] == s.last());
        }
    } else {
        assert(crate::headway::seq_max(s.drop_last()) == 0);
        assert(s[0] == s[0]);
    }
}

/// A service that CAL_021 reports (its period spans today) is neither reported
/// as not yet started (CAL_017) nor as expired (CAL_013).
pub proof fn law_no_upcoming_service_is_current(
    dates: Seq<u32>,
    today: u32,
    upcoming_days: u32,
    trip_count: u32,
)
    requires
        spec_no_upcoming_service(dates, today, upcoming_days, trip_count),
    ensures
        spec_service_period(dates, today) == ServicePeriod::Current,
{
    let i = choose|i: int| 0 <= i < dates.len() && #[trigger] dates[i] <= today;
    let j = choose|j: int| 0 <= j < dates.len() && #[trigger] dates[j] >= today;
    lemma_seq_min_is_min(dates);
    lemma_seq_max_is_max(dates);
    assert(earliest(dates) <= dates[i]);
    assert(dates[j] <= latest(dates));
}


// ── Further calendar rules ───────────────────────────────────────────────────

/// Saturday or Sunday: Julian day numbers are 5 and 6 modulo 7 on those days.
pub open spec fn spec_is_weekend(date: u32) -> bool {
    spec_yyyymmdd_to_jdn(date) % 7 == 5 || spec_yyyymmdd_to_jdn(date) % 7 == 6
}

/// Whether a packed date is a Saturday or Sunday.
pub fn is_weekend(date: u32) -> (r: bool)
    ensures
        r == spec_is_weekend(date),
{
    let j = yyyymmdd_to_jdn(date);
    j % 7 == 5 || j % 7 == 6
}

/// OPR_004 helper: the service runs on at least one weekend day.
pub open spec fn spec_has_weekend_date(dates: Seq<u32>) -> bool {
    exists|i: int| 0 <= i < dates.len() && spec_is_weekend(#[trigger] dates[i])
}

/// Whether any of the dates is a Saturday or Sunday.
pub fn has_weekend_date(dates: &[u32]) -> (r: bool)
    ensures
        r == spec_has_weekend_date(dates@),
{
    let mut i: usize = 0;
    while i < dates.len()
        invariant
            i <= dates.len(),
            forall|k: int| 0 <= k < i ==> !spec_is_weekend(#[trigger] dates@[k]),
        decreases dates.len() - i,
    {
        if is_weekend(dates[i]) {
            return true;
        }
        i += 1;
    }
    false
}

/// The largest gap between consecutive dates of an ascending list, with the
/// first pair that reaches it: `(gap_days, from, to)`; `(0, 0, 0)` when no gap
/// is positive.
pub open spec fn spec_largest_gap(sorted: Seq<u32>) -> (u32, u32, u32)
    decreases sorted.len(),
{
    if sorted.len() < 2 {
        (0, 0, 0)
    } else {
        let rest = spec_largest_gap(sorted.drop_last());
        let a = sorted[sorted.len() - 2];
        let b = sorted.last();
        let g = spec_gap_days(a, b);
        if g > rest.0 { (g as u32, a, b) } else { rest }
    }
}

/// OPR_012: for a service used by trips with at least two active dates, the
/// largest run of inactive days when it reaches `threshold`.
pub open spec fn spec_service_gap_finding(sorted: Seq<u32>, threshold: u32) -> Option<(u32, u32, u32)> {
    if sorted.len() >= 2 && spec_largest_gap(sorted).0 >= threshold {
        Some(spec_largest_gap(sorted))
    } else {
        None
    }
}

/// OPR_012 for one service (the dates are sorted first, duplicates dropped).
pub fn service_gap_finding(dates: Vec<u32>, threshold: u32) -> (r: Option<(u32, u32, u32)>)
    ensures
        exists|d: Seq<u32>|
            crate::headway::is_distinct_sorted_of(d, dates@) && r == spec_service_gap_finding(d, threshold),
{
    let d = crate::headway::distinct_sorted(dates);
    if d.len() < 2 {
        assert(spec_service_gap_finding(d@, threshold) is None);
        return None;
    }
    let mut best: (u32, u32, u32) = (0, 0, 0);
    let mut i: usize = 1;
    assert(spec_largest_gap(d@.take(1)) == (0u32, 0u32, 0u32));
    while i < d.len()
        invariant
            1 <= i <= d.len(),
            best == spec_largest_gap(d@.take(i as int)),
        decreases d.len() - i,
    {
        assert(d@.take(i + 1).drop_last() =~= d@.take(i as int));
        let g = gap_days(d[i - 1], d[i]);
        if g > best.0 {
            best = (g, d[i - 1], d[i]);
        }
        i += 1;
    }
    assert(d@.take(i as int) =~= d@);
    if best.0 >= threshold {
        assert(spec_service_gap_finding(d@, threshold) == Some(best));
        Some(best)
    } else {
        assert(spec_service_gap_finding(d@, threshold) is None);
        None
    }
}

/// How a day inside a configured override window is served.
#[derive(Debug, Clone, Copy, PartialEq, Eq, Structural)]
pub enum OverrideDay {
    /// OPR_021: both the base and the override service run.
    BothActive,
    /// OPR_022: the base service runs but the override does not.
    OverrideMissing,
    /// OPR_023: neither service runs; the route has no service.
    NoService,
    /// Only the override runs, as intended.
    AsIntended,
}

/// Classification of a day of an override window.
pub open spec fn spec_override_day(base_active: bool, override_active: bool) -> OverrideDay {
    if base_active && override_active {
        OverrideDay::BothActive
    } else if base_active {
        OverrideDay::OverrideMissing
    } else if !override_active {
        OverrideDay::NoService
    } else {
        OverrideDay::AsIntended
    }
}

/// Classifies one day of an override window (OPR_021 / OPR_022 / OPR_023).
pub fn override_day(base_active: bool, override_active: bool) -> (r: OverrideDay)
    ensures
        r == spec_override_day(base_active, override_active),
{
    match (base_active, override_active) {
        (true, true) => OverrideDay::BothActive,
        (true, false) => OverrideDay::OverrideMissing,
        (false, false) => OverrideDay::NoService,
        (false, true) => OverrideDay::AsIntended,
    }
}

/// Some service is active on `date` (its date list holds it).
pub open spec fn any_service_active_on(services: Seq<Seq<u32>>, date: u32) -> bool {
    exists|i: int| 0 <= i < services.len() && (#[trigger] services[i]).contains(date)
}

/// Whether one of the given services (by their active dates) runs on `date`.
pub fn any_active_on(services: &[Vec<u32>], date: u32) -> (r: bool)
    ensures
        r == any_service_active_on(services@.map_values(|v: Vec<u32>| v@), date),
{
    let ghost sv = services@.map_values(|v: Vec<u32>| v@);
    let mut i: usize = 0;
    while i < services.len()
        invariant
            i <= services.len(),
            sv == services@.map_values(|v: Vec<u32>| v@),
            forall|k: int| 0 <= k < i ==> !(#[trigger] sv[k]).contains(date),
        decreases services.len() - i,
    {
        let v = &services[i];
        let mut j: usize = 0;
        while j < v.len()
            invariant
                j <= v.len(),
                i < services.len(),
                sv == services@.map_values(|v: Vec<u32>| v@),
                v@ == services@[i as int]@,
                forall|k: int| 0 <= k < j ==> v@[k] != date,
            decreases v.len() - j,
        {
            if v[j] == date {
                assert(sv[i as int] == v@);
                assert(sv[i as int].contains(date));
                return true;
            }
            j += 1;
        }
        assert(sv[i as int] == v@);
        assert(!sv[i as int].contains(date));
        i += 1;
    }
    false
}

/// CAL_024 / TRP_023 window test: the service has an active date within
/// `days` days starting today (`today_jdn <= jdn < today_jdn + days`).
pub open spec fn spec_active_within(dates: Seq<u32>, today_jdn: int, days: int) -> bool {
    exists|i: int| 0 <= i < dates.len() && today_jdn <= spec_yyyymmdd_to_jdn(#[trigger] dates[i]) < today_jdn + days
}

/// Whether the service runs on one of the `days` days starting today.
pub fn active_within(dates: &[u32], today: u32, days: u32) -> (r: bool)
    ensures
        r == spec_active_within(dates@, spec_yyyymmdd_to_jdn(today), days as int),
{
    let t = yyyymmdd_to_jdn(today) as u64;
    let mut i: usize = 0;
    while i < dates.len()
        invariant
            i <= dates.len(),
            t == spec_yyyymmdd_to_jdn(today),
            forall|k: int| 0 <= k < i ==> !(t <= spec_yyyymmdd_to_jdn(#[trigger] dates@[k]) < t + days),
        decreases dates.len() - i,
    {
        let j = yyyymmdd_to_jdn(dates[i]) as u64;
        if j >= t && j < t + days as u64 {
            return true;
        }
        i += 1;
    }
    false
}

/// Feed-level calendar findings (CAL_015 / CAL_016), from every service's
/// active dates; both need today and at least one active date.
#[derive(Debug, Clone, Copy, PartialEq, Eq, Structural)]
pub struct FeedCalendarFindings {
    /// CAL_015: the earliest active date, when it is after today.
    pub not_yet_active: Option<u32>,
    /// CAL_016: the latest active date, when it is more than 730 days ahead.
    pub far_future_end: Option<u32>,
}

/// All active dates of all services.
pub open spec fn all_dates(services: Seq<Seq<u32>>) -> Seq<u32>
    decreases services.len(),
{
    if services.len() == 0 {
        Seq::empty()
    } else {
        all_dates(services.drop_last()) + services.last()
    }
}

/// CAL_015 / CAL_016 from the earliest and latest active date of the feed.
pub open spec fn spec_feed_calendar_findings(all: Seq<u32>, today: u32) -> FeedCalendarFindings {
    if today == 0 || all.len() == 0 {
        FeedCalendarFindings { not_yet_active: None, far_future_end: None }
    } else {
        let first = earliest(all);
        let last = latest(all);
        FeedCalendarFindings {
            not_yet_active: if first > today { Some(first) } else { None },
            far_future_end: if spec_yyyymmdd_to_jdn(last) > spec_yyyymmdd_to_jdn(today) + 730 {
                Some(last)
            } else {
                None
            },
        }
    }
}

/// Feed-level checks of the service period against today.
pub fn feed_calendar_findings(services: &[Vec<u32>], today: u32) -> (r: FeedCalendarFindings)
    ensures
        r == spec_feed_calendar_findings(all_dates(services@.map_values(|v: Vec<u32>| v@)), today),
{
    let ghost sv = services@.map_values(|v: Vec<u32>| v@);
    let mut all: Vec<u32> = Vec::new();
    let mut i: usize = 0;
    while i < services.len()
        invariant
            i <= services.len(),
            sv == services@.map_values(|v: Vec<u32>| v@),
            all@ == all_dates(sv.take(i as int)),
        decreases services.len() - i,
    {
        let v = &services[i];
        let mut j: usize = 0;
        let ghost base = all@;
        while j < v.len()
            invariant
                j <= v.len(),
                all@ == base + v@.take(j as int),
            decreases v.len() - j,
        {
            all.push(v[j]);
            assert(v@.take(j + 1) =~= v@.take(j as int).push(v@[j as int]));
            assert(all@ =~= base + v@.take(j + 1));
            j += 1;
        }
        assert(v@.take(j as int) =~= v@);
        assert(sv.take(i + 1).drop_last() =~= sv.take(i as int));
        assert(sv.take(i + 1).last() == v@);
        i += 1;
    }
    assert(sv.take(i as int) =~= sv);
    if today == 0 || all.len() == 0 {
        return FeedCalendarFindings { not_yet_active: None, far_future_end: None };
    }
    let first = crate::headway::min_of(&all);
    let last = crate::headway::max_of(&all);
    let t = yyyymmdd_to_jdn(today) as u64;
    let l = yyyymmdd_to_jdn(last) as u64;
    FeedCalendarFindings {
        not_yet_active: if first > today { Some(first) } else { None },
        far_future_end: if l > t + 730 { Some(last) } else { None },
    }
}


// ── feed_info.txt validity window ────────────────────────────────────────────

/// Findings on the validity window of feed_info.txt.
#[derive(Debug, Clone, Copy, PartialEq, Eq, Structural)]
pub struct FeedValidityFindings {
    /// FIN_010: the feed end date is before today.
    pub expired: bool,
    /// FIN_016: the feed start date is after today.
    pub not_started: bool,
    /// FIN_017: the feed end date is more than 730 days ahead.
    pub end_too_far: bool,
    /// FIN_019: days left when the feed ends within the next seven days (not today).
    pub expires_within_week: Option<u32>,
    /// FIN_020: the window length in days, when under seven days.
    pub window_too_short: Option<u32>,
    /// CAL_020: the window length in days, when over 1825 days (about five years).
    pub window_too_long: Option<u32>,
}

/// A packed date tuple fits `u32`.
pub open spec fn date_fits(d: Option<(u32, u32, u32)>) -> bool {
    match d {
        Some(d) => spec_pack_date(d.0, d.1, d.2) <= u32::MAX,
        None => true,
    }
}

/// Packed form of an optional date tuple.
pub open spec fn packed(d: Option<(u32, u32, u32)>) -> Option<u32> {
    match d {
        Some(d) => Some(spec_pack_date(d.0, d.1, d.2) as u32),
        None => None,
    }
}

/// Days from `a` to `b` (0 when `b` is not later).
pub open spec fn days_between(a: u32, b: u32) -> int {
    let d = spec_yyyymmdd_to_jdn(b) - spec_yyyymmdd_to_jdn(a);
    if d > 0 { d } else { 0 }
}

/// FIN_010 / FIN_016 / FIN_017 / FIN_019 need today; FIN_020 / CAL_020 only
/// need both dates.
pub open spec fn spec_feed_validity_findings(start: Option<u32>, end: Option<u32>, today: u32) -> FeedValidityFindings {
    let t = today > 0;
    FeedValidityFindings {
        expired: t && end is Some && end->0 < today,
        not_started: t && start is Some && start->0 > today,
        end_too_far: t && end is Some && spec_yyyymmdd_to_jdn(end->0) > spec_yyyymmdd_to_jdn(today) + 730,
        expires_within_week: if t && end is Some && end->0 >= today && 0 < days_between(today, end->0) <= 7 {
            Some(days_between(today, end->0) as u32)
        } else {
            None
        },
        window_too_short: if start is Some && end is Some && days_between(start->0, end->0) < 7 {
            Some(days_between(start->0, end->0) as u32)
        } else {
            None
        },
        window_too_long: if start is Some && end is Some && days_between(start->0, end->0) > 1825 {
            Some(days_between(start->0, end->0) as u32)
        } else {
            None
        },
    }
}

fn pack_opt(d: Option<(u32, u32, u32)>) -> (r: Option<u32>)
    requires
        date_fits(d),
    ensures
        r == packed(d),
{
    match d {
        Some(x) => Some(pack_date(x)),
        None => None,
    }
}

fn days_from(a: u32, b: u32) -> (r: u32)
    ensures
        r == days_between(a, b),
{
    let ja = yyyymmdd_to_jdn(a);
    let jb = yyyymmdd_to_jdn(b);
    jb.saturating_sub(ja)
}

/// Checks the feed_info.txt validity window against today.
pub fn feed_validity_findings(
    start: Option<(u32, u32, u32)>,
    end: Option<(u32, u32, u32)>,
    today: u32,
) -> (r: FeedValidityFindings)
    requires
        date_fits(start),
        date_fits(end),
    ensures
        r == spec_feed_validity_findings(packed(start), packed(end), today),
{
    let s = pack_opt(start);
    let e = pack_opt(end);
    let t = today > 0;
    let tj = yyyymmdd_to_jdn(today) as u64;
    let expired = t && match e { Some(x) => x < today, None => false };
    let not_started = t && match s { Some(x) => x > today, None => false };
    let end_too_far = t && match e { Some(x) => (yyyymmdd_to_jdn(x) as u64) > tj + 730, None => false };
    let expires_within_week = match e {
        Some(x) => {
            if t && x >= today {
                let left = days_from(today, x);
                if left <= 7 && left > 0 { Some(left) } else { None }
            } else {
                None
            }
        },
        None => None,
    };
    let (window_too_short, window_too_long) = match (s, e) {
        (Some(a), Some(b)) => {
            let span = days_from(a, b);
            (if span < 7 { Some(span) } else { None }, if span > 1825 { Some(span) } else { None })
        },
        _ => (None, None),
    };
    FeedValidityFindings { expired, not_started, end_too_far, expires_within_week, window_too_short, window_too_long }
}

/// FIN_018: neither a contact email nor a contact URL is given (a value that is
/// only whitespace counts as missing).
pub open spec fn spec_missing_feed_contact(email: Option<Seq<char>>, url: Option<Seq<char>>) -> bool {
    (email is None || crate::text::spec_is_blank(email->0)) && (url is None || crate::text::spec_is_blank(url->0))
}

/// FIN_018 for feed_info.txt.
pub fn missing_feed_contact(email: Option<&str>, url: Option<&str>) -> (r: bool)
    ensures
        r == spec_missing_feed_contact(
            match email { Some(e) => Some(e@), None => None },
            match url { Some(u) => Some(u@), None => None },
        ),
{
    let no_email = match email {
        Some(e) => crate::text::is_blank(e),
        None => true,
    };
    let no_url = match url {
        Some(u) => crate::text::is_blank(u),
        None => true,
    };
    no_email && no_url
}

/// A feed cannot be both expired (FIN_010) and not yet started (FIN_016) when
/// its start date is not after its end date.
pub proof fn law_feed_not_expired_and_unstarted(start: u32, end: u32, today: u32)
    requires
        start <= end,
    ensures
        !(spec_feed_validity_findings(Some(start), Some(end), today).expired
            && spec_feed_validity_findings(Some(start), Some(end), today).not_started),
{
}

// ── OPR_021 / OPR_022 / OPR_023: walking an override window ─────────────────

/// Packs a date triple as `YYYYMMDD`.
pub open spec fn packed_ymd(t: (int, int, int)) -> int {
    t.0 * 10000 + t.1 * 100 + t.2
}

/// The day after a real date is a real date, and later in packed form by at
/// most a year's step.
pub proof fn lemma_next_day_later(y: int, m: int, d: int)
    requires
        is_valid_date(y, m, d),
    ensures
        is_valid_date(next_day(y, m, d).0, next_day(y, m, d).1, next_day(y, m, d).2),
        packed_ymd((y, m, d)) < packed_ymd(next_day(y, m, d)) <= packed_ymd((y, m, d)) + 10000,
{
}

/// The days of an override window from `cur` (a real date) up to the packed
/// date `end`, one after the other.
pub open spec fn window_days(cur: (int, int, int), end: int) -> Seq<u32>
    decreases end + 10001 - packed_ymd(cur),
{
    if !is_valid_date(cur.0, cur.1, cur.2) || packed_ymd(cur) > end {
        Seq::empty()
    } else {
        proof {
            lemma_next_day_later(cur.0, cur.1, cur.2);
        }
        seq![packed_ymd(cur) as u32] + window_days(next_day(cur.0, cur.1, cur.2), end)
    }
}

/// The days of `days`, in order, that the override rule classifies as `kind`,
/// given the active dates of its base and of its override services.
pub open spec fn days_of_kind(days: Seq<u32>, base: Seq<Seq<u32>>, over: Seq<Seq<u32>>, kind: OverrideDay) -> Seq<u32>
    decreases days.len(),
{
    if days.len() == 0 {
        Seq::empty()
    } else {
        let d = days[0];
        let here: Seq<u32> = if spec_override_day(any_service_active_on(base, d), any_service_active_on(over, d)) == kind {
            seq![d]
        } else {
            Seq::empty()
        };
        here + days_of_kind(days.drop_first(), base, over, kind)
    }
}

/// The days of an override rule's window, from its start date to its end
/// date, split by class: OPR_021 (both run), OPR_022 (override missing) and
/// OPR_023 (no service), each in date order.
#[derive(Debug)]
pub struct OverrideWindow {
    pub both_active: Vec<u32>,
    pub override_missing: Vec<u32>,
    pub no_service: Vec<u32>,
}

proof fn lemma_days_of_kind_step(days: Seq<u32>, base: Seq<Seq<u32>>, over: Seq<Seq<u32>>, kind: OverrideDay)
    requires
        days.len() > 0,
    ensures
        days_of_kind(days, base, over, kind) == (if spec_override_day(any_service_active_on(base, days[0]),
            any_service_active_on(over, days[0])) == kind { seq![days[0]] } else { Seq::<u32>::empty() })
            + days_of_kind(days.drop_first(), base, over, kind),
{
}

/// Walks an override rule's window day by day from `start` to `end`
/// (packed dates, `start` a real date) and collects the days of each class,
/// given the active dates of the rule's base services and of its override
/// services. Days on which only the override runs go nowhere.
pub fn override_window(start: u32, end: u32, base: &[Vec<u32>], over: &[Vec<u32>]) -> (r: OverrideWindow)
    requires
        is_valid_date(date_parts(start).0, date_parts(start).1, date_parts(start).2),
        end <= u32::MAX - 20000,
    ensures
        ({
            let days = window_days(date_parts(start), end as int);
            let b = base@.map_values(|v: Vec<u32>| v@);
            let o = over@.map_values(|v: Vec<u32>| v@);
            &&& r.both_active@ == days_of_kind(days, b, o, OverrideDay::BothActive)
            &&& r.override_missing@ == days_of_kind(days, b, o, OverrideDay::OverrideMissing)
            &&& r.no_service@ == days_of_kind(days, b, o, OverrideDay::NoService)
        }),
{
    let ghost b = base@.map_values(|v: Vec<u32>| v@);
    let ghost o = over@.map_values(|v: Vec<u32>| v@);
    let ghost all = window_days(date_parts(start), end as int);
    let mut y: u32 = start / 10000;
    let mut m: u32 = (start / 100) % 100;
    let mut d: u32 = start % 100;
    proof {
        assert(start == y * 10000 + m * 100 + d) by (nonlinear_arith)
            requires y == start / 10000, m == (start / 100) % 100, d == start % 100;
    }
    let mut both: Vec<u32> = Vec::new();
    let mut missing: Vec<u32> = Vec::new();
    let mut none: Vec<u32> = Vec::new();
    if start > end {
        proof {
            assert(all =~= Seq::<u32>::empty());
        }
        return OverrideWindow { both_active: both, override_missing: missing, no_service: none };
    }
    loop
        invariant
            end <= u32::MAX - 20000,
            is_valid_date(y as int, m as int, d as int),
            packed_ymd((y as int, m as int, d as int)) <= end + 10000,
            b == base@.map_values(|v: Vec<u32>| v@),
            o == over@.map_values(|v: Vec<u32>| v@),
            all == window_days(date_parts(start), end as int),
            days_of_kind(all, b, o, OverrideDay::BothActive)
                == both@ + days_of_kind(window_days((y as int, m as int, d as int), end as int), b, o, OverrideDay::BothActive),
            days_of_kind(all, b, o, OverrideDay::OverrideMissing)
                == missing@ + days_of_kind(window_days((y as int, m as int, d as int), end as int), b, o, OverrideDay::OverrideMissing),
            days_of_kind(all, b, o, OverrideDay::NoService)
                == none@ + days_of_kind(window_days((y as int, m as int, d as int), end as int), b, o, OverrideDay::NoService),
        ensures
            days_of_kind(all, b, o, OverrideDay::BothActive) == both@,
            days_of_kind(all, b, o, OverrideDay::OverrideMissing) == missing@,
            days_of_kind(all, b, o, OverrideDay::NoService) == none@,
        decreases end + 10001 - packed_ymd((y as int, m as int, d as int)),
    {
        let ghost cur = (y as int, m as int, d as int);
        let date: u64 = y as u64 * 10000 + m as u64 * 100 + d as u64;
        if date > end as u64 {
            proof {
                assert(window_days(cur, end as int) =~= Seq::<u32>::empty());
                assert(both@ =~= both@ + Seq::<u32>::empty());
                assert(missing@ =~= missing@ + Seq::<u32>::empty());
                assert(none@ =~= none@ + Seq::<u32>::empty());
            }
            break;
        }
        let date = date as u32;
        let ghost rest = window_days(cur, end as int);
        proof {
            lemma_next_day_later(cur.0, cur.1, cur.2);
            assert(rest == seq![date] + window_days(next_day(cur.0, cur.1, cur.2), end as int));
            assert(rest.drop_first() =~= window_days(next_day(cur.0, cur.1, cur.2), end as int));
            lemma_days_of_kind_step(rest, b, o, OverrideDay::BothActive);
            lemma_days_of_kind_step(rest, b, o, OverrideDay::OverrideMissing);
            lemma_days_of_kind_step(rest, b, o, OverrideDay::NoService);
        }
        let base_on = any_active_on(base, date);
        let over_on = any_active_on(over, date);
        let ghost both0 = both@;
        let ghost missing0 = missing@;
        let ghost none0 = none@;
        match override_day(base_on, over_on) {
            OverrideDay::BothActive => both.push(date),
            OverrideDay::OverrideMissing => missing.push(date),
            OverrideDay::NoService => none.push(date),
            OverrideDay::AsIntended => {},
        }
        // The next day.
        let dim: u32 = if m == 2 {
            if (y % 4 == 0 && y % 100 != 0) || y % 400 == 0 { 29 } else { 28 }
        } else if m == 4 || m == 6 || m == 9 || m == 11 {
            30
        } else {
            31
        };
        if d < dim {
            d = d + 1;
        } else if m < 12 {
            m = m + 1;
            d = 1;
        } else {
            y = y + 1;
            m = 1;
            d = 1;
        }
        proof {
            assert((y as int, m as int, d as int) == next_day(cur.0, cur.1, cur.2));
            let nxt = window_days(next_day(cur.0, cur.1, cur.2), end as int);
            assert(both@ + days_of_kind(nxt, b, o, OverrideDay::BothActive)
                =~= both0 + days_of_kind(rest, b, o, OverrideDay::BothActive));
            assert(missing@ + days_of_kind(nxt, b, o, OverrideDay::OverrideMissing)
                =~= missing0 + days_of_kind(rest, b, o, OverrideDay::OverrideMissing));
            assert(none@ + days_of_kind(nxt, b, o, OverrideDay::NoService)
                =~= none0 + days_of_kind(rest, b, o, OverrideDay::NoService));
        }
    }
    OverrideWindow { both_active: both, override_missing: missing, no_service: none }
}

proof fn lemma_unpack(t: (int, int, int))
    requires
        is_valid_date(t.0, t.1, t.2),
        packed_ymd(t) <= u32::MAX,
    ensures
        date_parts(packed_ymd(t) as u32) == t,
{
    let p = packed_ymd(t);
    let (y, m, d) = t;
    assert(p / 10000 == y) by (nonlinear_arith)
        requires p == y * 10000 + m * 100 + d, 1 <= m <= 12, 1 <= d <= 31, y >= 1;
    assert(p / 100 == y * 100 + m) by (nonlinear_arith)
        requires p == y * 10000 + m * 100 + d, 1 <= d <= 31, y >= 1, m >= 1;
    assert((y * 100 + m) % 100 == m) by (nonlinear_arith)
        requires 1 <= m <= 12, y >= 1;
    assert(p % 100 == d) by (nonlinear_arith)
        requires p == y * 10000 + m * 100 + d, 1 <= d <= 31, y >= 1, m >= 1;
}

/// The window's days are consecutive days: the `k`-th has the day number of
/// the first plus `k`, and none lies after the end date.
pub proof fn law_window_days_are_consecutive(cur: (int, int, int), end: int)
    requires
        is_valid_date(cur.0, cur.1, cur.2),
        end <= u32::MAX - 20000,
    ensures
        forall|k: int| 0 <= k < window_days(cur, end).len() ==>
            spec_yyyymmdd_to_jdn(#[trigger] window_days(cur, end)[k]) == spec_ymd_to_jdn(cur.0, cur.1, cur.2) + k
            && window_days(cur, end)[k] <= end,
    decreases end + 10001 - packed_ymd(cur),
{
    if packed_ymd(cur) <= end {
        lemma_next_day_later(cur.0, cur.1, cur.2);
        let nxt = next_day(cur.0, cur.1, cur.2);
        law_window_days_are_consecutive(nxt, end);
        law_jdn_counts_days(cur.0, cur.1, cur.2);
        lemma_unpack(cur);
        let w = window_days(cur, end);
        let w2 = window_days(nxt, end);
        assert(w == seq![packed_ymd(cur) as u32] + w2);
        assert forall|k: int| 0 <= k < w.len() implies spec_yyyymmdd_to_jdn(#[trigger] w[k])
            == spec_ymd_to_jdn(cur.0, cur.1, cur.2) + k && w[k] <= end by {
            if k == 0 {
                assert(w[0] == packed_ymd(cur) as u32);
            } else {
                assert(w[k] == w2[k - 1]);
            }
        }
    }
}

} // verus!
