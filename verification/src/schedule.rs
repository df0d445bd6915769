use vstd::prelude::*;
use crate::clock::{hms_to_secs, spec_hms_to_secs};

verus! {

/// One stop_times.txt row of a trip, as the timing rules read it.
#[derive(Debug, Clone, Copy)]
pub struct StopTime {
    /// Line number of the row in stop_times.txt.
    pub line: u32,
    /// `stop_sequence`, when given.
    pub stop_sequence: Option<u32>,
    /// `arrival_time` as (hours, minutes, seconds), when given.
    pub arrival: Option<(u32, u32, u32)>,
    /// `departure_time` as (hours, minutes, seconds), when given.
    pub departure: Option<(u32, u32, u32)>,
    /// Whether `shape_dist_traveled` is given.
    pub has_shape_dist: bool,
}

/// A time whose value in seconds fits `u32`.
pub open spec fn time_fits(t: Option<(u32, u32, u32)>) -> bool {
    match t {
        Some(t) => spec_hms_to_secs(t) <= u32::MAX,
        None => true,
    }
}

/// Seconds of an optional time.
pub open spec fn secs(t: Option<(u32, u32, u32)>) -> Option<int> {
    match t {
        Some(t) => Some(spec_hms_to_secs(t)),
        None => None,
    }
}

impl StopTime {
    /// Both times are representable in seconds.
    pub open spec fn well_formed(&self) -> bool {
        time_fits(self.arrival) && time_fits(self.departure)
    }
}

/// Every row of the trip is well formed.
pub open spec fn all_well_formed(stops: Seq<StopTime>) -> bool {
    forall|i: int| 0 <= i < stops.len() ==> (#[trigger] stops[i]).well_formed()
}

fn opt_secs(t: Option<(u32, u32, u32)>) -> (r: Option<u32>)
    requires
        time_fits(t),
    ensures
        match r {
            Some(x) => secs(t) == Some(x as int),
            None => t is None,
        },
{
    match t {
        Some(t) => Some(hms_to_secs(t)),
        None => None,
    }
}

// ── STM_007 / STM_049: departure before arrival at the same stop ─────────────

/// Outcome of comparing arrival and departure at one stop.
#[derive(Debug, Clone, Copy, PartialEq, Eq, Structural)]
pub enum SameStopOrder {
    /// Departure is not before arrival, or a time is missing.
    Consistent,
    /// Departure is before arrival only because it was written as 00:xx after
    /// midnight (STM_049, counted, not reported per stop).
    MidnightWrap,
    /// STM_007: departure (first) is before arrival (second), in seconds.
    DepartureBeforeArrival(u32, u32),
}

/// STM_007 classification. With a service day starting at `sds_secs` seconds
/// after midnight, a departure that lies within that many seconds after the
/// arrival once a day (86400 s) is added is a midnight wrap, not an error.
pub open spec fn spec_same_stop_order(st: StopTime, sds_secs: int) -> SameStopOrder {
    match (secs(st.arrival), secs(st.departure)) {
        (Some(arr), Some(dep)) => {
            if dep >= arr {
                SameStopOrder::Consistent
            } else if sds_secs > 0 && (if dep + 86400 >= arr { dep + 86400 - arr } else { 0 }) <= sds_secs {
                SameStopOrder::MidnightWrap
            } else {
                SameStopOrder::DepartureBeforeArrival(dep as u32, arr as u32)
            }
        },
        _ => SameStopOrder::Consistent,
    }
}

/// Checks one stop for a departure earlier than its arrival.
pub fn same_stop_order(st: &StopTime, service_day_start_hour: u32) -> (r: SameStopOrder)
    requires
        st.well_formed(),
        service_day_start_hour * 3600 <= u32::MAX,
    ensures
        r == spec_same_stop_order(*st, service_day_start_hour * 3600),
{
    let sds_secs = service_day_start_hour * 3600;
    match (st.arrival, st.departure) {
        (Some(a), Some(d)) => {
            let arr = hms_to_secs(a);
            let dep = hms_to_secs(d);
            if dep >= arr {
                return SameStopOrder::Consistent;
            }
            let wrapped = (dep as u64 + 86400).saturating_sub(arr as u64);
            if sds_secs > 0 && wrapped <= sds_secs as u64 {
                SameStopOrder::MidnightWrap
            } else {
                SameStopOrder::DepartureBeforeArrival(dep, arr)
            }
        },
        _ => SameStopOrder::Consistent,
    }
}

/// Rows of one trip that STM_007 counts as midnight wraps.
pub open spec fn wraps_in(rows: Seq<StopTime>, sds_secs: int) -> nat
    decreases rows.len(),
{
    if rows.len() == 0 {
        0
    } else {
        wraps_in(rows.drop_last(), sds_secs) + if spec_same_stop_order(rows.last(), sds_secs) is MidnightWrap {
            1nat
        } else {
            0nat
        }
    }
}

/// STM_049: the midnight-wrap rows of all trips of at least two rows.
pub open spec fn midnight_wraps(trips: Seq<Vec<StopTime>>, sds_secs: int) -> nat
    decreases trips.len(),
{
    if trips.len() == 0 {
        0
    } else {
        midnight_wraps(trips.drop_last(), sds_secs) + if trips.last()@.len() >= 2 {
            wraps_in(trips.last()@, sds_secs)
        } else {
            0nat
        }
    }
}

/// Number of rows of all trips together.
pub open spec fn total_rows(trips: Seq<Vec<StopTime>>) -> nat
    decreases trips.len(),
{
    if trips.len() == 0 {
        0
    } else {
        total_rows(trips.drop_last()) + trips.last()@.len()
    }
}

proof fn lemma_wraps_bound(rows: Seq<StopTime>, sds_secs: int)
    ensures
        wraps_in(rows, sds_secs) <= rows.len(),
    decreases rows.len(),
{
    if rows.len() > 0 {
        lemma_wraps_bound(rows.drop_last(), sds_secs);
    }
}

proof fn lemma_midnight_wraps_bound(trips: Seq<Vec<StopTime>>, sds_secs: int)
    ensures
        midnight_wraps(trips, sds_secs) <= total_rows(trips),
    decreases trips.len(),
{
    if trips.len() > 0 {
        lemma_midnight_wraps_bound(trips.drop_last(), sds_secs);
        lemma_wraps_bound(trips.last()@, sds_secs);
    }
}

proof fn lemma_total_rows_prefix(trips: Seq<Vec<StopTime>>, j: int)
    requires
        0 <= j <= trips.len(),
    ensures
        total_rows(trips.take(j)) <= total_rows(trips),
    decreases trips.len() - j,
{
    if j < trips.len() {
        lemma_total_rows_prefix(trips, j + 1);
        assert(trips.take(j + 1).drop_last() =~= trips.take(j));
    } else {
        assert(trips.take(j) =~= trips);
    }
}

/// STM_049 count: the rows, over every trip of at least two rows, whose
/// departure is before their arrival only by a midnight wrap (STM_007 skips
/// them). A feed-level STM_049 reports this count when it is not zero.
pub fn midnight_wrap_count(trips: &[Vec<StopTime>], service_day_start_hour: u32) -> (r: u64)
    requires
        forall|j: int| 0 <= j < trips@.len() ==> all_well_formed((#[trigger] trips@[j])@),
        service_day_start_hour * 3600 <= u32::MAX,
        total_rows(trips@) <= u64::MAX,
    ensures
        r == midnight_wraps(trips@, service_day_start_hour * 3600),
{
    let ghost sds = service_day_start_hour * 3600;
    let mut total: u64 = 0;
    let mut j: usize = 0;
    while j < trips.len()
        invariant
            j <= trips.len(),
            forall|q: int| 0 <= q < trips@.len() ==> all_well_formed((#[trigger] trips@[q])@),
            service_day_start_hour * 3600 <= u32::MAX,
            sds == service_day_start_hour * 3600,
            total_rows(trips@) <= u64::MAX,
            total == midnight_wraps(trips@.take(j as int), sds),
        decreases trips.len() - j,
    {
        let rows = &trips[j];
        proof {
            assert(trips@.take(j + 1).drop_last() =~= trips@.take(j as int));
            assert(trips@.take(j + 1).last() == trips@[j as int]);
            lemma_total_rows_prefix(trips@, j + 1);
            lemma_midnight_wraps_bound(trips@.take(j + 1), sds);
            assert(all_well_formed(rows@));
        }
        if rows.len() >= 2 {
            let mut k: usize = 0;
            let mut here: u64 = 0;
            while k < rows.len()
                invariant
                    k <= rows@.len(),
                    all_well_formed(rows@),
                    service_day_start_hour * 3600 <= u32::MAX,
                    sds == service_day_start_hour * 3600,
                    here == wraps_in(rows@.take(k as int), sds),
                    here <= k,
                decreases rows@.len() - k,
            {
                proof {
                    assert(rows@.take(k + 1).drop_last() =~= rows@.take(k as int));
                    assert(rows@.take(k + 1).last() == rows@[k as int]);
                    assert(rows@[k as int].well_formed());
                }
                if same_stop_order(&rows[k], service_day_start_hour) == SameStopOrder::MidnightWrap {
                    here = here + 1;
                }
                k += 1;
            }
            proof {
                assert(rows@.take(rows@.len() as int) =~= rows@);
            }
            total = total + here;
        }
        j += 1;
    }
    proof {
        assert(trips@.take(trips@.len() as int) =~= trips@);
    }
    total
}

/// A midnight wrap is never reported as a departure-before-arrival error, and
/// a stop whose departure is not before its arrival is never reported at all.
pub proof fn law_midnight_wrap_not_reported(st: StopTime, sds_secs: int)
    requires
        st.well_formed(),
        sds_secs > 0,
        st.arrival is Some,
        st.departure is Some,
        spec_hms_to_secs(st.departure->0) + 86400 - spec_hms_to_secs(st.arrival->0) <= sds_secs,
    ensures
        !(spec_same_stop_order(st, sds_secs) is DepartureBeforeArrival),
{
}

// ── STM_028 / STM_029: trip duration ──────────────────────────────────────────

/// Findings on the duration of one trip (first departure to last arrival).
#[derive(Debug, Clone, Copy, PartialEq, Eq, Structural)]
pub struct DurationFindings {
    /// STM_028: the duration, when it exceeds the maximum.
    pub too_long: Option<u32>,
    /// STM_029: the duration, when it is below the minimum.
    pub too_short: Option<u32>,
}

/// Trip duration from the first stop's departure to the last stop's arrival,
/// when both exist and the arrival is not earlier.
pub open spec fn spec_trip_duration(stops: Seq<StopTime>) -> Option<int> {
    if stops.len() == 0 {
        None
    } else {
        match (secs(stops[0].departure), secs(stops.last().arrival)) {
            (Some(dep), Some(arr)) => if arr >= dep { Some(arr - dep) } else { None },
            _ => None,
        }
    }
}

/// STM_028 / STM_029 for a trip.
pub open spec fn spec_duration_findings(stops: Seq<StopTime>, max_secs: u32, min_secs: u32) -> DurationFindings {
    match spec_trip_duration(stops) {
        Some(d) => DurationFindings {
            too_long: if d > max_secs { Some(d as u32) } else { None },
            too_short: if d < min_secs { Some(d as u32) } else { None },
        },
        None => DurationFindings { too_long: None, too_short: None },
    }
}

/// Checks the total duration of a trip against the maximum and minimum.
pub fn duration_findings(stops: &[StopTime], max_secs: u32, min_secs: u32) -> (r: DurationFindings)
    requires
        all_well_formed(stops@),
    ensures
        r == spec_duration_findings(stops@, max_secs, min_secs),
{
    let none = DurationFindings { too_long: None, too_short: None };
    if stops.len() == 0 {
        return none;
    }
    assert(stops@[0].well_formed());
    assert(stops@[stops.len() - 1].well_formed());
    let first = opt_secs(stops[0].departure);
    let last = opt_secs(stops[stops.len() - 1].arrival);
    match (first, last) {
        (Some(dep), Some(arr)) => {
            if arr >= dep {
                let d = arr - dep;
                DurationFindings {
                    too_long: if d > max_secs { Some(d) } else { None },
                    too_short: if d < min_secs { Some(d) } else { None },
                }
            } else {
                none
            }
        },
        _ => none,
    }
}

// ── STM_053: identical times at consecutive stops ─────────────────────────────

/// The time of the stop event: arrival, or departure when arrival is missing.
pub open spec fn event_secs(st: StopTime) -> Option<int> {
    if st.arrival is Some {
        secs(st.arrival)
    } else {
        secs(st.departure)
    }
}

/// Length of the run of equal, present event times that ends at stop `i`.
pub open spec fn run_ending_at(stops: Seq<StopTime>, i: int) -> nat
    decreases i,
{
    if i <= 0 {
        1
    } else if event_secs(stops[i]) is Some && event_secs(stops[i]) == event_secs(stops[i - 1]) {
        run_ending_at(stops, i - 1) + 1
    } else {
        1
    }
}

/// Longest run of consecutive stops sharing one event time (1 for a trip with
/// fewer than two stops or no repeated times).
pub open spec fn spec_max_same_time_run(stops: Seq<StopTime>) -> nat
    decreases stops.len(),
{
    if stops.len() <= 1 {
        1
    } else {
        let prev = spec_max_same_time_run(stops.drop_last());
        let here = run_ending_at(stops, stops.len() - 1);
        if here > prev { here } else { prev }
    }
}

proof fn lemma_run_prefix(stops: Seq<StopTime>, n: int, i: int)
    requires
        0 <= i < n <= stops.len(),
    ensures
        run_ending_at(stops.take(n), i) == run_ending_at(stops, i),
    decreases i,
{
    if i > 0 {
        lemma_run_prefix(stops, n, i - 1);
    }
}

proof fn lemma_run_bounded(stops: Seq<StopTime>, i: int)
    requires
        0 <= i,
    ensures
        1 <= run_ending_at(stops, i) <= i + 1,
    decreases i,
{
    if i > 0 {
        lemma_run_bounded(stops, i - 1);
    }
}

/// Stops `s..=e` share one present event time, stop by stop.
pub open spec fn same_time_stretch(stops: Seq<StopTime>, s: int, e: int) -> bool {
    &&& 0 <= s <= e < stops.len()
    &&& forall|k: int| s < k <= e ==> (#[trigger] event_secs(stops[k])) is Some && event_secs(stops[k]) == event_secs(stops[k - 1])
}

proof fn lemma_stretch_within_run(stops: Seq<StopTime>, s: int, e: int)
    requires
        same_time_stretch(stops, s, e),
    ensures
        run_ending_at(stops, e) >= e - s + 1,
    decreases e - s,
{
    if e > s {
        assert(event_secs(stops[e]) is Some);
        lemma_stretch_within_run(stops, s, e - 1);
    }
}

proof fn lemma_run_is_stretch(stops: Seq<StopTime>, e: int)
    requires
        0 <= e < stops.len(),
    ensures
        same_time_stretch(stops, e - run_ending_at(stops, e) + 1, e),
    decreases e,
{
    lemma_run_bounded(stops, e);
    if e > 0 && event_secs(stops[e]) is Some && event_secs(stops[e]) == event_secs(stops[e - 1]) {
        lemma_run_is_stretch(stops, e - 1);
    }
}

proof fn lemma_max_run_bounds(stops: Seq<StopTime>)
    ensures
        forall|e: int| 0 <= e < stops.len() ==> run_ending_at(stops, e) <= #[trigger] spec_max_same_time_run(stops),
        stops.len() > 0 ==> exists|e: int| 0 <= e < stops.len() && #[trigger] run_ending_at(stops, e) == spec_max_same_time_run(stops),
    decreases stops.len(),
{
    if stops.len() > 1 {
        let t = stops.drop_last();
        lemma_max_run_bounds(t);
        assert forall|e: int| 0 <= e < stops.len() implies run_ending_at(stops, e) <= spec_max_same_time_run(stops) by {
            if e < stops.len() - 1 {
                lemma_run_prefix(stops, stops.len() - 1, e);
                assert(stops.take(stops.len() - 1) =~= t);
            }
        }
        let e0 = choose|e: int| 0 <= e < t.len() && #[trigger] run_ending_at(t, e) == spec_max_same_time_run(t);
        lemma_run_prefix(stops, stops.len() - 1, e0);
        assert(stops.take(stops.len() - 1) =~= t);
        if run_ending_at(stops, stops.len() - 1) > spec_max_same_time_run(t) {
            assert(run_ending_at(stops, stops.len() - 1) == spec_max_same_time_run(stops));
        } else {
            assert(run_ending_at(stops, e0) == spec_max_same_time_run(stops));
        }
    } else if stops.len() == 1 {
        assert(run_ending_at(stops, 0) == spec_max_same_time_run(stops));
    }
}

/// STM_053 measures the longest stretch anywhere in the trip: every stretch of
/// consecutive stops sharing one present event time is at most the result
/// long, and some stretch is exactly that long.
pub proof fn law_same_time_run_is_longest(stops: Seq<StopTime>)
    ensures
        forall|s: int, e: int| #[trigger] same_time_stretch(stops, s, e) ==> e - s + 1 <= spec_max_same_time_run(stops),
        stops.len() > 0 ==> exists|s: int, e: int|
            #[trigger] same_time_stretch(stops, s, e) && e - s + 1 == spec_max_same_time_run(stops),
        stops.len() == 0 ==> spec_max_same_time_run(stops) == 1,
{
    lemma_max_run_bounds(stops);
    assert forall|s: int, e: int| #[trigger] same_time_stretch(stops, s, e) implies e - s + 1 <= spec_max_same_time_run(stops) by {
        lemma_stretch_within_run(stops, s, e);
    }
    if stops.len() > 0 {
        let e = choose|e: int| 0 <= e < stops.len() && #[trigger] run_ending_at(stops, e) == spec_max_same_time_run(stops);
        lemma_run_is_stretch(stops, e);
        let s = e - run_ending_at(stops, e) + 1;
        assert(same_time_stretch(stops, s, e));
    }
}

/// STM_053 measure: the longest run of consecutive stops with the same time.
pub fn max_same_time_run(stops: &[StopTime]) -> (r: usize)
    requires
        all_well_formed(stops@),
    ensures
        r == spec_max_same_time_run(stops@),
{
    let mut same_run: usize = 1;
    let mut max_run: usize = 1;
    let mut previous: Option<u32> = None;
    let mut i: usize = 0;
    while i < stops.len()
        invariant
            i <= stops.len(),
            all_well_formed(stops@),
            i > 0 ==> same_run == run_ending_at(stops@, i - 1),
            i > 0 ==> match previous {
                Some(p) => event_secs(stops@[i - 1]) == Some(p as int),
                None => event_secs(stops@[i - 1]) is None,
            },
            i == 0 ==> previous is None && same_run == 1,
            max_run == spec_max_same_time_run(stops@.take(i as int)),
            1 <= same_run <= i + 1,
            max_run <= i + 1,
        decreases stops.len() - i,
    {
        assert(stops@[i as int].well_formed());
        let st = stops[i];
        let ev = if st.arrival.is_some() { opt_secs(st.arrival) } else { opt_secs(st.departure) };
        proof {
            if i > 0 {
                lemma_run_bounded(stops@, i - 1);
            }
        }
        if ev.is_some() && ev == previous {
            same_run += 1;
            if same_run > max_run {
                max_run = same_run;
            }
        } else {
            same_run = 1;
        }
        proof {
            let t = stops@.take(i + 1);
            assert(t.drop_last() =~= stops@.take(i as int));
            lemma_run_prefix(stops@, i + 1, i as int);
            if i == 0 {
                assert(spec_max_same_time_run(t) == 1);
            }
        }
        previous = ev;
        i += 1;
    }
    assert(stops@.take(i as int) =~= stops@);
    max_run
}

// ── STM_036: scattered rows of one trip ──────────────────────────────────────

/// Smallest and largest line numbers of a trip's rows, reported when the rows
/// are not contiguous in the file (the span is wider than the number of rows).
pub open spec fn spec_scattered_rows(lines: Seq<u32>) -> Option<(u32, u32)> {
    let lo = crate::headway::seq_min(lines);
    let hi = crate::headway::seq_max(lines);
    if lines.len() < 2 || hi - lo + 1 == lines.len() {
        None
    } else {
        Some((lo, hi))
    }
}

/// STM_036 (non-contiguous rows) for one trip, from its rows' line numbers.
pub fn scattered_rows(lines: &[u32]) -> (r: Option<(u32, u32)>)
    ensures
        r == spec_scattered_rows(lines@),
{
    if lines.len() < 2 {
        return None;
    }
    let lo = crate::headway::min_of(lines);
    let hi = crate::headway::max_of(lines);
    proof {
        crate::calendar::lemma_seq_min_is_min(lines@);
        crate::calendar::lemma_seq_max_is_max(lines@);
        assert(lines@[0] <= hi);
        assert(lo <= lines@[0]);
    }
    if (hi - lo) as u64 + 1 == lines.len() as u64 {
        None
    } else {
        Some((lo, hi))
    }
}


// ── Consecutive stops: STM_008 / STM_012 / STM_020 / STM_025 ─────────────────

/// How the schedule moves from one stop (departure) to the next (arrival).
#[derive(Debug, Clone, Copy, PartialEq, Eq, Structural)]
pub enum SegmentTiming {
    /// A time is missing; the segment is not checked.
    Untimed,
    /// Zero travel time with both times on whole minutes (:00 seconds): the true
    /// travel time is unknown below a minute (STM_012 when the distance cannot
    /// be covered in a minute).
    ZeroOnWholeMinutes,
    /// Zero travel time otherwise (STM_020 candidate).
    Zero,
    /// STM_008: the next arrival (second) is before this departure (first).
    Backward(u32, u32),
    /// Travel time in seconds (positive).
    Forward(u32),
}

/// Classification of the segment from stop `a` to stop `b`.
pub open spec fn spec_segment_timing(a: StopTime, b: StopTime) -> SegmentTiming {
    match (secs(a.departure), secs(b.arrival)) {
        (Some(dep), Some(arr)) => {
            if arr == dep {
                if (a.departure->0).2 == 0 && (b.arrival->0).2 == 0 {
                    SegmentTiming::ZeroOnWholeMinutes
                } else {
                    SegmentTiming::Zero
                }
            } else if arr < dep {
                SegmentTiming::Backward(dep as u32, arr as u32)
            } else {
                SegmentTiming::Forward((arr - dep) as u32)
            }
        },
        _ => SegmentTiming::Untimed,
    }
}

/// Classifies the travel time between two consecutive stops of a trip.
pub fn segment_timing(a: &StopTime, b: &StopTime) -> (r: SegmentTiming)
    requires
        a.well_formed(),
        b.well_formed(),
    ensures
        r == spec_segment_timing(*a, *b),
{
    match (a.departure, b.arrival) {
        (Some(d), Some(ar)) => {
            let dep = hms_to_secs(d);
            let arr = hms_to_secs(ar);
            if arr == dep {
                if d.2 == 0 && ar.2 == 0 {
                    SegmentTiming::ZeroOnWholeMinutes
                } else {
                    SegmentTiming::Zero
                }
            } else if arr < dep {
                SegmentTiming::Backward(dep, arr)
            } else {
                SegmentTiming::Forward(arr - dep)
            }
        },
        _ => SegmentTiming::Untimed,
    }
}

/// STM_025: a positive scheduled travel time under ten seconds.
pub open spec fn spec_is_short_segment(t: SegmentTiming) -> bool {
    match t {
        SegmentTiming::Forward(dt) => dt < 10,
        _ => false,
    }
}

/// STM_025 signal for a classified segment.
pub fn is_short_segment(t: SegmentTiming) -> (r: bool)
    ensures
        r == spec_is_short_segment(t),
{
    match t {
        SegmentTiming::Forward(dt) => dt < 10,
        _ => false,
    }
}

// ── STM_015 / STM_016 / STM_013: missing times ───────────────────────────────

/// A row carries an arrival or a departure time.
pub open spec fn has_time(st: StopTime) -> bool {
    st.arrival is Some || st.departure is Some
}

/// STM_015: the first stop has no departure time.
pub open spec fn spec_first_departure_missing(stops: Seq<StopTime>) -> bool {
    stops.len() == 0 || stops[0].departure is None
}

/// STM_016: the last stop has no arrival time.
pub open spec fn spec_last_arrival_missing(stops: Seq<StopTime>) -> bool {
    stops.len() == 0 || stops.last().arrival is None
}

/// STM_015 for a trip.
pub fn first_departure_missing(stops: &[StopTime]) -> (r: bool)
    ensures
        r == spec_first_departure_missing(stops@),
{
    stops.len() == 0 || stops[0].departure.is_none()
}

/// STM_016 for a trip.
pub fn last_arrival_missing(stops: &[StopTime]) -> (r: bool)
    ensures
        r == spec_last_arrival_missing(stops@),
{
    stops.len() == 0 || stops[stops.len() - 1].arrival.is_none()
}

/// STM_013: a trip of at least three stops where some stop has a time but an
/// intermediate stop (neither first nor last) has none.
pub open spec fn spec_has_mixed_timing(stops: Seq<StopTime>) -> bool {
    &&& stops.len() >= 3
    &&& exists|i: int| 0 <= i < stops.len() && has_time(#[trigger] stops[i])
    &&& exists|i: int| 1 <= i < stops.len() - 1 && !has_time(#[trigger] stops[i])
}

/// STM_013 for a trip.
pub fn has_mixed_timing(stops: &[StopTime]) -> (r: bool)
    ensures
        r == spec_has_mixed_timing(stops@),
{
    let n = stops.len();
    if n < 3 {
        return false;
    }
    let mut any_time = false;
    let mut missing_mid = false;
    let mut i: usize = 0;
    while i < n
        invariant
            n == stops.len(),
            n >= 3,
            i <= n,
            any_time == exists|k: int| 0 <= k < i && has_time(#[trigger] stops@[k]),
            missing_mid == exists|k: int| 1 <= k < i && k < n - 1 && !has_time(#[trigger] stops@[k]),
        decreases n - i,
    {
        let t = stops[i].arrival.is_some() || stops[i].departure.is_some();
        if t {
            any_time = true;
        } else if i >= 1 && i < n - 1 {
            missing_mid = true;
        }
        i += 1;
    }
    any_time && missing_mid
}

// ── STM_045: departure beyond the service day ────────────────────────────────

/// Latest allowed departure hour: 26 when the service day starts at midnight,
/// otherwise 24 hours after the service-day start.
pub open spec fn max_departure_hour(service_day_start_hour: u32) -> int {
    if service_day_start_hour == 0 { 26 } else { 24 + service_day_start_hour }
}

/// A departure later than `max_h:00:00`.
pub open spec fn departs_too_late(t: (u32, u32, u32), max_h: int) -> bool {
    t.0 > max_h || (t.0 == max_h && (t.1 > 0 || t.2 > 0))
}

/// STM_045: index of the first stop whose departure lies beyond the service
/// day window (one finding per trip).
pub open spec fn spec_first_late_departure(stops: Seq<StopTime>, service_day_start_hour: u32) -> Option<int> {
    let max_h = max_departure_hour(service_day_start_hour);
    if exists|i: int|
        0 <= i < stops.len() && stops[i].departure is Some && departs_too_late(
            #[trigger] stops[i].departure->0,
            max_h,
        ) {
        Some(
            choose|i: int|
                0 <= i < stops.len() && stops[i].departure is Some && departs_too_late(
                    #[trigger] stops[i].departure->0,
                    max_h,
                ) && forall|j: int|
                    0 <= j < i ==> !(stops[j].departure is Some && departs_too_late(
                        #[trigger] stops[j].departure->0,
                        max_h,
                    )),
        )
    } else {
        None
    }
}

/// STM_045 for a trip: the index of the first departure past the service day.
pub fn first_late_departure(stops: &[StopTime], service_day_start_hour: u32) -> (r: Option<usize>)
    ensures
        match r {
            Some(i) => spec_first_late_departure(stops@, service_day_start_hour) == Some(i as int),
            None => spec_first_late_departure(stops@, service_day_start_hour) is None,
        },
{
    let max_h: u64 = if service_day_start_hour == 0 { 26 } else { 24 + service_day_start_hour as u64 };
    let ghost mh = max_departure_hour(service_day_start_hour);
    let mut i: usize = 0;
    while i < stops.len()
        invariant
            i <= stops.len(),
            max_h == mh,
            mh == max_departure_hour(service_day_start_hour),
            forall|j: int|
                0 <= j < i ==> !(stops@[j].departure is Some && departs_too_late(
                    #[trigger] stops@[j].departure->0,
                    mh,
                )),
        decreases stops.len() - i,
    {
        if let Some((h, m, s)) = stops[i].departure {
            if (h as u64) > max_h || ((h as u64) == max_h && (m > 0 || s > 0)) {
                proof {
                    let p = |k: int|
                        0 <= k < stops@.len() && stops@[k].departure is Some && departs_too_late(
                            stops@[k].departure->0,
                            mh,
                        ) && forall|j: int|
                            0 <= j < k ==> !(stops@[j].departure is Some && departs_too_late(
                                #[trigger] stops@[j].departure->0,
                                mh,
                            ));
                    assert(p(i as int));
                    let c = choose|k: int|
                        0 <= k < stops@.len() && stops@[k].departure is Some && departs_too_late(
                            #[trigger] stops@[k].departure->0,
                            mh,
                        ) && forall|j: int|
                            0 <= j < k ==> !(stops@[j].departure is Some && departs_too_late(
                                #[trigger] stops@[j].departure->0,
                                mh,
                            ));
                    assert(c == i) by {
                        if c < i {
                        } else if c > i {
                            assert(!(stops@[i as int].departure is Some && departs_too_late(
                                stops@[i as int].departure->0,
                                mh,
                            )));
                        }
                    }
                }
                return Some(i);
            }
        }
        i += 1;
    }
    None
}

// ── Per-trip measures used by several rules ──────────────────────────────────

/// Departure of the first stop in seconds (the trip's start for headways).
pub open spec fn spec_first_departure_secs(stops: Seq<StopTime>) -> Option<int> {
    if stops.len() == 0 { None } else { secs(stops[0].departure) }
}

/// The trip's first departure in seconds, when the first stop has one.
pub fn first_departure_secs(stops: &[StopTime]) -> (r: Option<u32>)
    requires
        all_well_formed(stops@),
    ensures
        match r {
            Some(x) => spec_first_departure_secs(stops@) == Some(x as int),
            None => spec_first_departure_secs(stops@) is None,
        },
{
    if stops.len() == 0 {
        return None;
    }
    assert(stops@[0].well_formed());
    opt_secs(stops[0].departure)
}

/// Line of the first row without `shape_dist_traveled` (for trips that have
/// a shape; reported by the shape-distance rules).
pub open spec fn spec_first_missing_shape_dist(stops: Seq<StopTime>) -> Option<u32> {
    if exists|i: int| 0 <= i < stops.len() && !(#[trigger] stops[i]).has_shape_dist {
        let i = choose|i: int|
            0 <= i < stops.len() && !(#[trigger] stops[i]).has_shape_dist && forall|j: int|
                0 <= j < i ==> (#[trigger] stops[j]).has_shape_dist;
        Some(stops[i].line)
    } else {
        None
    }
}

/// Line of the first row that lacks `shape_dist_traveled`.
pub fn first_missing_shape_dist(stops: &[StopTime]) -> (r: Option<u32>)
    ensures
        r == spec_first_missing_shape_dist(stops@),
{
    let mut i: usize = 0;
    while i < stops.len()
        invariant
            i <= stops.len(),
            forall|j: int| 0 <= j < i ==> (#[trigger] stops@[j]).has_shape_dist,
        decreases stops.len() - i,
    {
        if !stops[i].has_shape_dist {
            proof {
                let c = choose|k: int|
                    0 <= k < stops@.len() && !(#[trigger] stops@[k]).has_shape_dist && forall|j: int|
                        0 <= j < k ==> (#[trigger] stops@[j]).has_shape_dist;
                assert(0 <= i < stops@.len() && !stops@[i as int].has_shape_dist && forall|j: int|
                    0 <= j < i ==> (#[trigger] stops@[j]).has_shape_dist);
                assert(c == i) by {
                    if c > i {
                        assert(stops@[i as int].has_shape_dist);
                    }
                }
            }
            return Some(stops[i].line);
        }
        i += 1;
    }
    None
}

/// OPR_006: a trip with stop times but fewer than two stops.
pub open spec fn spec_too_few_stops(stops: Seq<StopTime>) -> bool {
    stops.len() < 2
}

/// OPR_006 for a trip.
pub fn too_few_stops(stops: &[StopTime]) -> (r: bool)
    ensures
        r == spec_too_few_stops(stops@),
{
    stops.len() < 2
}


// ── OPR_025: average trip duration ───────────────────────────────────────────

/// Earliest departure of the trip in seconds (over all stops that have one).
pub open spec fn min_departure(stops: Seq<StopTime>) -> Option<int>
    decreases stops.len(),
{
    if stops.len() == 0 {
        None
    } else {
        let rest = min_departure(stops.drop_last());
        match secs(stops.last().departure) {
            Some(x) => match rest {
                Some(m) => Some(if x < m { x } else { m }),
                None => Some(x),
            },
            None => rest,
        }
    }
}

/// Latest departure of the trip in seconds (over all stops that have one).
pub open spec fn max_departure(stops: Seq<StopTime>) -> Option<int>
    decreases stops.len(),
{
    if stops.len() == 0 {
        None
    } else {
        let rest = max_departure(stops.drop_last());
        match secs(stops.last().departure) {
            Some(x) => match rest {
                Some(m) => Some(if x > m { x } else { m }),
                None => Some(x),
            },
            None => rest,
        }
    }
}

/// Time between the earliest and latest departure of a trip, when positive.
pub open spec fn spec_departure_span(stops: Seq<StopTime>) -> Option<int> {
    match (min_departure(stops), max_departure(stops)) {
        (Some(f), Some(l)) => if l > f { Some(l - f) } else { None },
        _ => None,
    }
}

/// OPR_025 measure for one trip.
pub fn departure_span(stops: &[StopTime]) -> (r: Option<u32>)
    requires
        all_well_formed(stops@),
    ensures
        match r {
            Some(x) => spec_departure_span(stops@) == Some(x as int),
            None => spec_departure_span(stops@) is None,
        },
{
    let mut lo: Option<u32> = None;
    let mut hi: Option<u32> = None;
    let mut i: usize = 0;
    while i < stops.len()
        invariant
            i <= stops.len(),
            all_well_formed(stops@),
            match lo {
                Some(x) => min_departure(stops@.take(i as int)) == Some(x as int),
                None => min_departure(stops@.take(i as int)) is None,
            },
            match hi {
                Some(x) => max_departure(stops@.take(i as int)) == Some(x as int),
                None => max_departure(stops@.take(i as int)) is None,
            },
        decreases stops.len() - i,
    {
        assert(stops@.take(i + 1).drop_last() =~= stops@.take(i as int));
        assert(stops@[i as int].well_formed());
        let d = opt_secs(stops[i].departure);
        if let Some(x) = d {
            lo = match lo {
                Some(m) => Some(if x < m { x } else { m }),
                None => Some(x),
            };
            hi = match hi {
                Some(m) => Some(if x > m { x } else { m }),
                None => Some(x),
            };
        }
        i += 1;
    }
    assert(stops@.take(i as int) =~= stops@);
    match (lo, hi) {
        (Some(f), Some(l)) => if l > f { Some(l - f) } else { None },
        _ => None,
    }
}

/// Sum of the durations.
pub open spec fn sum_u64(s: Seq<u64>) -> int
    decreases s.len(),
{
    if s.len() == 0 { 0 } else { sum_u64(s.drop_last()) + s.last() }
}

/// OPR_025: with at least five measured trips, the average duration (integer
/// division) when it is under a minute.
pub open spec fn spec_short_average_duration(durations: Seq<u64>) -> Option<int> {
    if durations.len() >= 5 && sum_u64(durations) / (durations.len() as int) < 60 {
        Some(sum_u64(durations) / (durations.len() as int))
    } else {
        None
    }
}

/// OPR_025 over the measured trip durations of the feed.
pub fn short_average_duration(durations: &[u64]) -> (r: Option<u64>)
    requires
        durations@.len() <= 0x1_0000_0000,
    ensures
        match r {
            Some(x) => spec_short_average_duration(durations@) == Some(x as int),
            None => spec_short_average_duration(durations@) is None,
        },
{
    if durations.len() < 5 {
        return None;
    }
    let mut total: u128 = 0;
    let mut i: usize = 0;
    while i < durations.len()
        invariant
            i <= durations.len(),
            durations@.len() <= 0x1_0000_0000,
            total == sum_u64(durations@.take(i as int)),
            total <= i * 0xffff_ffff_ffff_ffff,
        decreases durations.len() - i,
    {
        assert(durations@.take(i + 1).drop_last() =~= durations@.take(i as int));
        proof {
            assert((i + 1) * 0xffff_ffff_ffff_ffff <= 0x1_0000_0000 * 0xffff_ffff_ffff_ffff) by (nonlinear_arith)
                requires i + 1 <= 0x1_0000_0000;
        }
        total = total + durations[i] as u128;
        i += 1;
    }
    assert(durations@.take(i as int) =~= durations@);
    let avg = total / (durations.len() as u128);
    proof {
        assert(avg <= total) by (nonlinear_arith)
            requires avg as int == (total as int) / (durations@.len() as int), durations@.len() >= 5, total >= 0;
    }
    if avg < 60 {
        Some(avg as u64)
    } else {
        None
    }
}

// ── TRP_022: overlapping trips of one block ──────────────────────────────────

/// First departure found from the start and last arrival found from the end
/// of the trip, in seconds.
pub open spec fn first_found_departure(stops: Seq<StopTime>) -> Option<int>
    decreases stops.len(),
{
    if stops.len() == 0 {
        None
    } else if stops[0].departure is Some {
        secs(stops[0].departure)
    } else {
        first_found_departure(stops.drop_first())
    }
}

/// Last arrival of the trip, searching from the end.
pub open spec fn last_found_arrival(stops: Seq<StopTime>) -> Option<int>
    decreases stops.len(),
{
    if stops.len() == 0 {
        None
    } else if stops.last().arrival is Some {
        secs(stops.last().arrival)
    } else {
        last_found_arrival(stops.drop_last())
    }
}

/// The service interval of a trip for the block-overlap rule.
pub open spec fn spec_trip_time_range(stops: Seq<StopTime>) -> Option<(int, int)> {
    match (first_found_departure(stops), last_found_arrival(stops)) {
        (Some(d), Some(a)) => Some((d, a)),
        _ => None,
    }
}

proof fn lemma_first_found_skip(stops: Seq<StopTime>, i: int)
    requires
        0 <= i < stops.len(),
        forall|j: int| 0 <= j < i ==> (#[trigger] stops[j]).departure is None,
    ensures
        first_found_departure(stops) == first_found_departure(stops.skip(i)),
    decreases i,
{
    if i > 0 {
        assert(stops.drop_first()[0] == stops[1]);
        lemma_first_found_skip(stops.drop_first(), i - 1);
        assert(stops.drop_first().skip(i - 1) =~= stops.skip(i));
    } else {
        assert(stops.skip(0) =~= stops);
    }
}

proof fn lemma_first_found_none(stops: Seq<StopTime>)
    requires
        forall|j: int| 0 <= j < stops.len() ==> (#[trigger] stops[j]).departure is None,
    ensures
        first_found_departure(stops) is None,
    decreases stops.len(),
{
    if stops.len() > 0 {
        assert(stops.drop_first().len() < stops.len());
        assert forall|j: int| 0 <= j < stops.drop_first().len() implies (#[trigger] stops.drop_first()[j]).departure is None by {
            assert(stops.drop_first()[j] == stops[j + 1]);
        }
        lemma_first_found_none(stops.drop_first());
    }
}

proof fn lemma_last_found_take(stops: Seq<StopTime>, i: int)
    requires
        0 <= i < stops.len(),
        forall|j: int| i < j < stops.len() ==> (#[trigger] stops[j]).arrival is None,
    ensures
        last_found_arrival(stops) == last_found_arrival(stops.take(i + 1)),
    decreases stops.len() - i,
{
    if i + 1 < stops.len() {
        assert(stops.drop_last().len() == stops.len() - 1);
        assert forall|j: int| i < j < stops.drop_last().len() implies (#[trigger] stops.drop_last()[j]).arrival is None by {
            assert(stops.drop_last()[j] == stops[j]);
        }
        lemma_last_found_take(stops.drop_last(), i);
        assert(stops.drop_last().take(i + 1) =~= stops.take(i + 1));
    } else {
        assert(stops.take(i + 1) =~= stops);
    }
}

proof fn lemma_last_found_none(stops: Seq<StopTime>)
    requires
        forall|j: int| 0 <= j < stops.len() ==> (#[trigger] stops[j]).arrival is None,
    ensures
        last_found_arrival(stops) is None,
    decreases stops.len(),
{
    if stops.len() > 0 {
        assert forall|j: int| 0 <= j < stops.drop_last().len() implies (#[trigger] stops.drop_last()[j]).arrival is None by {
            assert(stops.drop_last()[j] == stops[j]);
        }
        lemma_last_found_none(stops.drop_last());
    }
}

/// The interval from the first departure to the last arrival of a trip, used
/// to find overlapping trips of one vehicle block (TRP_022).
pub fn trip_time_range(stops: &[StopTime]) -> (r: Option<(u32, u32)>)
    requires
        all_well_formed(stops@),
    ensures
        match r {
            Some((d, a)) => spec_trip_time_range(stops@) == Some((d as int, a as int)),
            None => spec_trip_time_range(stops@) is None,
        },
{
    let mut i: usize = 0;
    while i < stops.len() && stops[i].departure.is_none()
        invariant
            i <= stops.len(),
            forall|j: int| 0 <= j < i ==> (#[trigger] stops@[j]).departure is None,
        decreases stops.len() - i,
    {
        i += 1;
    }
    if i == stops.len() {
        proof {
            lemma_first_found_none(stops@);
        }
        return None;
    }
    assert(stops@[i as int].well_formed());
    let first = opt_secs(stops[i].departure);
    proof {
        lemma_first_found_skip(stops@, i as int);
        assert(stops@.skip(i as int)[0] == stops@[i as int]);
    }
    let mut k: usize = stops.len();
    while k > 0 && stops[k - 1].arrival.is_none()
        invariant
            k <= stops.len(),
            forall|j: int| k <= j < stops.len() ==> (#[trigger] stops@[j]).arrival is None,
        decreases k,
    {
        k -= 1;
    }
    if k == 0 {
        proof {
            lemma_last_found_none(stops@);
        }
        return None;
    }
    assert(stops@[k - 1].well_formed());
    let last = opt_secs(stops[k - 1].arrival);
    proof {
        lemma_last_found_take(stops@, k - 1);
        assert(stops@.take(k as int).last() == stops@[k - 1]);
    }
    Some((first.unwrap(), last.unwrap()))
}

/// Two service intervals overlap (each starts before the other ends).
pub open spec fn spec_intervals_overlap(a: (u32, u32), b: (u32, u32)) -> bool {
    a.0 < b.1 && b.0 < a.1
}

/// TRP_022 test for two trips of the same block.
pub fn intervals_overlap(a: (u32, u32), b: (u32, u32)) -> (r: bool)
    ensures
        r == spec_intervals_overlap(a, b),
{
    a.0 < b.1 && b.0 < a.1
}

/// Overlap of two trips' intervals does not depend on which trip comes first.
pub proof fn law_overlap_is_symmetric(a: (u32, u32), b: (u32, u32))
    ensures
        spec_intervals_overlap(a, b) == spec_intervals_overlap(b, a),
{
}

/// TRP_022 for trips `i` and `j` of one block, given each trip's time range
/// (first departure, last arrival) and service index: their ranges overlap
/// and they run on a common day (same service, or services sharing a date).
pub open spec fn spec_block_clash(
    trips: Seq<(u32, u32, usize)>,
    dates: Seq<Seq<u32>>,
    i: int,
    j: int,
) -> bool {
    &&& i < j
    &&& spec_intervals_overlap((trips[i].0, trips[i].1), (trips[j].0, trips[j].1))
    &&& (trips[i].2 == trips[j].2 || crate::similarity::shares_day(dates[trips[i].2 as int], dates[trips[j].2 as int]))
}

/// TRP_022 for one block: `m[i][j]` tells whether trips `i < j` clash.
/// `service_dates[s]` holds the active dates of service `s`, strictly
/// increasing (empty for a service without any).
pub fn block_clashes(trips: &[(u32, u32, usize)], service_dates: &Vec<Vec<u32>>) -> (m: Vec<Vec<bool>>)
    requires
        forall|k: int| 0 <= k < trips@.len() ==> (#[trigger] trips@[k]).2 < service_dates@.len(),
        crate::conflicts::all_sorted(crate::conflicts::lists_view(service_dates@)),
    ensures
        m@.len() == trips@.len(),
        forall|i: int| 0 <= i < m@.len() ==> (#[trigger] m@[i])@.len() == trips@.len(),
        forall|i: int, j: int| 0 <= i < trips@.len() && 0 <= j < trips@.len() ==> #[trigger] m@[i]@[j]
            == spec_block_clash(trips@, crate::conflicts::lists_view(service_dates@), i, j),
{
    let ghost dv = crate::conflicts::lists_view(service_dates@);
    let n = trips.len();
    let mut m: Vec<Vec<bool>> = Vec::new();
    let mut a: usize = 0;
    while a < n
        invariant
            a <= n,
            n == trips@.len(),
            dv == crate::conflicts::lists_view(service_dates@),
            crate::conflicts::all_sorted(dv),
            forall|k: int| 0 <= k < trips@.len() ==> (#[trigger] trips@[k]).2 < service_dates@.len(),
            m@.len() == a,
            forall|x: int| 0 <= x < a ==> (#[trigger] m@[x])@.len() == n,
            forall|x: int, y: int| 0 <= x < a && 0 <= y < n ==> #[trigger] m@[x]@[y] == spec_block_clash(trips@, dv, x, y),
        decreases n - a,
    {
        let mut row: Vec<bool> = Vec::new();
        let mut b: usize = 0;
        while b < n
            invariant
                a < n,
                b <= n,
                n == trips@.len(),
                dv == crate::conflicts::lists_view(service_dates@),
                crate::conflicts::all_sorted(dv),
                forall|k: int| 0 <= k < trips@.len() ==> (#[trigger] trips@[k]).2 < service_dates@.len(),
                row@.len() == b,
                forall|y: int| 0 <= y < b ==> #[trigger] row@[y] == spec_block_clash(trips@, dv, a as int, y),
            decreases n - b,
        {
            let (dep_a, arr_a, svc_a) = trips[a];
            let (dep_b, arr_b, svc_b) = trips[b];
            let mut clash = false;
            if a < b && dep_a < arr_b && dep_b < arr_a {
                if svc_a == svc_b {
                    clash = true;
                } else {
                    proof {
                        assert(dv[svc_b as int] == service_dates@[svc_b as int]@);
                        assert(dv[svc_a as int] == service_dates@[svc_a as int]@);
                    }
                    clash = crate::similarity::share_day(&service_dates[svc_a], &service_dates[svc_b]);
                }
            }
            row.push(clash);
            b += 1;
        }
        m.push(row);
        a += 1;
    }
    m
}

} // verus!
