use vstd::prelude::*;
use crate::analysis::{number_notices, finding_notices, joined, notice_id, observed_text, rule_code, K6Result, Notice};
use crate::calendar::{days_of_kind, is_valid_date, date_parts, window_days, OverrideDay};
use crate::clock::{decimal, push_decimal};
use crate::findings::{
    agency_flags, childless_flags, description_flags, findings_of, push_flagged, route_field_findings, unused_flags,
    url_flags, Finding, RouteText, Rule,
};
use crate::headway::{law_distinct_sorted_is_unique, strictly_increasing};
use crate::schedule::{all_well_formed, midnight_wrap_count, midnight_wraps, total_rows, StopTime};
use crate::stops::{childless_stations, stops_indexed_below, unnamed_agencies, unused_stops, StopRecord};
use crate::trips::{mixed_mode_blocks, reports_mixed_mode, spec_mixed_mode, tagged_below, value_set};

verus! {

// The checks the library runs on a feed, in their fixed order: the midnight
// wraps of the stop times (STM_049), the routes' recommended fields (DQ_003,
// DQ_004), the records nothing refers to and the mixed-mode blocks (DQ_010,
// TRP_033, STP_020, STP_030), and the calendar override rules (OPR_021,
// OPR_022, OPR_023); their notices are numbered in that order.

/// A configured calendar override rule: its window (packed dates, the start
/// a real date) and the active dates of its base and of its override
/// services.
#[derive(Debug, Clone)]
pub struct OverrideRule {
    pub start: u32,
    pub end: u32,
    pub base: Vec<Vec<u32>>,
    pub over: Vec<Vec<u32>>,
}

/// What the checks read of a feed; identifiers are dense indices.
#[derive(Debug, Clone)]
pub struct Feed {
    /// The stop_times rows of every trip, in stop_sequence order.
    pub trip_rows: Vec<Vec<StopTime>>,
    pub service_day_start_hour: u32,
    pub routes: Vec<RouteText>,
    /// agency_id index of every agency and of every route (`None` if absent).
    pub agencies: Vec<Option<usize>>,
    pub route_agencies: Vec<Option<usize>>,
    pub n_agency_ids: usize,
    /// (block, route type) of every trip.
    pub block_trips: Vec<(Option<usize>, Option<u32>)>,
    pub n_blocks: usize,
    pub stops: Vec<StopRecord>,
    /// The stop index of every stop_times row.
    pub stop_time_stops: Vec<usize>,
    pub n_stop_ids: usize,
    pub override_rules: Vec<OverrideRule>,
}

/// A notice by its rule code, record and observed value.
pub open spec fn nview(n: Notice) -> (Seq<char>, Option<usize>, Option<Seq<char>>) {
    (n.rule_id@, n.record, observed_text(n))
}

/// The notices of a list, viewed.
pub open spec fn nviews(ns: Seq<Notice>) -> Seq<(Seq<char>, Option<usize>, Option<Seq<char>>)> {
    ns.map_values(|n: Notice| nview(n))
}

/// The notice of a record finding.
pub open spec fn finding_view(fs: Seq<Finding>) -> Seq<(Seq<char>, Option<usize>, Option<Seq<char>>)> {
    fs.map_values(|f: Finding| (rule_code(f.rule), Some(f.record), None::<Seq<char>>))
}

/// The indices are in range and the sizes fit.
pub open spec fn feed_well_formed(feed: Feed) -> bool {
    &&& forall|j: int| 0 <= j < feed.trip_rows@.len() ==> all_well_formed((#[trigger] feed.trip_rows@[j])@)
    &&& feed.service_day_start_hour * 3600 <= u32::MAX
    &&& total_rows(feed.trip_rows@) <= u64::MAX
    &&& forall|k: int| 0 <= k < feed.agencies@.len() && (#[trigger] feed.agencies@[k]) is Some ==> feed.agencies@[k]->0 < feed.n_agency_ids
    &&& forall|k: int| 0 <= k < feed.route_agencies@.len() && (#[trigger] feed.route_agencies@[k]) is Some
        ==> feed.route_agencies@[k]->0 < feed.n_agency_ids
    &&& tagged_below(feed.block_trips@, feed.n_blocks)
    &&& stops_indexed_below(feed.stops@, feed.n_stop_ids)
    &&& forall|k: int| 0 <= k < feed.stop_time_stops@.len() ==> #[trigger] feed.stop_time_stops@[k] < feed.n_stop_ids
    &&& forall|q: int| 0 <= q < feed.override_rules@.len() ==> is_valid_date(
        date_parts((#[trigger] feed.override_rules@[q]).start).0,
        date_parts(feed.override_rules@[q].start).1,
        date_parts(feed.override_rules@[q].start).2,
    ) && feed.override_rules@[q].end <= u32::MAX - 20000
    &&& feed.routes@.len() < 0x1000_0000_0000_0000
    &&& feed.agencies@.len() < 0x1000_0000_0000_0000
    &&& feed.n_blocks < 0x1000_0000_0000_0000
    &&& feed.stops@.len() < 0x1000_0000_0000_0000
    &&& feed.override_rules@.len() < 0x1000_0000_0000_0000
}

// ── STM_049 ──────────────────────────────────────────────────────────────────

pub open spec fn stm049_code() -> Seq<char> {
    seq!['S', 'T', 'M', '_', '0', '4', '9']
}

/// The STM_049 notice, carrying the count, when some row wraps at midnight.
pub open spec fn wrap_part(trips: Seq<Vec<StopTime>>, sds_secs: int) -> Seq<(Seq<char>, Option<usize>, Option<Seq<char>>)> {
    if midnight_wraps(trips, sds_secs) > 0 {
        seq![(stm049_code(), None::<usize>, Some(decimal(midnight_wraps(trips, sds_secs))))]
    } else {
        Seq::empty()
    }
}

fn wrap_notices(feed: &Feed) -> (r: Vec<Notice>)
    requires
        feed_well_formed(*feed),
    ensures
        nviews(r@) == wrap_part(feed.trip_rows@, feed.service_day_start_hour * 3600),
{
    let count = midnight_wrap_count(feed.trip_rows.as_slice(), feed.service_day_start_hour);
    let mut r: Vec<Notice> = Vec::new();
    if count > 0 {
        let mut code = String::new();
        code.append("STM_049");
        let mut observed = String::new();
        push_decimal(&mut observed, count);
        proof {
            reveal_strlit("STM_049");
            assert(code@ =~= stm049_code());
            assert(observed@ =~= decimal(count as nat));
        }
        r.push(Notice { rule_id: code, id: String::new(), record: None, observed: Some(observed) });
    }
    proof {
        assert(nviews(r@) =~= wrap_part(feed.trip_rows@, feed.service_day_start_hour * 3600));
    }
    r
}

// ── TRP_033 ──────────────────────────────────────────────────────────────────

pub open spec fn trp033_code() -> Seq<char> {
    seq!['T', 'R', 'P', '_', '0', '3', '3']
}

/// The ascending route types of block `g`.
pub open spec fn block_types(trips: Seq<(Option<usize>, Option<u32>)>, g: usize) -> Seq<u32> {
    choose|d: Seq<u32>| strictly_increasing(d) && (forall|v: u32| d.contains(v) <==> value_set(trips, g).contains(v))
}

/// The TRP_033 notices of blocks `0..n`, in block order.
pub open spec fn trp033_part(trips: Seq<(Option<usize>, Option<u32>)>, n: nat) -> Seq<(Seq<char>, Option<usize>, Option<Seq<char>>)>
    decreases n,
{
    if n == 0 {
        Seq::empty()
    } else {
        trp033_part(trips, (n - 1) as nat) + match spec_mixed_mode(block_types(trips, (n - 1) as usize)) {
            Some(t) => seq![(trp033_code(), Some((n - 1) as usize), Some(t))],
            None => Seq::empty(),
        }
    }
}

proof fn lemma_block_types(trips: Seq<(Option<usize>, Option<u32>)>, g: usize, out: Option<String>)
    requires
        reports_mixed_mode(trips, g, out),
    ensures
        match out {
            Some(t) => spec_mixed_mode(block_types(trips, g)) == Some(t@),
            None => spec_mixed_mode(block_types(trips, g)) is None,
        },
{
    let d = choose|d: Seq<u32>| #[trigger] strictly_increasing(d)
        && (forall|v: u32| d.contains(v) <==> value_set(trips, g).contains(v))
        && match out {
            Some(t) => spec_mixed_mode(d) == Some(t@),
            None => spec_mixed_mode(d) is None,
        };
    let c = block_types(trips, g);
    assert(strictly_increasing(c) && (forall|v: u32| c.contains(v) <==> value_set(trips, g).contains(v)));
    law_distinct_sorted_is_unique(d, c);
}

fn trp033_notices(feed: &Feed) -> (r: Vec<Notice>)
    requires
        feed_well_formed(*feed),
    ensures
        nviews(r@) == trp033_part(feed.block_trips@, feed.n_blocks as nat),
        r@.len() <= feed.n_blocks,
{
    let lists = mixed_mode_blocks(feed.block_trips.as_slice(), feed.n_blocks);
    let mut r: Vec<Notice> = Vec::new();
    let mut g: usize = 0;
    while g < feed.n_blocks
        invariant
            g <= feed.n_blocks,
            lists@.len() == feed.n_blocks,
            forall|h: int| 0 <= h < feed.n_blocks ==> #[trigger] reports_mixed_mode(feed.block_trips@, h as usize, lists@[h]),
            nviews(r@) == trp033_part(feed.block_trips@, g as nat),
            r@.len() <= g,
        decreases feed.n_blocks - g,
    {
        proof {
            lemma_block_types(feed.block_trips@, g, lists@[g as int]);
        }
        match &lists[g] {
            Some(t) => {
                let mut code = String::new();
                code.append("TRP_033");
                proof {
                    reveal_strlit("TRP_033");
                    assert(code@ =~= trp033_code());
                }
                r.push(Notice { rule_id: code, id: String::new(), record: Some(g), observed: Some(t.clone()) });
            },
            None => {},
        }
        proof {
            assert(nviews(r@) =~= trp033_part(feed.block_trips@, (g + 1) as nat));
        }
        g += 1;
    }
    r
}

// ── DQ_010, TRP_033, STP_020, STP_030 ────────────────────────────────────────

/// The notices of the records nothing refers to and of the mixed-mode
/// blocks, in the order the rules run.
pub open spec fn records_part(feed: Feed) -> Seq<(Seq<char>, Option<usize>, Option<Seq<char>>)> {
    finding_view(findings_of(agency_flags(feed.agencies@, feed.route_agencies@), Rule::UnnamedAgency))
        + trp033_part(feed.block_trips@, feed.n_blocks as nat)
        + finding_view(findings_of(unused_flags(feed.stops@, feed.stop_time_stops@), Rule::UnusedStop))
        + finding_view(findings_of(childless_flags(feed.stops@), Rule::ChildlessStation))
}

proof fn lemma_findings_len(flags: Seq<bool>, rule: Rule)
    ensures
        findings_of(flags, rule).len() <= flags.len(),
    decreases flags.len(),
{
    if flags.len() > 0 {
        lemma_findings_len(flags.drop_last(), rule);
    }
}

fn notices_of(fs: &Vec<Finding>) -> (r: Vec<Notice>)
    ensures
        nviews(r@) == finding_view(fs@),
{
    let r = finding_notices(fs.as_slice());
    proof {
        assert(nviews(r@) =~= finding_view(fs@));
    }
    r
}

fn append_notices(out: &mut Vec<Notice>, more: Vec<Notice>)
    ensures
        final(out)@ == old(out)@ + more@,
{
    let mut more = more;
    out.append(&mut more);
}

fn record_notices(feed: &Feed) -> (r: Vec<Notice>)
    requires
        feed_well_formed(*feed),
    ensures
        nviews(r@) == records_part(*feed),
{
    let a = unnamed_agencies(feed.agencies.as_slice(), feed.route_agencies.as_slice(), feed.n_agency_ids);
    let u = unused_stops(feed.stops.as_slice(), feed.stop_time_stops.as_slice(), feed.n_stop_ids);
    let c = childless_stations(feed.stops.as_slice(), feed.n_stop_ids);
    proof {
        assert(a@ =~= agency_flags(feed.agencies@, feed.route_agencies@));
        assert(u@ =~= unused_flags(feed.stops@, feed.stop_time_stops@));
        assert(c@ =~= childless_flags(feed.stops@));
    }
    let mut fa: Vec<Finding> = Vec::new();
    push_flagged(&mut fa, &a, Rule::UnnamedAgency);
    let mut fu: Vec<Finding> = Vec::new();
    push_flagged(&mut fu, &u, Rule::UnusedStop);
    let mut fc: Vec<Finding> = Vec::new();
    push_flagged(&mut fc, &c, Rule::ChildlessStation);
    proof {
        assert(fa@ =~= findings_of(a@, Rule::UnnamedAgency));
        assert(fu@ =~= findings_of(u@, Rule::UnusedStop));
        assert(fc@ =~= findings_of(c@, Rule::ChildlessStation));
    }
    let mut r = notices_of(&fa);
    append_notices(&mut r, trp033_notices(feed));
    append_notices(&mut r, notices_of(&fu));
    append_notices(&mut r, notices_of(&fc));
    proof {
        assert(nviews(r@) =~= records_part(*feed));
    }
    r
}

// ── OPR_021 / OPR_022 / OPR_023 ──────────────────────────────────────────────

pub open spec fn opr_code(kind: OverrideDay) -> Seq<char> {
    match kind {
        OverrideDay::BothActive => seq!['O', 'P', 'R', '_', '0', '2', '1'],
        OverrideDay::OverrideMissing => seq!['O', 'P', 'R', '_', '0', '2', '2'],
        _ => seq!['O', 'P', 'R', '_', '0', '2', '3'],
    }
}

/// The notice of one class of rule `q`, when the rule's window has a day
/// of that class.
pub open spec fn class_part(rule: OverrideRule, q: usize, kind: OverrideDay) -> Seq<(Seq<char>, Option<usize>, Option<Seq<char>>)> {
    let days = window_days(date_parts(rule.start), rule.end as int);
    let b = rule.base@.map_values(|v: Vec<u32>| v@);
    let o = rule.over@.map_values(|v: Vec<u32>| v@);
    if days_of_kind(days, b, o, kind).len() > 0 {
        seq![(opr_code(kind), Some(q), None::<Seq<char>>)]
    } else {
        Seq::empty()
    }
}

/// The OPR_021, OPR_022 and OPR_023 notices of rules `0..n`, rule by rule.
pub open spec fn override_part(rules: Seq<OverrideRule>, n: nat) -> Seq<(Seq<char>, Option<usize>, Option<Seq<char>>)>
    decreases n,
{
    if n == 0 {
        Seq::empty()
    } else {
        let q = (n - 1) as usize;
        override_part(rules, (n - 1) as nat) + class_part(rules[q as int], q, OverrideDay::BothActive)
            + class_part(rules[q as int], q, OverrideDay::OverrideMissing) + class_part(rules[q as int], q, OverrideDay::NoService)
    }
}

fn opr_notice(kind: OverrideDay, q: usize) -> (r: Notice)
    requires
        !(kind is AsIntended),
    ensures
        nview(r) == (opr_code(kind), Some(q), None::<Seq<char>>),
{
    let mut code = String::new();
    match kind {
        OverrideDay::BothActive => {
            code.append("OPR_021");
            proof { reveal_strlit("OPR_021"); }
        },
        OverrideDay::OverrideMissing => {
            code.append("OPR_022");
            proof { reveal_strlit("OPR_022"); }
        },
        _ => {
            code.append("OPR_023");
            proof { reveal_strlit("OPR_023"); }
        },
    }
    proof {
        assert(code@ =~= opr_code(kind));
    }
    Notice { rule_id: code, id: String::new(), record: Some(q), observed: None }
}

fn override_notices(feed: &Feed) -> (r: Vec<Notice>)
    requires
        feed_well_formed(*feed),
    ensures
        nviews(r@) == override_part(feed.override_rules@, feed.override_rules@.len()),
        r@.len() <= 3 * feed.override_rules@.len(),
{
    let mut r: Vec<Notice> = Vec::new();
    let mut q: usize = 0;
    while q < feed.override_rules.len()
        invariant
            q <= feed.override_rules@.len(),
            feed_well_formed(*feed),
            nviews(r@) == override_part(feed.override_rules@, q as nat),
            r@.len() <= 3 * q,
        decreases feed.override_rules@.len() - q,
    {
        let rule = &feed.override_rules[q];
        proof {
            assert(feed.override_rules@[q as int] == *rule);
        }
        let w = crate::calendar::override_window(rule.start, rule.end, rule.base.as_slice(), rule.over.as_slice());
        let ghost before = nviews(r@);
        if w.both_active.len() > 0 {
            r.push(opr_notice(OverrideDay::BothActive, q));
        }
        let ghost mid1 = nviews(r@);
        if w.override_missing.len() > 0 {
            r.push(opr_notice(OverrideDay::OverrideMissing, q));
        }
        let ghost mid2 = nviews(r@);
        if w.no_service.len() > 0 {
            r.push(opr_notice(OverrideDay::NoService, q));
        }
        proof {
            assert(mid1 =~= before + class_part(*rule, q, OverrideDay::BothActive));
            assert(mid2 =~= mid1 + class_part(*rule, q, OverrideDay::OverrideMissing));
            assert(nviews(r@) =~= mid2 + class_part(*rule, q, OverrideDay::NoService));
            assert(nviews(r@) =~= override_part(feed.override_rules@, (q + 1) as nat));
        }
        q += 1;
    }
    r
}

// ── The whole run ────────────────────────────────────────────────────────────

/// The notices of a feed, in the checks' fixed order.
pub open spec fn feed_notices(feed: Feed) -> Seq<(Seq<char>, Option<usize>, Option<Seq<char>>)> {
    wrap_part(feed.trip_rows@, feed.service_day_start_hour * 3600)
        + finding_view(findings_of(description_flags(feed.routes@), Rule::DescriptionMissing)
            + findings_of(url_flags(feed.routes@), Rule::UrlMissing))
        + records_part(feed)
        + override_part(feed.override_rules@, feed.override_rules@.len())
}

/// Runs the checks the library holds on a feed, in their fixed order, and
/// numbers their notices `k6/{rule}#{n}` from 1 in that order.
pub fn analyze(feed: &Feed) -> (r: K6Result)
    requires
        feed_well_formed(*feed),
    ensures
        r.notices@.len() == feed_notices(*feed).len(),
        forall|i: int| 0 <= i < r.notices@.len() ==> nview(#[trigger] r.notices@[i]) == feed_notices(*feed)[i]
            && r.notices@[i].id@ == notice_id(feed_notices(*feed)[i].0, (i + 1) as nat),
{
    let p1 = wrap_notices(feed);
    let fr = route_field_findings(feed.routes.as_slice());
    let p2 = notices_of(&fr);
    let p3 = record_notices(feed);
    let p4 = override_notices(feed);
    let ghost v1 = p1@;
    let ghost v2 = p2@;
    let ghost v3 = p3@;
    let ghost v4 = p4@;
    proof {
        lemma_findings_len(description_flags(feed.routes@), Rule::DescriptionMissing);
        lemma_findings_len(url_flags(feed.routes@), Rule::UrlMissing);
        lemma_findings_len(agency_flags(feed.agencies@, feed.route_agencies@), Rule::UnnamedAgency);
        lemma_findings_len(unused_flags(feed.stops@, feed.stop_time_stops@), Rule::UnusedStop);
        lemma_findings_len(childless_flags(feed.stops@), Rule::ChildlessStation);
        assert(nviews(p1@).len() == p1@.len());
        assert(p1@.len() <= 1);
        assert(nviews(p2@).len() == p2@.len());
        assert(finding_view(fr@).len() == fr@.len());
        assert(description_flags(feed.routes@).len() == feed.routes@.len());
        assert(url_flags(feed.routes@).len() == feed.routes@.len());
        assert(p2@.len() <= 2 * feed.routes@.len());
        assert(p3@.len() <= feed.agencies@.len() + feed.n_blocks + 2 * feed.stops@.len()) by {
            assert(nviews(p3@).len() == p3@.len());
            lemma_trp033_len(feed.block_trips@, feed.n_blocks as nat);
        }
    }
    let mut parts: Vec<Vec<Notice>> = Vec::new();
    parts.push(p1);
    parts.push(p2);
    parts.push(p3);
    parts.push(p4);
    proof {
        let ps = parts@;
        assert(ps.len() == 4);
        assert(ps[0]@ == v1 && ps[1]@ == v2 && ps[2]@ == v3 && ps[3]@ == v4);
        assert(joined(Seq::<Vec<Notice>>::empty()) =~= Seq::<Notice>::empty());
        assert(joined(ps) =~= v1 + v2 + v3 + v4) by {
            assert(ps.drop_last().drop_last().drop_last() =~= seq![ps[0]]);
            assert(ps.drop_last().drop_last() =~= seq![ps[0], ps[1]]);
            assert(ps.drop_last() =~= seq![ps[0], ps[1], ps[2]]);
            assert(joined(seq![ps[0]]) =~= v1) by {
                assert(seq![ps[0]].drop_last() =~= Seq::<Vec<Notice>>::empty());
                assert(seq![ps[0]].last() == ps[0]);
            }
            assert(joined(seq![ps[0], ps[1]]) =~= v1 + v2) by {
                assert(seq![ps[0], ps[1]].drop_last() =~= seq![ps[0]]);
            }
            assert(joined(seq![ps[0], ps[1], ps[2]]) =~= v1 + v2 + v3) by {
                assert(seq![ps[0], ps[1], ps[2]].drop_last() =~= seq![ps[0], ps[1]]);
            }
        }
        assert(nviews(v1 + v2 + v3 + v4) =~= feed_notices(*feed));
    }
    let r = number_notices(parts);
    proof {
        let all = v1 + v2 + v3 + v4;
        assert forall|i: int| 0 <= i < r.notices@.len() implies nview(#[trigger] r.notices@[i]) == feed_notices(*feed)[i]
            && r.notices@[i].id@ == notice_id(feed_notices(*feed)[i].0, (i + 1) as nat) by {
            assert(nviews(all)[i] == nview(all[i]));
        }
    }
    r
}

proof fn lemma_trp033_len(trips: Seq<(Option<usize>, Option<u32>)>, n: nat)
    ensures
        trp033_part(trips, n).len() <= n,
    decreases n,
{
    if n > 0 {
        lemma_trp033_len(trips, (n - 1) as nat);
    }
}

/// A feed with no records and no override rules gets no notice.
pub proof fn law_empty_feed_no_notices(feed: Feed)
    requires
        feed.trip_rows@.len() == 0,
        feed.routes@.len() == 0,
        feed.agencies@.len() == 0,
        feed.n_blocks == 0,
        feed.stops@.len() == 0,
        feed.override_rules@.len() == 0,
    ensures
        feed_notices(feed).len() == 0,
{
    assert(midnight_wraps(feed.trip_rows@, feed.service_day_start_hour * 3600) == 0);
    assert(description_flags(feed.routes@).len() == 0);
    assert(url_flags(feed.routes@).len() == 0);
    assert(agency_flags(feed.agencies@, feed.route_agencies@).len() == 0);
    assert(unused_flags(feed.stops@, feed.stop_time_stops@).len() == 0);
    assert(childless_flags(feed.stops@).len() == 0);
}

} // verus!
