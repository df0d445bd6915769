use vstd::prelude::*;
use crate::stops::{
    childless_stations, spec_childless_station, spec_unnamed_agency, spec_unused_stop, stops_indexed_below,
    unnamed_agencies, unused_stops, StopRecord,
};

verus! {

// Findings on the feed's records, in the order the rules run, each in record
// order: DQ_010 on the agencies, then STP_020 and STP_030 on the stops; and,
// in another check, DQ_003 then DQ_004 on the routes.

/// The rule a finding comes from.
#[derive(Debug, Clone, Copy, PartialEq, Eq, Structural)]
pub enum Rule {
    /// DQ_010: an agency that no route names.
    UnnamedAgency,
    /// STP_020: a physical stop that no trip uses.
    UnusedStop,
    /// STP_030: a station without platforms.
    ChildlessStation,
    /// DQ_003: a route without route_desc.
    DescriptionMissing,
    /// DQ_004: a route without route_url.
    UrlMissing,
}

/// A finding: its rule and the position of the record it is about
/// (in agency.txt or stops.txt order).
#[derive(Debug, Clone, Copy, PartialEq, Eq, Structural)]
pub struct Finding {
    pub rule: Rule,
    pub record: usize,
}

/// One finding of `rule` for every flagged position, in order.
pub open spec fn findings_of(flags: Seq<bool>, rule: Rule) -> Seq<Finding>
    decreases flags.len(),
{
    if flags.len() == 0 {
        Seq::empty()
    } else if flags.last() {
        findings_of(flags.drop_last(), rule).push(Finding { rule, record: (flags.len() - 1) as usize })
    } else {
        findings_of(flags.drop_last(), rule)
    }
}

/// DQ_010 verdicts in agency order.
pub open spec fn agency_flags(agencies: Seq<Option<usize>>, route_agencies: Seq<Option<usize>>) -> Seq<bool> {
    agencies.map_values(|a: Option<usize>| spec_unnamed_agency(a, route_agencies))
}

/// STP_020 verdicts in stop order.
pub open spec fn unused_flags(stops: Seq<StopRecord>, used: Seq<usize>) -> Seq<bool> {
    stops.map_values(|s: StopRecord| spec_unused_stop(s, used))
}

/// STP_030 verdicts in stop order.
pub open spec fn childless_flags(stops: Seq<StopRecord>) -> Seq<bool> {
    stops.map_values(|s: StopRecord| spec_childless_station(stops, s))
}

/// The findings of the record rules, in emission order.
pub open spec fn spec_record_findings(
    agencies: Seq<Option<usize>>,
    route_agencies: Seq<Option<usize>>,
    stops: Seq<StopRecord>,
    used: Seq<usize>,
) -> Seq<Finding> {
    findings_of(agency_flags(agencies, route_agencies), Rule::UnnamedAgency)
        + findings_of(unused_flags(stops, used), Rule::UnusedStop)
        + findings_of(childless_flags(stops), Rule::ChildlessStation)
}

pub(crate) fn push_flagged(out: &mut Vec<Finding>, flags: &Vec<bool>, rule: Rule)
    ensures
        final(out)@ == old(out)@ + findings_of(flags@, rule),
{
    let ghost start = out@;
    let mut k: usize = 0;
    while k < flags.len()
        invariant
            k <= flags.len(),
            out@ == start + findings_of(flags@.take(k as int), rule),
        decreases flags.len() - k,
    {
        proof {
            assert(flags@.take(k + 1).drop_last() =~= flags@.take(k as int));
            assert(flags@.take(k + 1).last() == flags@[k as int]);
        }
        if flags[k] {
            out.push(Finding { rule, record: k });
            proof {
                assert(out@ =~= start + findings_of(flags@.take(k + 1), rule));
            }
        }
        k += 1;
    }
    proof {
        assert(flags@.take(flags@.len() as int) =~= flags@);
    }
}

/// The DQ_010, STP_020 and STP_030 findings of a feed: agencies and routes
/// by agency_id index (`n_agencies` distinct ids), stops as records
/// (`n_stops` distinct stop ids and parents), `used` the stop index of every
/// stop_times row.
pub fn record_findings(
    agencies: &[Option<usize>],
    route_agencies: &[Option<usize>],
    n_agencies: usize,
    stops: &[StopRecord],
    used: &[usize],
    n_stops: usize,
) -> (r: Vec<Finding>)
    requires
        forall|k: int| 0 <= k < agencies@.len() && (#[trigger] agencies@[k]) is Some ==> agencies@[k]->0 < n_agencies,
        forall|k: int| 0 <= k < route_agencies@.len() && (#[trigger] route_agencies@[k]) is Some ==> route_agencies@[k]->0 < n_agencies,
        stops_indexed_below(stops@, n_stops),
        forall|k: int| 0 <= k < used@.len() ==> #[trigger] used@[k] < n_stops,
    ensures
        r@ == spec_record_findings(agencies@, route_agencies@, stops@, used@),
{
    let mut r: Vec<Finding> = Vec::new();
    let a = unnamed_agencies(agencies, route_agencies, n_agencies);
    let u = unused_stops(stops, used, n_stops);
    let c = childless_stations(stops, n_stops);
    proof {
        assert(a@ =~= agency_flags(agencies@, route_agencies@));
        assert(u@ =~= unused_flags(stops@, used@));
        assert(c@ =~= childless_flags(stops@));
    }
    push_flagged(&mut r, &a, Rule::UnnamedAgency);
    push_flagged(&mut r, &u, Rule::UnusedStop);
    push_flagged(&mut r, &c, Rule::ChildlessStation);
    proof {
        assert(r@ =~= spec_record_findings(agencies@, route_agencies@, stops@, used@));
    }
    r
}

/// A routes.txt row's text fields that DQ_003 and DQ_004 read.
#[derive(Debug, Clone)]
pub struct RouteText {
    pub route_id: String,
    pub route_desc: Option<String>,
    pub route_url: Option<String>,
}

/// The text of an optional owned field.
pub open spec fn owned_text(o: Option<String>) -> Option<Seq<char>> {
    match o {
        Some(s) => Some(s@),
        None => None,
    }
}

/// DQ_003 verdicts in route order.
pub open spec fn description_flags(routes: Seq<RouteText>) -> Seq<bool> {
    routes.map_values(|r: RouteText| crate::fields::spec_lacks_recommended(r.route_id@, owned_text(r.route_desc)))
}

/// DQ_004 verdicts in route order.
pub open spec fn url_flags(routes: Seq<RouteText>) -> Seq<bool> {
    routes.map_values(|r: RouteText| crate::fields::spec_lacks_recommended(r.route_id@, owned_text(r.route_url)))
}

fn lacks(id: &String, field: &Option<String>) -> (r: bool)
    ensures
        r == crate::fields::spec_lacks_recommended(id@, owned_text(*field)),
{
    let f: Option<&str> = match field {
        Some(v) => Some(v.as_str()),
        None => None,
    };
    crate::fields::lacks_recommended(id.as_str(), f)
}

/// The DQ_003 findings, then the DQ_004 findings, of the routes.
pub fn route_field_findings(routes: &[RouteText]) -> (r: Vec<Finding>)
    ensures
        r@ == findings_of(description_flags(routes@), Rule::DescriptionMissing)
            + findings_of(url_flags(routes@), Rule::UrlMissing),
{
    let mut desc: Vec<bool> = Vec::new();
    let mut url: Vec<bool> = Vec::new();
    let mut k: usize = 0;
    while k < routes.len()
        invariant
            k <= routes@.len(),
            desc@ == description_flags(routes@).take(k as int),
            url@ == url_flags(routes@).take(k as int),
        decreases routes@.len() - k,
    {
        let route = &routes[k];
        desc.push(lacks(&route.route_id, &route.route_desc));
        url.push(lacks(&route.route_id, &route.route_url));
        proof {
            assert(desc@ =~= description_flags(routes@).take(k + 1));
            assert(url@ =~= url_flags(routes@).take(k + 1));
        }
        k += 1;
    }
    proof {
        assert(desc@ =~= description_flags(routes@));
        assert(url@ =~= url_flags(routes@));
    }
    let mut r: Vec<Finding> = Vec::new();
    push_flagged(&mut r, &desc, Rule::DescriptionMissing);
    push_flagged(&mut r, &url, Rule::UrlMissing);
    proof {
        assert(r@ =~= findings_of(description_flags(routes@), Rule::DescriptionMissing)
            + findings_of(url_flags(routes@), Rule::UrlMissing));
    }
    r
}

} // verus!
