use vstd::prelude::*;
use crate::text::{is_blank, spec_is_blank};

verus! {

// Recommended text fields: empty ones (DQ_003, DQ_004, DQ_020) and URLs that
// only repeat another entity's URL (RTS_020, STP_034, STP_035).

/// The text of an optional field, as characters.
pub open spec fn opt_text(o: Option<&str>) -> Option<Seq<char>> {
    match o {
        Some(s) => Some(s@),
        None => None,
    }
}

/// The name a route is shown by: its short name, else its long name, else
/// its id (empty names count as absent).
pub open spec fn spec_route_label(short: Option<Seq<char>>, long: Option<Seq<char>>, id: Seq<char>) -> Seq<char> {
    if short is Some && short->0.len() > 0 {
        short->0
    } else if long is Some && long->0.len() > 0 {
        long->0
    } else {
        id
    }
}

/// The label of a route in DQ_003 and DQ_004 messages.
pub fn route_label<'a>(short: Option<&'a str>, long: Option<&'a str>, id: &'a str) -> (r: &'a str)
    ensures
        r@ == spec_route_label(opt_text(short), opt_text(long), id@),
{
    match short {
        Some(s) if !s.is_empty() => s,
        _ => match long {
            Some(l) if !l.is_empty() => l,
            _ => id,
        },
    }
}

/// A field that is missing or holds only whitespace.
pub open spec fn spec_field_blank(field: Option<Seq<char>>) -> bool {
    field is None || spec_is_blank(field->0)
}

/// DQ_003 (route_desc) and DQ_004 (route_url): a route with an id whose
/// recommended field is missing or blank.
pub open spec fn spec_lacks_recommended(id: Seq<char>, field: Option<Seq<char>>) -> bool {
    id.len() > 0 && spec_field_blank(field)
}

/// Whether a route (by id) lacks a recommended field (DQ_003, DQ_004).
pub fn lacks_recommended(id: &str, field: Option<&str>) -> (r: bool)
    ensures
        r == spec_lacks_recommended(id@, opt_text(field)),
{
    if id.is_empty() {
        return false;
    }
    match field {
        Some(v) => is_blank(v),
        None => true,
    }
}

/// A trip's id and headsign (`None` when the trip has none).
#[derive(Debug, Clone)]
pub struct TripText {
    pub trip_id: String,
    pub headsign: Option<String>,
}

/// The headsign of a trip, as characters.
pub open spec fn headsign_text(t: TripText) -> Option<Seq<char>> {
    match t.headsign {
        Some(h) => Some(h@),
        None => None,
    }
}

/// Trips with a non-empty id.
pub open spec fn named_trips(s: Seq<TripText>) -> nat
    decreases s.len(),
{
    if s.len() == 0 {
        0
    } else {
        named_trips(s.drop_last()) + if s.last().trip_id@.len() > 0 { 1nat } else { 0nat }
    }
}

/// Trips with a non-empty id and a missing or blank headsign.
pub open spec fn headsignless_trips(s: Seq<TripText>) -> nat
    decreases s.len(),
{
    if s.len() == 0 {
        0
    } else {
        headsignless_trips(s.drop_last()) + if s.last().trip_id@.len() > 0
            && spec_field_blank(headsign_text(s.last())) { 1nat } else { 0nat }
    }
}

/// DQ_020: how many trips lack a headsign, out of how many, when any does.
pub open spec fn spec_headsign_gap(s: Seq<TripText>) -> Option<(nat, nat)> {
    if headsignless_trips(s) > 0 {
        Some((headsignless_trips(s), named_trips(s)))
    } else {
        None
    }
}

proof fn lemma_headsignless_at_most_named(s: Seq<TripText>)
    ensures
        headsignless_trips(s) <= named_trips(s),
    decreases s.len(),
{
    if s.len() > 0 {
        lemma_headsignless_at_most_named(s.drop_last());
    }
}

/// DQ_020: `Some((missing, total))` when some trips with an id have no
/// headsign (missing or blank), `None` otherwise.
pub fn headsign_gap(trips: &[TripText]) -> (r: Option<(usize, usize)>)
    ensures
        match r {
            Some((m, t)) => spec_headsign_gap(trips@) == Some((m as nat, t as nat)),
            None => spec_headsign_gap(trips@) is None,
        },
{
    let mut total: usize = 0;
    let mut missing: usize = 0;
    let mut i: usize = 0;
    while i < trips.len()
        invariant
            i <= trips.len(),
            total == named_trips(trips@.take(i as int)),
            missing == headsignless_trips(trips@.take(i as int)),
            total <= i,
        decreases trips.len() - i,
    {
        let ghost pre = trips@.take(i as int);
        proof {
            assert(trips@.take(i + 1).drop_last() =~= pre);
            lemma_headsignless_at_most_named(pre);
        }
        let t = &trips[i];
        if !t.trip_id.as_str().is_empty() {
            total += 1;
            let blank = match &t.headsign {
                Some(h) => is_blank(h.as_str()),
                None => true,
            };
            if blank {
                missing += 1;
            }
        }
        i += 1;
    }
    proof {
        assert(trips@.take(trips@.len() as int) =~= trips@);
    }
    if missing > 0 {
        Some((missing, total))
    } else {
        None
    }
}

/// An agency's id (`None` when the column is empty or absent) and URL.
#[derive(Debug, Clone)]
pub struct AgencyUrl {
    pub agency_id: Option<String>,
    pub agency_url: String,
}

/// The key an agency is looked up by: its id, or the empty text.
pub open spec fn agency_key(a: AgencyUrl) -> Seq<char> {
    match a.agency_id {
        Some(id) => id@,
        None => Seq::empty(),
    }
}

/// The URL listed for agency key `key`: that of the last agency with this
/// key and a non-empty URL.
pub open spec fn url_of_agency(agencies: Seq<AgencyUrl>, key: Seq<char>) -> Option<Seq<char>>
    decreases agencies.len(),
{
    if agencies.len() == 0 {
        None
    } else if agencies.last().agency_url@.len() > 0 && agency_key(agencies.last()) == key {
        Some(agencies.last().agency_url@)
    } else {
        url_of_agency(agencies.drop_last(), key)
    }
}

/// The agency URL a route is compared with: that of its agency, else, in a
/// feed with exactly one agency, that agency's URL.
pub open spec fn route_agency_url(agencies: Seq<AgencyUrl>, route_agency: Option<Seq<char>>) -> Option<Seq<char>> {
    let fallback = if agencies.len() == 1 { Some(agencies[0].agency_url@) } else { None };
    match route_agency {
        Some(key) => match url_of_agency(agencies, key) {
            Some(u) => Some(u),
            None => fallback,
        },
        None => fallback,
    }
}

/// RTS_020: a route whose non-empty route_url is its agency's URL.
pub open spec fn spec_route_url_is_agency_url(
    route_id: Seq<char>,
    route_url: Option<Seq<char>>,
    route_agency: Option<Seq<char>>,
    agencies: Seq<AgencyUrl>,
) -> bool {
    &&& route_id.len() > 0
    &&& route_url is Some && route_url->0.len() > 0
    &&& route_agency_url(agencies, route_agency) == Some(route_url->0)
}

fn lookup_agency_url<'a>(agencies: &'a [AgencyUrl], key: &str) -> (r: Option<&'a String>)
    ensures
        match r {
            Some(u) => url_of_agency(agencies@, key@) == Some(u@),
            None => url_of_agency(agencies@, key@) is None,
        },
{
    let mut i: usize = agencies.len();
    proof {
        assert(agencies@.take(i as int) =~= agencies@);
    }
    while i > 0
        invariant
            i <= agencies.len(),
            url_of_agency(agencies@, key@) == url_of_agency(agencies@.take(i as int), key@),
        decreases i,
    {
        let a = &agencies[i - 1];
        let ghost pre = agencies@.take(i as int);
        proof {
            assert(pre.drop_last() =~= agencies@.take(i - 1));
            assert(pre.last() == a);
        }
        let k: &str = match &a.agency_id {
            Some(id) => id.as_str(),
            None => "",
        };
        proof {
            reveal_strlit("");
            assert(k@ == agency_key(*a));
        }
        if !a.agency_url.as_str().is_empty() && crate::report::text_equal(k, key) {
            return Some(&a.agency_url);
        }
        i -= 1;
    }
    None
}

/// RTS_020 for one route: whether its route_url is the URL of its agency
/// (or of the feed's only agency).
pub fn route_url_is_agency_url(
    route_id: &str,
    route_url: Option<&str>,
    route_agency: Option<&str>,
    agencies: &[AgencyUrl],
) -> (r: bool)
    ensures
        r == spec_route_url_is_agency_url(route_id@, opt_text(route_url), opt_text(route_agency), agencies@),
{
    if route_id.is_empty() {
        return false;
    }
    let url = match route_url {
        Some(u) if !u.is_empty() => u,
        _ => return false,
    };
    let found = match route_agency {
        Some(key) => lookup_agency_url(agencies, key),
        None => None,
    };
    let agency_url: Option<&String> = match found {
        Some(u) => Some(u),
        None => if agencies.len() == 1 { Some(&agencies[0].agency_url) } else { None },
    };
    match agency_url {
        Some(a) => crate::report::text_equal(url, a.as_str()),
        None => false,
    }
}

/// STP_034: a non-empty stop_url that is also some agency's URL.
pub open spec fn spec_stop_url_is_agency_url(stop_url: Option<Seq<char>>, agency_urls: Seq<String>) -> bool {
    stop_url is Some && stop_url->0.len() > 0
        && exists|j: int| 0 <= j < agency_urls.len() && #[trigger] agency_urls[j]@ == stop_url->0
}

/// STP_035: a non-empty stop_url that is also some route's URL.
pub open spec fn spec_stop_url_is_route_url(stop_url: Option<Seq<char>>, route_urls: Seq<Option<String>>) -> bool {
    stop_url is Some && stop_url->0.len() > 0
        && exists|j: int| 0 <= j < route_urls.len() && #[trigger] route_urls[j] is Some
            && route_urls[j]->0@ == stop_url->0
}

/// STP_034 and STP_035 for one stop: whether its URL repeats an agency URL,
/// and whether it repeats a route URL.
pub fn stop_url_repeats(stop_url: Option<&str>, agency_urls: &[String], route_urls: &[Option<String>]) -> (r: (bool, bool))
    ensures
        r.0 == spec_stop_url_is_agency_url(opt_text(stop_url), agency_urls@),
        r.1 == spec_stop_url_is_route_url(opt_text(stop_url), route_urls@),
{
    let url = match stop_url {
        Some(u) if !u.is_empty() => u,
        _ => return (false, false),
    };
    let mut by_agency = false;
    let mut j: usize = 0;
    while j < agency_urls.len() && !by_agency
        invariant
            j <= agency_urls.len(),
            by_agency ==> exists|k: int| 0 <= k < agency_urls@.len() && #[trigger] agency_urls@[k]@ == url@,
            !by_agency ==> forall|k: int| 0 <= k < j ==> #[trigger] agency_urls@[k]@ != url@,
        decreases agency_urls.len() - j, if by_agency { 0int } else { 1int },
    {
        if crate::report::text_equal(agency_urls[j].as_str(), url) {
            by_agency = true;
        } else {
            j += 1;
        }
    }
    let mut by_route = false;
    let mut j: usize = 0;
    while j < route_urls.len() && !by_route
        invariant
            j <= route_urls.len(),
            by_route ==> exists|k: int| 0 <= k < route_urls@.len() && #[trigger] route_urls@[k] is Some
                && route_urls@[k]->0@ == url@,
            !by_route ==> forall|k: int| 0 <= k < j ==> !(#[trigger] route_urls@[k] is Some && route_urls@[k]->0@ == url@),
        decreases route_urls.len() - j, if by_route { 0int } else { 1int },
    {
        match &route_urls[j] {
            Some(u) => {
                if crate::report::text_equal(u.as_str(), url) {
                    by_route = true;
                } else {
                    j += 1;
                }
            },
            None => {
                j += 1;
            },
        }
    }
    (by_agency, by_route)
}

/// A trip with a shape whose stop times give no shape_dist_traveled: the
/// type of its route (`None` when the route or its type is unknown) and its
/// shape index, if any.
#[derive(Debug, Clone, Copy)]
pub struct DistanceGap {
    pub route_type: Option<u32>,
    pub shape: Option<usize>,
}

/// Positions of the gaps that STM_017 reports: those off rail routes (an
/// unknown route type counts as bus).
pub open spec fn reported_gaps(s: Seq<DistanceGap>) -> Seq<usize>
    decreases s.len(),
{
    if s.len() == 0 {
        Seq::empty()
    } else if crate::route_type::spec_is_rail_route_type(crate::route_type::spec_route_type_or_bus(s.last().route_type)) {
        reported_gaps(s.drop_last())
    } else {
        reported_gaps(s.drop_last()).push((s.len() - 1) as usize)
    }
}

/// The shapes of the reported gaps, in order.
pub open spec fn reported_shapes(s: Seq<DistanceGap>) -> Seq<Option<usize>>
    decreases s.len(),
{
    if s.len() == 0 {
        Seq::empty()
    } else if crate::route_type::spec_is_rail_route_type(crate::route_type::spec_route_type_or_bus(s.last().route_type)) {
        reported_shapes(s.drop_last())
    } else {
        reported_shapes(s.drop_last()).push(s.last().shape)
    }
}

/// Number of distinct shapes (`None` not counted) in `v`.
pub open spec fn distinct_shapes(v: Seq<Option<usize>>) -> nat
    decreases v.len(),
{
    if v.len() == 0 {
        0
    } else {
        distinct_shapes(v.drop_last()) + if v.last() is Some && !v.drop_last().contains(v.last()) { 1nat } else { 0nat }
    }
}

/// How STM_017 reports trips without shape distances.
#[derive(Debug)]
pub enum DistanceReport {
    /// No stop time of the feed has a distance and several trips lack one:
    /// one notice for the whole feed.
    Summary { trips: usize, shapes: usize },
    /// One notice per listed gap (by position).
    PerTrip(Vec<usize>),
}

/// STM_017: the gaps off rail routes are reported one by one, unless no stop
/// time of the feed has a shape distance and more than one trip is
/// affected, in which case one summary counts the trips and their distinct
/// shapes.
pub fn distance_report(gaps: &[DistanceGap], any_distance: bool, n_shapes: usize) -> (r: DistanceReport)
    requires
        forall|j: int| 0 <= j < gaps@.len() && (#[trigger] gaps@[j]).shape is Some ==> gaps@[j].shape->0 < n_shapes,
    ensures
        match r {
            DistanceReport::Summary { trips, shapes } => !any_distance && reported_gaps(gaps@).len() > 1
                && trips == reported_gaps(gaps@).len() && shapes == distinct_shapes(reported_shapes(gaps@)),
            DistanceReport::PerTrip(v) => !(!any_distance && reported_gaps(gaps@).len() > 1)
                && v@ == reported_gaps(gaps@),
        },
{
    let mut kept: Vec<usize> = Vec::new();
    let mut seen: Vec<bool> = Vec::new();
    let mut k: usize = 0;
    while k < n_shapes
        invariant
            k <= n_shapes,
            seen@.len() == k,
            forall|g: int| 0 <= g < k ==> !seen@[g],
        decreases n_shapes - k,
    {
        seen.push(false);
        k += 1;
    }
    let mut shapes: usize = 0;
    let mut i: usize = 0;
    while i < gaps.len()
        invariant
            i <= gaps.len(),
            seen@.len() == n_shapes,
            forall|j: int| 0 <= j < gaps@.len() && (#[trigger] gaps@[j]).shape is Some ==> gaps@[j].shape->0 < n_shapes,
            kept@ == reported_gaps(gaps@.take(i as int)),
            kept@.len() == reported_shapes(gaps@.take(i as int)).len(),
            shapes == distinct_shapes(reported_shapes(gaps@.take(i as int))),
            shapes <= kept@.len(),
            kept@.len() <= i,
            forall|g: int| 0 <= g < n_shapes ==> #[trigger] seen@[g] == reported_shapes(gaps@.take(i as int)).contains(Some(g as usize)),
        decreases gaps.len() - i,
    {
        let ghost pre = gaps@.take(i as int);
        let ghost old_seen = seen@;
        proof {
            assert(gaps@.take(i + 1).drop_last() =~= pre);
            assert(gaps@.take(i + 1).last() == gaps@[i as int]);
        }
        let gap = gaps[i];
        if !crate::route_type::is_rail_route_type(crate::route_type::route_type_or_bus(gap.route_type)) {
            kept.push(i);
            let ghost before = reported_shapes(pre);
            let ghost after = before.push(gap.shape);
            proof {
                assert(reported_shapes(gaps@.take(i + 1)) == after);
            }
            match gap.shape {
                Some(g) => {
                    if !seen[g] {
                        seen.set(g, true);
                        shapes += 1;
                    }
                },
                None => {},
            }
            proof {
                assert(after.drop_last() =~= before);
                assert forall|h: int| 0 <= h < n_shapes implies #[trigger] seen@[h] == after.contains(Some(h as usize)) by {
                    if after.contains(Some(h as usize)) {
                        let q = choose|q: int| 0 <= q < after.len() && after[q] == Some(h as usize);
                        if q < before.len() {
                            assert(before[q] == after[q]);
                        }
                    }
                    if before.contains(Some(h as usize)) {
                        let q = choose|q: int| 0 <= q < before.len() && before[q] == Some(h as usize);
                        assert(after[q] == before[q]);
                    }
                    if gap.shape == Some(h as usize) {
                        assert(after[before.len() as int] == Some(h as usize));
                    }
                }
            }
        }
        i += 1;
    }
    proof {
        assert(gaps@.take(gaps@.len() as int) =~= gaps@);
    }
    if !any_distance && kept.len() > 1 {
        DistanceReport::Summary { trips: kept.len(), shapes }
    } else {
        DistanceReport::PerTrip(kept)
    }
}

/// DQ_018 (`upper`) or DQ_019 (`!upper`): the text is written all in
/// capitals, or all in small letters.
pub open spec fn spec_single_case(t: Seq<char>, upper: bool) -> bool {
    if upper {
        crate::text::spec_is_all_caps(t)
    } else {
        crate::text::spec_is_all_lower(t)
    }
}

/// The texts of stop-time rows, each given by its index into `names`.
pub open spec fn row_texts(names: Seq<String>, rows: Seq<usize>) -> Seq<Seq<char>> {
    rows.map_values(|id: usize| names[id as int]@)
}

/// Rows whose text is in a single case and appears there for the first
/// time.
pub open spec fn first_single_case(texts: Seq<Seq<char>>, upper: bool) -> Seq<usize>
    decreases texts.len(),
{
    if texts.len() == 0 {
        Seq::empty()
    } else if spec_single_case(texts.last(), upper) && !texts.drop_last().contains(texts.last()) {
        first_single_case(texts.drop_last(), upper).push((texts.len() - 1) as usize)
    } else {
        first_single_case(texts.drop_last(), upper)
    }
}

/// DQ_018 / DQ_019 on stop headsigns: the rows (in the given order) at which
/// each distinct headsign in a single case first appears. `names` holds each
/// headsign once; `rows` gives each row's headsign by its index there.
pub fn single_case_headsigns(names: &[String], rows: &[usize], upper: bool) -> (r: Vec<usize>)
    requires
        forall|j: int| 0 <= j < rows@.len() ==> #[trigger] rows@[j] < names@.len(),
        forall|a: int, b: int| 0 <= a < b < names@.len() ==> names@[a]@ != names@[b]@,
    ensures
        r@ == first_single_case(row_texts(names@, rows@), upper),
{
    let mut seen: Vec<bool> = Vec::new();
    let mut k: usize = 0;
    while k < names.len()
        invariant
            k <= names.len(),
            seen@.len() == k,
            forall|g: int| 0 <= g < k ==> !seen@[g],
        decreases names.len() - k,
    {
        seen.push(false);
        k += 1;
    }
    let ghost texts = row_texts(names@, rows@);
    let mut r: Vec<usize> = Vec::new();
    let mut i: usize = 0;
    while i < rows.len()
        invariant
            i <= rows.len(),
            seen@.len() == names@.len(),
            texts == row_texts(names@, rows@),
            forall|j: int| 0 <= j < rows@.len() ==> #[trigger] rows@[j] < names@.len(),
            forall|a: int, b: int| 0 <= a < b < names@.len() ==> names@[a]@ != names@[b]@,
            r@ == first_single_case(texts.take(i as int), upper),
            forall|g: int| 0 <= g < names@.len() ==> #[trigger] seen@[g] == texts.take(i as int).contains(names@[g]@),
        decreases rows.len() - i,
    {
        let ghost pre = texts.take(i as int);
        let ghost post = texts.take(i + 1);
        let id = rows[i];
        proof {
            assert(post.drop_last() =~= pre);
            assert(post.last() == names@[id as int]@);
            assert(pre.contains(names@[id as int]@) == seen@[id as int]);
        }
        if !seen[id] {
            seen.set(id, true);
            if upper {
                if crate::text::is_all_caps(names[id].as_str()) {
                    r.push(i);
                }
            } else {
                if crate::text::is_all_lower(names[id].as_str()) {
                    r.push(i);
                }
            }
        }
        proof {
            assert forall|g: int| 0 <= g < names@.len() implies #[trigger] seen@[g] == post.contains(names@[g]@) by {
                if post.contains(names@[g]@) {
                    let q = choose|q: int| 0 <= q < post.len() && post[q] == names@[g]@;
                    if q < pre.len() {
                        assert(pre[q] == post[q]);
                    } else {
                        if g != id as int {
                            if g < id {
                                assert(names@[g]@ != names@[id as int]@);
                            } else {
                                assert(names@[id as int]@ != names@[g]@);
                            }
                        }
                    }
                }
                if pre.contains(names@[g]@) {
                    let q = choose|q: int| 0 <= q < pre.len() && pre[q] == names@[g]@;
                    assert(post[q] == pre[q]);
                }
                if g == id as int {
                    assert(post[i as int] == names@[g]@);
                }
            }
        }
        i += 1;
    }
    proof {
        assert(texts.take(rows@.len() as int) =~= texts);
    }
    r
}

/// Each headsign is reported at most once: the reported rows come in order,
/// each holds a text in the asked case, and no two hold the same text.
pub proof fn law_single_case_reported_once(texts: Seq<Seq<char>>, upper: bool)
    requires
        texts.len() <= usize::MAX,
    ensures
        forall|a: int| 0 <= a < first_single_case(texts, upper).len() ==>
            #[trigger] first_single_case(texts, upper)[a] < texts.len()
            && spec_single_case(texts[first_single_case(texts, upper)[a] as int], upper),
        forall|a: int, b: int| 0 <= a < b < first_single_case(texts, upper).len() ==>
            first_single_case(texts, upper)[a] < first_single_case(texts, upper)[b]
            && texts[first_single_case(texts, upper)[a] as int] != texts[first_single_case(texts, upper)[b] as int],
    decreases texts.len(),
{
    if texts.len() > 0 {
        let pre = texts.drop_last();
        law_single_case_reported_once(pre, upper);
        let r0 = first_single_case(pre, upper);
        let r = first_single_case(texts, upper);
        assert forall|a: int| 0 <= a < r0.len() implies texts[r0[a] as int] == pre[r0[a] as int] by {}
        if spec_single_case(texts.last(), upper) && !pre.contains(texts.last()) {
            assert(r == r0.push((texts.len() - 1) as usize));
            assert forall|a: int, b: int| 0 <= a < b < r.len() implies r[a] < r[b]
                && texts[r[a] as int] != texts[r[b] as int] by {
                assert(r[a] == r0[a]);
                if b == r0.len() {
                    assert(r[b] == texts.len() - 1);
                    assert(pre[r0[a] as int] == texts[r0[a] as int]);
                    if texts[r[a] as int] == texts[r[b] as int] {
                        assert(pre.contains(texts.last()));
                    }
                } else {
                    assert(r[b] == r0[b]);
                }
            }
            assert forall|a: int| 0 <= a < r.len() implies #[trigger] r[a] < texts.len()
                && spec_single_case(texts[r[a] as int], upper) by {
                if a < r0.len() {
                    assert(r[a] == r0[a]);
                }
            }
        } else {
            assert(r == r0);
        }
    }
}

} // verus!
