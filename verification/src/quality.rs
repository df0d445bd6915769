use vstd::prelude::*;
use crate::text::{
    chars_of, is_alphanumeric, lowercase, matches_at, occurs_at, spec_contains_as_word, unicode_alphanumeric,
    unicode_lowercase, word_match_at,
};

verus! {

/// Index of the first '?' or '#' in `s`, or its length when there is none.
pub open spec fn path_end(s: Seq<char>) -> int
    decreases s.len(),
{
    if s.len() == 0 {
        0
    } else if path_end(s.drop_last()) < s.len() - 1 {
        path_end(s.drop_last())
    } else if s.last() == '?' || s.last() == '#' {
        s.len() - 1
    } else {
        s.len() as int
    }
}

/// `c` is `lower` or, for an ASCII letter, its uppercase form.
pub open spec fn ascii_same_letter(c: char, lower: char, upper: char) -> bool {
    c == lower || c == upper
}

/// ARC_028: the URL's path (what precedes the query or the fragment) ends with
/// ".zip", ignoring ASCII case.
pub open spec fn spec_is_zip_url(s: Seq<char>) -> bool {
    let e = path_end(s);
    e >= 4 && s[e - 4] == '.' && ascii_same_letter(s[e - 3], 'z', 'Z') && ascii_same_letter(s[e - 2], 'i', 'I')
        && ascii_same_letter(s[e - 1], 'p', 'P')
}

/// ARC_028: does the feed's source URL name a .zip file?
pub fn is_zip_url(url: &str) -> (r: bool)
    ensures
        r == spec_is_zip_url(url@),
{
    let cs = chars_of(url);
    let mut e: usize = 0;
    while e < cs.len() && cs[e] != '?' && cs[e] != '#'
        invariant
            e <= cs.len(),
            cs@ == url@,
            forall|k: int| 0 <= k < e ==> cs@[k] != '?' && cs@[k] != '#',
        decreases cs.len() - e,
    {
        e += 1;
    }
    proof {
        lemma_path_end(cs@, e as int);
    }
    e >= 4 && cs[e - 4] == '.' && (cs[e - 3] == 'z' || cs[e - 3] == 'Z') && (cs[e - 2] == 'i' || cs[e - 2] == 'I')
        && (cs[e - 1] == 'p' || cs[e - 1] == 'P')
}

/// `e` is the first '?' or '#' of `s` (or its length when none).
proof fn lemma_path_end(s: Seq<char>, e: int)
    requires
        0 <= e <= s.len(),
        forall|k: int| 0 <= k < e ==> s[k] != '?' && s[k] != '#',
        e == s.len() || s[e] == '?' || s[e] == '#',
    ensures
        path_end(s) == e,
    decreases s.len(),
{
    if s.len() > 0 {
        let t = s.drop_last();
        if e < s.len() {
            if e < t.len() {
                lemma_path_end(t, e);
            } else {
                lemma_path_end(t, t.len() as int);
            }
        } else {
            lemma_path_end(t, t.len() as int);
        }
    }
}

/// `w` stands in `s` as a word of its own: a run of alphanumeric characters
/// bounded by non-alphanumeric characters or the ends of `s`, which is how
/// splitting at non-alphanumeric characters delimits words.
pub open spec fn has_word(s: Seq<char>, w: Seq<char>) -> bool {
    &&& w.len() > 0
    &&& forall|k: int| 0 <= k < w.len() ==> unicode_alphanumeric(#[trigger] w[k])
    &&& exists|i: int| word_match_at(s, w, i)
}

fn has_word_exec(s: &Vec<char>, w: &Vec<char>) -> (r: bool)
    ensures
        r == has_word(s@, w@),
{
    if w.len() == 0 {
        return false;
    }
    let mut k: usize = 0;
    while k < w.len()
        invariant
            k <= w.len(),
            forall|j: int| 0 <= j < k ==> unicode_alphanumeric(#[trigger] w@[j]),
        decreases w.len() - k,
    {
        if !is_alphanumeric(w[k]) {
            return false;
        }
        k += 1;
    }
    if w.len() > s.len() {
        assert forall|i: int| !word_match_at(s@, w@, i) by {}
        return false;
    }
    let last = s.len() - w.len();
    let mut i: usize = 0;
    while i <= last
        invariant
            last == s.len() - w.len(),
            0 < w.len() <= s.len(),
            i <= last + 1,
            forall|j: int| 0 <= j < w.len() ==> unicode_alphanumeric(#[trigger] w@[j]),
            forall|j: int| 0 <= j < i ==> !word_match_at(s@, w@, j),
        decreases last + 1 - i,
    {
        if matches_at(s, w, i) {
            let before_ok = i == 0 || !is_alphanumeric(s[i - 1]);
            let after_ok = i + w.len() == s.len() || !is_alphanumeric(s[i + w.len()]);
            if before_ok && after_ok {
                assert(word_match_at(s@, w@, i as int));
                return true;
            }
        }
        i += 1;
    }
    assert forall|j: int| !word_match_at(s@, w@, j) by {
        if j > last {
            assert(!occurs_at(s@, w@, j));
        }
    }
    false
}

pub(crate) fn same_chars(a: &Vec<char>, b: &Vec<char>) -> (r: bool)
    ensures
        r == (a@ == b@),
{
    if a.len() != b.len() {
        return false;
    }
    let mut i: usize = 0;
    while i < a.len()
        invariant
            a.len() == b.len(),
            i <= a.len(),
            forall|k: int| 0 <= k < i ==> a@[k] == b@[k],
        decreases a.len() - i,
    {
        if a[i] != b[i] {
            return false;
        }
        i += 1;
    }
    assert(a@ =~= b@);
    true
}

/// STP_040: the lowercased stop name contains the word "stop" or "station",
/// and is not one of the accepted names "union station" and "central station".
pub open spec fn spec_is_generic_stop_name(name: Seq<char>) -> bool {
    let l = unicode_lowercase(name);
    (has_word(l, "stop"@) || has_word(l, "station"@)) && l != "union station"@ && l != "central station"@
}

/// STP_040 for one stop name.
pub fn is_generic_stop_name(name: &str) -> (r: bool)
    ensures
        r == spec_is_generic_stop_name(name@),
{
    let lower = lowercase(name);
    let l = chars_of(lower.as_str());
    let stop_word = chars_of("stop");
    let station_word = chars_of("station");
    let union_name = chars_of("union station");
    let central_name = chars_of("central station");
    let generic = has_word_exec(&l, &stop_word) || has_word_exec(&l, &station_word);
    generic && !same_chars(&l, &union_name) && !same_chars(&l, &central_name)
}

/// STP_041: the child stop's lowercased name contains its parent station's
/// lowercased name (an empty parent name is always contained).
pub open spec fn spec_names_parent(name: Seq<char>, parent_name: Seq<char>) -> bool {
    exists|i: int| occurs_at(unicode_lowercase(name), unicode_lowercase(parent_name), i)
}

/// STP_041 for a child stop and the name of its parent station; the finding is
/// raised when this is false.
pub fn names_parent(name: &str, parent_name: &str) -> (r: bool)
    ensures
        r == spec_names_parent(name@, parent_name@),
{
    let a = lowercase(name);
    let b = lowercase(parent_name);
    let h = chars_of(a.as_str());
    let n = chars_of(b.as_str());
    if n.len() > h.len() {
        assert forall|i: int| !occurs_at(h@, n@, i) by {}
        return false;
    }
    let last = h.len() - n.len();
    let mut i: usize = 0;
    loop
        invariant
            last == h.len() - n.len(),
            n.len() <= h.len(),
            i <= last,
            h@ == unicode_lowercase(name@),
            n@ == unicode_lowercase(parent_name@),
            forall|j: int| 0 <= j < i ==> !occurs_at(h@, n@, j),
        ensures
            forall|j: int| 0 <= j <= last ==> !occurs_at(h@, n@, j),
        decreases last - i,
    {
        if matches_at(&h, &n, i) {
            return true;
        }
        if i == last {
            break;
        }
        i += 1;
    }
    assert forall|j: int| !occurs_at(h@, n@, j) by {
        if j > last {
        }
    }
    false
}

/// RTS_022: the route's short name, at least two bytes long, occurs as a whole
/// word (ignoring case) in its long name.
pub open spec fn spec_long_name_repeats_short(long_name: Seq<char>, short_name: Seq<char>) -> bool {
    (vstd::utf8::encode_utf8(short_name).len() as usize) >= 2 && spec_contains_as_word(long_name, short_name)
}

/// RTS_022 for one route.
pub fn long_name_repeats_short(long_name: &str, short_name: &str) -> (r: bool)
    ensures
        r == spec_long_name_repeats_short(long_name@, short_name@),
{
    short_name.len() >= 2 && crate::text::contains_as_word(long_name, short_name)
}

/// TRP_011: the trip has neither a trip_headsign nor a trip_short_name (absent
/// or empty), and its route has no name either.
pub open spec fn spec_lacks_passenger_label(headsign: Option<Seq<char>>, short_name: Option<Seq<char>>, route_named: bool) -> bool {
    let headsign_missing = match headsign { Some(h) => h.len() == 0, None => true };
    let short_missing = match short_name { Some(t) => t.len() == 0, None => true };
    headsign_missing && short_missing && !route_named
}

/// TRP_011 for one trip; `route_named` tells whether its route has a
/// non-empty route_short_name or route_long_name.
pub fn lacks_passenger_label(headsign: Option<&str>, short_name: Option<&str>, route_named: bool) -> (r: bool)
    ensures
        r == spec_lacks_passenger_label(
            match headsign { Some(h) => Some(h@), None => None },
            match short_name { Some(t) => Some(t@), None => None },
            route_named,
        ),
{
    let headsign_missing = match headsign {
        Some(h) => h.is_empty(),
        None => true,
    };
    let short_missing = match short_name {
        Some(t) => t.is_empty(),
        None => true,
    };
    headsign_missing && short_missing && !route_named
}

/// Which of the recommended files shapes.txt and feed_info.txt the feed lacks
/// (ARC_020).
#[derive(Debug, Clone, Copy, PartialEq, Eq, Structural)]
pub enum MissingFiles {
    Neither,
    Shapes,
    FeedInfo,
    Both,
}

/// Sizes of the feed's tables and counts over them, from which the
/// feed-level data quality rules decide.
#[derive(Debug, Clone, Copy)]
pub struct FeedCounts {
    pub agencies: u64,
    pub routes: u64,
    pub stops: u64,
    pub trips: u64,
    pub shapes: u64,
    pub feed_info_rows: u64,
    pub stop_time_rows: u64,
    /// Routes with an agency_id.
    pub routes_with_agency: u64,
    /// Trips without a shape.
    pub shapeless_trips: u64,
    /// Stops lacking a latitude or a longitude.
    pub stops_without_coordinates: u64,
    /// Trips with no stop_times row.
    pub trips_without_stop_times: u64,
    /// Stops located within one degree of (0°, 0°).
    pub stops_near_null_island: u64,
    /// The feed serves demand-responsive areas only.
    pub demand_responsive_only: bool,
}

/// The verdicts of the feed-level data quality rules.
#[derive(Debug, Clone, Copy)]
pub struct FeedQualityFindings {
    /// DQ_011: a single stop.
    pub single_stop: bool,
    /// DQ_013: one or two trips.
    pub too_few_trips: bool,
    /// DQ_009: trips but no stop_times rows.
    pub no_stop_times: bool,
    /// DQ_012: more than five agencies and no route names one.
    pub agencies_unassigned: bool,
    /// DQ_006: more than 80% of the trips lack a shape.
    pub mostly_shapeless: bool,
    /// DQ_005c: more than half of the stops lack coordinates.
    pub mostly_without_coordinates: bool,
    /// DQ_005b: no trip has stop_times.
    pub no_trip_has_stop_times: bool,
    /// DQ_017: stops near (0°, 0°).
    pub null_island_stops: bool,
    /// RTS_025 applies: at most one agency, so an empty agency_id is reported
    /// per route.
    pub agency_id_recommended: bool,
    /// ARC_020.
    pub missing_files: MissingFiles,
}

/// ARC_020: which recommended files are missing, for a feed with content
/// (an agency, a route, a stop or a trip); shapes.txt is not expected of a
/// feed that serves demand-responsive areas only.
pub open spec fn spec_missing_files(c: FeedCounts) -> MissingFiles {
    let has_content = c.agencies > 0 || c.routes > 0 || c.stops > 0 || c.trips > 0;
    let no_shapes = c.shapes == 0 && !c.demand_responsive_only;
    let no_feed_info = c.feed_info_rows == 0;
    if !has_content {
        MissingFiles::Neither
    } else if no_shapes && no_feed_info {
        MissingFiles::Both
    } else if no_shapes {
        MissingFiles::Shapes
    } else if no_feed_info {
        MissingFiles::FeedInfo
    } else {
        MissingFiles::Neither
    }
}

/// The feed-level data quality verdicts for the given counts.
pub open spec fn spec_feed_quality(c: FeedCounts) -> FeedQualityFindings {
    FeedQualityFindings {
        single_stop: c.stops == 1,
        too_few_trips: c.trips > 0 && c.trips < 3,
        no_stop_times: c.stop_time_rows == 0 && c.trips > 0,
        agencies_unassigned: c.agencies > 5 && c.routes_with_agency == 0,
        mostly_shapeless: c.trips > 0 && 5 * c.shapeless_trips > 4 * c.trips,
        mostly_without_coordinates: c.stops > 0 && 2 * c.stops_without_coordinates > c.stops,
        no_trip_has_stop_times: c.trips > 0 && c.trips_without_stop_times == c.trips,
        null_island_stops: c.stops_near_null_island > 0,
        agency_id_recommended: c.agencies <= 1,
        missing_files: spec_missing_files(c),
    }
}

/// DQ_005b/c/6/9/11/12/13/17, RTS_025 and ARC_020 for a feed.
pub fn feed_quality(c: FeedCounts) -> (r: FeedQualityFindings)
    ensures
        r == spec_feed_quality(c),
{
    let has_content = c.agencies > 0 || c.routes > 0 || c.stops > 0 || c.trips > 0;
    let no_shapes = c.shapes == 0 && !c.demand_responsive_only;
    let no_feed_info = c.feed_info_rows == 0;
    let missing_files = if !has_content {
        MissingFiles::Neither
    } else if no_shapes && no_feed_info {
        MissingFiles::Both
    } else if no_shapes {
        MissingFiles::Shapes
    } else if no_feed_info {
        MissingFiles::FeedInfo
    } else {
        MissingFiles::Neither
    };
    FeedQualityFindings {
        single_stop: c.stops == 1,
        too_few_trips: c.trips > 0 && c.trips < 3,
        no_stop_times: c.stop_time_rows == 0 && c.trips > 0,
        agencies_unassigned: c.agencies > 5 && c.routes_with_agency == 0,
        mostly_shapeless: c.trips > 0 && 5 * (c.shapeless_trips as u128) > 4 * (c.trips as u128),
        mostly_without_coordinates: c.stops > 0 && 2 * (c.stops_without_coordinates as u128) > c.stops as u128,
        no_trip_has_stop_times: c.trips > 0 && c.trips_without_stop_times == c.trips,
        null_island_stops: c.stops_near_null_island > 0,
        agency_id_recommended: c.agencies <= 1,
        missing_files,
    }
}

/// The feed's services do not run: OPR_016 (no service has an active day) and
/// DQ_005 (no service runs today or later; without a reference day, there is
/// no service at all).
#[derive(Debug, Clone, Copy)]
pub struct FeedActivity {
    pub no_active_day: bool,
    pub nothing_current: bool,
}

/// Some service has a date on or after `today`.
pub open spec fn any_date_from(services: Seq<Seq<u32>>, today: u32) -> bool {
    exists|s: int, k: int| 0 <= s < services.len() && 0 <= k < services[s].len() && #[trigger] services[s][k] >= today
}

/// Some service has a date.
pub open spec fn any_date(services: Seq<Seq<u32>>) -> bool {
    exists|s: int| 0 <= s < services.len() && #[trigger] services[s].len() > 0
}

/// The activity verdicts for a feed with `trips` trips whose services have
/// the given active dates (YYYYMMDD), on `today` (0 when unknown).
pub open spec fn spec_feed_activity(services: Seq<Seq<u32>>, trips: u64, today: u32) -> FeedActivity {
    FeedActivity {
        no_active_day: trips > 0 && !any_date(services),
        nothing_current: trips > 0 && !(if today > 0 { any_date_from(services, today) } else { services.len() > 0 }),
    }
}

/// OPR_016 and DQ_005 for a feed.
pub fn feed_activity(services: &Vec<Vec<u32>>, trips: u64, today: u32) -> (r: FeedActivity)
    ensures
        r == spec_feed_activity(services.deep_view(), trips, today),
{
    let ghost dv = services.deep_view();
    let mut has_date = false;
    let mut has_current = false;
    let mut s: usize = 0;
    while s < services.len()
        invariant
            s <= services.len(),
            dv == services.deep_view(),
            has_date == exists|a: int| 0 <= a < s && #[trigger] dv[a].len() > 0,
            has_current == exists|a: int, k: int| 0 <= a < s && 0 <= k < dv[a].len() && #[trigger] dv[a][k] >= today,
        decreases services.len() - s,
    {
        let dates = &services[s];
        assert(dates@ == dv[s as int]);
        if dates.len() > 0 {
            has_date = true;
        }
        let mut here = false;
        let mut k: usize = 0;
        while k < dates.len()
            invariant
                k <= dates.len(),
                here == exists|j: int| 0 <= j < k && #[trigger] dates@[j] >= today,
            decreases dates.len() - k,
        {
            if dates[k] >= today {
                here = true;
            }
            k += 1;
        }
        proof {
            assert forall|a: int, j: int| 0 <= a < s + 1 && 0 <= j < dv[a].len() && #[trigger] dv[a][j] >= today
                implies (has_current || here) by {
                if a == s {
                    assert(dates@[j] >= today);
                }
            }
            if here {
                let j = choose|j: int| 0 <= j < k && #[trigger] dates@[j] >= today;
                assert(dv[s as int][j] >= today);
            }
        }
        has_current = has_current || here;
        s += 1;
    }
    let current = if today > 0 { has_current } else { services.len() > 0 };
    FeedActivity { no_active_day: trips > 0 && !has_date, nothing_current: trips > 0 && !current }
}

} // verus!
