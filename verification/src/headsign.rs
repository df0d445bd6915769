use vstd::prelude::*;
use crate::clock::push_char;
use crate::text::{chars_of, is_whitespace, lowercase, unicode_lowercase, unicode_whitespace};

verus! {

// ── Trimming ──────────────────────────────────────────────────────────────────

/// Number of whitespace characters at the start of `s`.
pub open spec fn lead_ws(s: Seq<char>) -> nat
    decreases s.len(),
{
    if s.len() == 0 {
        0
    } else if unicode_whitespace(s[0]) {
        1 + lead_ws(s.drop_first())
    } else {
        0
    }
}

/// Number of whitespace characters at the end of `s`.
pub open spec fn trail_ws(s: Seq<char>) -> nat
    decreases s.len(),
{
    if s.len() == 0 {
        0
    } else if unicode_whitespace(s.last()) {
        1 + trail_ws(s.drop_last())
    } else {
        0
    }
}

/// `s` without its leading and trailing whitespace (what `str::trim` gives).
pub open spec fn trim_ws(s: Seq<char>) -> Seq<char> {
    if lead_ws(s) == s.len() {
        Seq::empty()
    } else {
        s.subrange(lead_ws(s) as int, s.len() - trail_ws(s))
    }
}

proof fn lemma_lead(s: Seq<char>, a: int)
    requires
        0 <= a <= s.len(),
        forall|k: int| 0 <= k < a ==> unicode_whitespace(#[trigger] s[k]),
        a == s.len() || !unicode_whitespace(s[a]),
    ensures
        lead_ws(s) == a,
    decreases s.len(),
{
    if s.len() > 0 && a > 0 {
        let t = s.drop_first();
        assert forall|k: int| 0 <= k < a - 1 implies unicode_whitespace(#[trigger] t[k]) by {
            assert(t[k] == s[k + 1]);
        }
        if a < s.len() {
            assert(t[a - 1] == s[a]);
        }
        lemma_lead(t, a - 1);
    }
}

proof fn lemma_trail(s: Seq<char>, b: int)
    requires
        0 <= b <= s.len(),
        forall|k: int| b <= k < s.len() ==> unicode_whitespace(#[trigger] s[k]),
        b == 0 || !unicode_whitespace(s[b - 1]),
    ensures
        trail_ws(s) == s.len() - b,
    decreases s.len(),
{
    if s.len() > 0 && b < s.len() {
        let t = s.drop_last();
        assert(unicode_whitespace(s[s.len() - 1]));
        assert forall|k: int| b <= k < t.len() implies unicode_whitespace(#[trigger] t[k]) by {
            assert(t[k] == s[k]);
        }
        if b > 0 {
            assert(t[b - 1] == s[b - 1]);
        }
        lemma_trail(t, b);
    }
}

/// The characters of `s`, trimmed and lowercased (`s.trim().to_lowercase()`).
pub fn trimmed_lower(s: &str) -> (r: Vec<char>)
    ensures
        r@ == unicode_lowercase(trim_ws(s@)),
{
    let t = trimmed(s);
    let low = lowercase(t.as_str());
    chars_of(low.as_str())
}

/// `s` without leading and trailing whitespace (`s.trim()`).
pub fn trimmed(s: &str) -> (r: String)
    ensures
        r@ == trim_ws(s@),
{
    let cs = chars_of(s);
    let n = cs.len();
    let mut a: usize = 0;
    while a < n && is_whitespace(cs[a])
        invariant
            a <= n,
            n == cs@.len(),
            forall|k: int| 0 <= k < a ==> unicode_whitespace(#[trigger] cs@[k]),
        decreases n - a,
    {
        a += 1;
    }
    proof {
        lemma_lead(cs@, a as int);
    }
    let mut t = String::new();
    if a < n {
        let mut b: usize = n;
        while b > a + 1 && is_whitespace(cs[b - 1])
            invariant
                a < n,
                a + 1 <= b <= n,
                n == cs@.len(),
                !unicode_whitespace(cs@[a as int]),
                forall|k: int| b <= k < n ==> unicode_whitespace(#[trigger] cs@[k]),
            decreases b,
        {
            b -= 1;
        }
        proof {
            if b == a + 1 {
                assert(!unicode_whitespace(cs@[b - 1]));
            }
            lemma_trail(cs@, b as int);
        }
        let mut i: usize = a;
        while i < b
            invariant
                a <= i <= b,
                b <= n,
                n == cs@.len(),
                t@ == cs@.subrange(a as int, i as int),
            decreases b - i,
        {
            push_char(&mut t, cs[i]);
            proof {
                assert(t@ =~= cs@.subrange(a as int, i + 1));
            }
            i += 1;
        }
        assert(t@ == trim_ws(s@));
    } else {
        assert(t@ =~= trim_ws(s@));
    }
    t
}

// ── Stable ordering by key ────────────────────────────────────────────────────

/// Position `i` comes before position `j` when ordered by key, ties broken by
/// position.
pub open spec fn key_before(keys: Seq<u64>, i: usize, j: usize) -> bool {
    keys[i as int] < keys[j as int] || (keys[i as int] == keys[j as int] && i < j)
}

/// `ord` lists every position of `keys` once, ordered by key with ties in
/// position order: the order in which a stable sort by key leaves them.
pub open spec fn is_stable_order(keys: Seq<u64>, ord: Seq<usize>) -> bool {
    &&& ord.len() == keys.len()
    &&& forall|a: int| 0 <= a < ord.len() ==> #[trigger] ord[a] < keys.len()
    &&& forall|i: usize| i < keys.len() ==> #[trigger] ord.contains(i)
    &&& forall|a: int, b: int| 0 <= a < b < ord.len() ==> key_before(keys, #[trigger] ord[a], #[trigger] ord[b])
}

/// The positions of `keys` in stable-sorted order (insertion sort).
pub fn stable_order(keys: &[u64]) -> (r: Vec<usize>)
    ensures
        is_stable_order(keys@, r@),
{
    let n = keys.len();
    let mut r: Vec<usize> = Vec::new();
    let mut i: usize = 0;
    while i < n
        invariant
            i <= n,
            n == keys@.len(),
            r@.len() == i,
            forall|a: int| 0 <= a < r@.len() ==> #[trigger] r@[a] < i,
            forall|x: usize| x < i ==> #[trigger] r@.contains(x),
            forall|a: int, b: int| 0 <= a < b < r@.len() ==> key_before(keys@, #[trigger] r@[a], #[trigger] r@[b]),
        decreases n - i,
    {
        let mut j: usize = 0;
        while j < r.len() && keys[r[j]] <= keys[i]
            invariant
                j <= r@.len(),
                i < n,
                n == keys@.len(),
                forall|a: int| 0 <= a < r@.len() ==> #[trigger] r@[a] < i,
                forall|k: int| 0 <= k < j ==> keys@[#[trigger] r@[k] as int] <= keys@[i as int],
            decreases r@.len() - j,
        {
            j += 1;
        }
        let ghost old_r = r@;
        r.insert(j, i);
        proof {
            old_r.insert_ensures(j as int, i);
            let nr = r@;
            assert forall|a: int| 0 <= a < nr.len() implies #[trigger] nr[a] < i + 1 by {
                if a < j {
                    assert(nr[a] == old_r[a]);
                } else if a > j {
                    assert(nr[a] == old_r[a - 1]);
                }
            }
            assert forall|x: usize| x < i + 1 implies #[trigger] nr.contains(x) by {
                if x == i {
                    assert(nr[j as int] == i);
                } else {
                    assert(old_r.contains(x));
                    let k = choose|k: int| 0 <= k < old_r.len() && old_r[k] == x;
                    if k < j {
                        assert(nr[k] == x);
                    } else {
                        assert(nr[k + 1] == x);
                    }
                }
            }
            assert forall|a: int, b: int| 0 <= a < b < nr.len() implies key_before(keys@, #[trigger] nr[a], #[trigger] nr[b]) by {
                if b < j {
                    assert(nr[a] == old_r[a] && nr[b] == old_r[b]);
                } else if b == j {
                    assert(nr[a] == old_r[a]);
                    assert(keys@[old_r[a] as int] <= keys@[i as int]);
                } else if a < j {
                    assert(nr[a] == old_r[a] && nr[b] == old_r[b - 1]);
                } else if a == j {
                    assert(nr[b] == old_r[b - 1]);
                    assert(j < old_r.len());
                    assert(keys@[old_r[j as int] as int] > keys@[i as int]);
                    if b - 1 > j {
                        assert(key_before(keys@, old_r[j as int], old_r[b - 1]));
                    }
                } else {
                    assert(nr[a] == old_r[a - 1] && nr[b] == old_r[b - 1]);
                }
            }
        }
        i += 1;
    }
    r
}

// ── TRP_020: headsign naming an intermediate stop ────────────────────────────

/// One stop_times row of a trip, as TRP_020 reads it.
#[derive(Debug, Clone)]
pub struct TripStop {
    /// `stop_sequence`, when given.
    pub sequence: Option<u32>,
    /// Index of the row's stop_id (every stop_id, the empty one included, has one).
    pub stop: usize,
    /// Index, in the same numbering, of the stop's station: its parent_station
    /// when it has one, otherwise the stop itself.
    pub station: usize,
    /// The stop's stop_name in stops.txt, when it has one.
    pub name: Option<String>,
}

/// Sequence number, 0 when missing (the order in which the terminal is sought).
pub open spec fn seq_or_zero(t: TripStop) -> u32 {
    match t.sequence {
        Some(x) => x,
        None => 0,
    }
}

/// Sequence number, the largest `u32` when missing (the order in which the
/// first stop is sought).
pub open spec fn seq_or_max(t: TripStop) -> u32 {
    match t.sequence {
        Some(x) => x,
        None => u32::MAX,
    }
}

/// The terminal: the last row with the largest `seq_or_zero`.
pub open spec fn last_max_index(s: Seq<TripStop>) -> int
    decreases s.len(),
{
    if s.len() <= 1 {
        0
    } else {
        let p = last_max_index(s.drop_last());
        if seq_or_zero(s.last()) >= seq_or_zero(s[p]) { s.len() - 1 } else { p }
    }
}

/// The first stop: the first row with the smallest `seq_or_max`.
pub open spec fn first_min_index(s: Seq<TripStop>) -> int
    decreases s.len(),
{
    if s.len() <= 1 {
        0
    } else {
        let p = first_min_index(s.drop_last());
        if seq_or_max(s.last()) < seq_or_max(s[p]) { s.len() - 1 } else { p }
    }
}

/// The stop's trimmed, lowercased name.
pub open spec fn name_key(t: TripStop) -> Option<Seq<char>> {
    match t.name {
        Some(n) => Some(unicode_lowercase(trim_ws(n@))),
        None => None,
    }
}

/// The rows' `seq_or_zero` keys.
pub open spec fn zero_keys(s: Seq<TripStop>) -> Seq<u64> {
    Seq::new(s.len(), |i: int| seq_or_zero(s[i]) as u64)
}

/// The rows' stations in the order `ord`.
pub open spec fn stations_in(s: Seq<TripStop>, ord: Seq<usize>) -> Seq<usize> {
    Seq::new(ord.len(), |k: int| s[ord[k] as int].station)
}

/// Number of separate visits to station `x`: maximal runs of consecutive
/// entries equal to `x`.
pub open spec fn visits(st: Seq<usize>, x: usize) -> nat
    decreases st.len(),
{
    if st.len() == 0 {
        0
    } else {
        let t = st.drop_last();
        visits(t, x) + if st.last() == x && (t.len() == 0 || t.last() != x) { 1nat } else { 0nat }
    }
}

/// TRP_020 for a trip with the given headsign and rows, `ord` being the rows
/// in stable order of `seq_or_zero`: the trimmed headsign is not empty, the
/// trip has two rows or more and does not end at the station where it starts,
/// its terminal's name is not the headsign, and some other stop, whose station
/// the trip visits only once, bears the headsign as its name (names and
/// headsign compared trimmed and lowercased).
pub open spec fn spec_headsign_names_intermediate(headsign: Option<Seq<char>>, s: Seq<TripStop>, ord: Seq<usize>) -> bool {
    match headsign {
        None => false,
        Some(h) => {
            let t = last_max_index(s);
            let f = first_min_index(s);
            let hl = unicode_lowercase(trim_ws(h));
            &&& trim_ws(h).len() > 0
            &&& s.len() >= 2
            &&& s[f].station != s[t].station
            &&& name_key(s[t]) != Some(hl)
            &&& exists|i: int| 0 <= i < s.len() && (#[trigger] s[i]).stop != s[t].stop && name_key(s[i]) == Some(hl)
                && visits(stations_in(s, ord), s[i].station) <= 1
        },
    }
}

/// Whether the name of a row's stop, trimmed and lowercased, is `hl`.
fn name_is(t: &TripStop, hl: &Vec<char>) -> (r: bool)
    ensures
        r == (name_key(*t) == Some(hl@)),
{
    match &t.name {
        Some(n) => {
            let k = trimmed_lower(n.as_str());
            crate::quality::same_chars(&k, hl)
        },
        None => false,
    }
}

/// Number of separate visits to station `x` when the rows are taken in order `ord`.
fn count_visits(s: &[TripStop], ord: &Vec<usize>, x: usize) -> (r: u64)
    requires
        forall|k: int| 0 <= k < ord@.len() ==> #[trigger] ord@[k] < s@.len(),
    ensures
        r == visits(stations_in(s@, ord@), x),
{
    let ghost st = stations_in(s@, ord@);
    let mut c: u64 = 0;
    let mut k: usize = 0;
    while k < ord.len()
        invariant
            k <= ord@.len(),
            st == stations_in(s@, ord@),
            forall|j: int| 0 <= j < ord@.len() ==> #[trigger] ord@[j] < s@.len(),
            c == visits(st.take(k as int), x),
            c <= k,
        decreases ord@.len() - k,
    {
        proof {
            assert(st.take(k + 1).drop_last() =~= st.take(k as int));
        }
        let here = s[ord[k]].station;
        if here == x && (k == 0 || s[ord[k - 1]].station != x) {
            c = c + 1;
        }
        k += 1;
    }
    assert(st.take(ord@.len() as int) =~= st);
    c
}

/// TRP_020 for one trip: does its headsign name an intermediate stop rather
/// than the terminal?
pub fn headsign_names_intermediate(headsign: Option<&str>, stops: &[TripStop]) -> (r: bool)
    ensures
        exists|ord: Seq<usize>|
            is_stable_order(zero_keys(stops@), ord) && r == spec_headsign_names_intermediate(
                match headsign { Some(h) => Some(h@), None => None },
                stops@,
                ord,
            ),
{
    let n = stops.len();
    let mut keys: Vec<u64> = Vec::new();
    let mut i: usize = 0;
    while i < n
        invariant
            i <= n,
            n == stops@.len(),
            keys@ == zero_keys(stops@).take(i as int),
        decreases n - i,
    {
        let k: u64 = match stops[i].sequence {
            Some(x) => x as u64,
            None => 0,
        };
        keys.push(k);
        proof {
            assert(keys@ =~= zero_keys(stops@).take(i + 1));
        }
        i += 1;
    }
    assert(keys@ =~= zero_keys(stops@));
    let ord = stable_order(keys.as_slice());
    let ghost hv = match headsign { Some(h) => Some(h@), None => None::<Seq<char>> };
    let h = match headsign {
        Some(h) => h,
        None => {
            return false;
        },
    };
    let ht = trimmed(h);
    if ht.as_str().is_empty() || n < 2 {
        proof {
            assert(ht@.len() == 0 || n < 2);
        }
        return false;
    }
    // Terminal (last largest sequence) and first stop (first smallest).
    let mut t: usize = 0;
    let mut f: usize = 0;
    let mut j: usize = 1;
    while j < n
        invariant
            1 <= j <= n,
            n == stops@.len(),
            t == last_max_index(stops@.take(j as int)),
            f == first_min_index(stops@.take(j as int)),
            t < j,
            f < j,
        decreases n - j,
    {
        proof {
            let p = stops@.take(j + 1);
            assert(p.drop_last() =~= stops@.take(j as int));
            assert(p.last() == stops@[j as int]);
            assert(p[t as int] == stops@[t as int]);
            assert(p[f as int] == stops@[f as int]);
        }
        let zj = match stops[j].sequence {
            Some(x) => x,
            None => 0,
        };
        let zt = match stops[t].sequence {
            Some(x) => x,
            None => 0,
        };
        if zj >= zt {
            t = j;
        }
        let mj = match stops[j].sequence {
            Some(x) => x,
            None => u32::MAX,
        };
        let mf = match stops[f].sequence {
            Some(x) => x,
            None => u32::MAX,
        };
        if mj < mf {
            f = j;
        }
        j += 1;
    }
    assert(stops@.take(n as int) =~= stops@);
    if stops[f].station == stops[t].station {
        return false;
    }
    let low = lowercase(ht.as_str());
    let hl = chars_of(low.as_str());
    if name_is(&stops[t], &hl) {
        return false;
    }
    let terminal_stop = stops[t].stop;
    let mut i: usize = 0;
    while i < n
        invariant
            i <= n,
            n == stops@.len(),
            t < n,
            terminal_stop == stops@[t as int].stop,
            is_stable_order(zero_keys(stops@), ord@),
            n >= 2,
            t == last_max_index(stops@),
            f == first_min_index(stops@),
            stops@[f as int].station != stops@[t as int].station,
            hl@ == unicode_lowercase(trim_ws(h@)),
            trim_ws(h@).len() > 0,
            name_key(stops@[t as int]) != Some(hl@),
            headsign == Some(h),
            forall|k: int| 0 <= k < i ==> !((#[trigger] stops@[k]).stop != terminal_stop && name_key(stops@[k]) == Some(hl@)
                && visits(stations_in(stops@, ord@), stops@[k].station) <= 1),
        decreases n - i,
    {
        if stops[i].stop != terminal_stop && name_is(&stops[i], &hl) {
            let v = count_visits(stops, &ord, stops[i].station);
            if v <= 1 {
                proof {
                    assert(stops@[i as int].stop != stops@[t as int].stop);
                    assert(spec_headsign_names_intermediate(Some(h@), stops@, ord@));
                }
                return true;
            }
        }
        i += 1;
    }
    false
}

/// Stable sorting by key has exactly one outcome: two orders that both list
/// every position once, by key with ties in position order, are the same.
pub proof fn law_stable_order_is_unique(keys: Seq<u64>, o1: Seq<usize>, o2: Seq<usize>)
    requires
        is_stable_order(keys, o1),
        is_stable_order(keys, o2),
    ensures
        o1 == o2,
{
    lemma_stable_orders_agree_from(keys, o1, o2, 0);
}

proof fn lemma_stable_orders_agree_from(keys: Seq<u64>, o1: Seq<usize>, o2: Seq<usize>, k: int)
    requires
        is_stable_order(keys, o1),
        is_stable_order(keys, o2),
        0 <= k <= o1.len(),
        forall|a: int| 0 <= a < k ==> o1[a] == o2[a],
    ensures
        o1 == o2,
    decreases o1.len() - k,
{
    if k == o1.len() {
        assert(o1 =~= o2);
    } else {
        let x = o1[k];
        let y = o2[k];
        if x != y {
            assert(o2.contains(x));
            let q = choose|q: int| 0 <= q < o2.len() && o2[q] == x;
            assert(o1.contains(y));
            let p = choose|p: int| 0 <= p < o1.len() && o1[p] == y;
            if q < k {
                assert(o1[q] == x);
                assert(key_before(keys, o1[q], o1[k]));
            }
            if p < k {
                assert(o2[p] == y);
                assert(key_before(keys, o2[p], o2[k]));
            }
            assert(q > k && p > k);
            assert(key_before(keys, o2[k], o2[q]));
            assert(key_before(keys, o1[k], o1[p]));
        }
        lemma_stable_orders_agree_from(keys, o1, o2, k + 1);
    }
}

// ── PDW_006: overlapping pickup/drop-off windows ─────────────────────────────

/// The windows (start, end, line) of zone `z`, in row order.
pub open spec fn zone_windows(w: Seq<(usize, u64, u64, u64)>, z: usize) -> Seq<(u64, u64, u64)>
    decreases w.len(),
{
    if w.len() == 0 {
        Seq::empty()
    } else {
        let rest = zone_windows(w.drop_last(), z);
        if w.last().0 == z { rest.push((w.last().1, w.last().2, w.last().3)) } else { rest }
    }
}

/// The windows' start times.
pub open spec fn window_starts(w: Seq<(u64, u64, u64)>) -> Seq<u64> {
    Seq::new(w.len(), |i: int| w[i].0)
}

/// In order `ord`, the `k`-th window starts before the previous one ends.
pub open spec fn overlaps_previous(w: Seq<(u64, u64, u64)>, ord: Seq<usize>, k: int) -> bool {
    1 <= k < ord.len() && w[ord[k] as int].0 < w[ord[k - 1] as int].1
}

/// PDW_006 for one zone's windows taken in order `ord`: the line of the first
/// window that starts before the previous one ends.
pub open spec fn first_overlap(w: Seq<(u64, u64, u64)>, ord: Seq<usize>, r: Option<u64>) -> bool {
    match r {
        Some(line) => exists|k: int| #[trigger] overlaps_previous(w, ord, k)
            && (forall|j: int| 0 <= j < k ==> !overlaps_previous(w, ord, j)) && line == w[ord[k] as int].2,
        None => forall|k: int| !#[trigger] overlaps_previous(w, ord, k),
    }
}

/// PDW_006 verdict `r` for zone `z`: what the first overlap is once the
/// zone's windows are stably sorted by start.
pub open spec fn zone_verdict(windows: Seq<(usize, u64, u64, u64)>, z: usize, r: Option<u64>) -> bool {
    exists|ord: Seq<usize>|
        #[trigger] is_stable_order(window_starts(zone_windows(windows, z)), ord)
        && first_overlap(zone_windows(windows, z), ord, r)
}

/// The windows of zone `z`.
fn windows_of_zone(windows: &[(usize, u64, u64, u64)], z: usize) -> (r: Vec<(u64, u64, u64)>)
    ensures
        r@ == zone_windows(windows@, z),
{
    let mut r: Vec<(u64, u64, u64)> = Vec::new();
    let mut i: usize = 0;
    while i < windows.len()
        invariant
            i <= windows.len(),
            r@ == zone_windows(windows@.take(i as int), z),
        decreases windows.len() - i,
    {
        proof {
            assert(windows@.take(i + 1).drop_last() =~= windows@.take(i as int));
        }
        let (zone, start, end, line) = windows[i];
        if zone == z {
            r.push((start, end, line));
        }
        i += 1;
    }
    assert(windows@.take(windows.len() as int) =~= windows@);
    r
}

/// PDW_006 for one trip, given for each of its flexible rows the zone index
/// (location_id, else location_group_id), the pickup/drop-off window start
/// and end in seconds, and the row's line: for every zone, after a stable sort
/// of its windows by start, the line of the first window that starts before
/// the previous one ends.
pub fn overlapping_windows(windows: &[(usize, u64, u64, u64)], n_zones: usize) -> (r: Vec<Option<u64>>)
    ensures
        r@.len() == n_zones,
        forall|z: int| 0 <= z < n_zones ==> zone_verdict(windows@, z as usize, #[trigger] r@[z]),
{
    let mut r: Vec<Option<u64>> = Vec::new();
    let mut z: usize = 0;
    while z < n_zones
        invariant
            z <= n_zones,
            r@.len() == z,
            forall|y: int| 0 <= y < z ==> zone_verdict(windows@, y as usize, #[trigger] r@[y]),
        decreases n_zones - z,
    {
        let w = windows_of_zone(windows, z);
        let mut starts: Vec<u64> = Vec::new();
        let mut i: usize = 0;
        while i < w.len()
            invariant
                i <= w.len(),
                starts@ == window_starts(w@).take(i as int),
            decreases w.len() - i,
        {
            starts.push(w[i].0);
            proof {
                assert(starts@ =~= window_starts(w@).take(i + 1));
            }
            i += 1;
        }
        assert(starts@ =~= window_starts(w@));
        let ord = stable_order(starts.as_slice());
        let mut found: Option<u64> = None;
        let mut k: usize = 1;
        while k < ord.len() && found.is_none()
            invariant
                1 <= k,
                k <= ord.len() || ord.len() == 0,
                is_stable_order(window_starts(w@), ord@),
                found is None ==> forall|j: int| 0 <= j < k ==> !overlaps_previous(w@, ord@, j),
                found is Some ==> first_overlap(w@, ord@, found),
            decreases ord.len() - k, if found is None { 1int } else { 0int },
        {
            if w[ord[k]].0 < w[ord[k - 1]].1 {
                found = Some(w[ord[k]].2);
                proof {
                    assert(overlaps_previous(w@, ord@, k as int));
                }
            } else {
                k += 1;
            }
        }
        proof {
            if found is None {
                assert forall|j: int| !#[trigger] overlaps_previous(w@, ord@, j) by {
                    if 0 <= j < k {
                    }
                }
            }
            assert(first_overlap(w@, ord@, found));
        }
        let ghost prev = r@;
        r.push(found);
        proof {
            assert(zone_verdict(windows@, z, found));
            assert forall|y: int| 0 <= y < z + 1 implies zone_verdict(windows@, y as usize, #[trigger] r@[y]) by {
                if y < z {
                    assert(r@[y] == prev[y]);
                } else {
                    assert(r@[y] == found);
                }
            }
        }
        z += 1;
    }
    r
}

} // verus!
