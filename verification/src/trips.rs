use vstd::prelude::*;
use crate::headway::{distinct_sorted, strictly_increasing};

verus! {

// Trips, blocks, routes and directions are referred to here by dense indices
// (`0..n`), one index per distinct identifier of the feed.

/// Number of times `x` occurs in `s`.
pub open spec fn count_in<T>(s: Seq<T>, x: T) -> nat
    decreases s.len(),
{
    if s.len() == 0 {
        0
    } else {
        count_in(s.drop_last(), x) + if s.last() == x { 1nat } else { 0nat }
    }
}

/// Every group index in `s` is below `n`.
pub open spec fn groups_below(s: Seq<Option<usize>>, n: usize) -> bool {
    forall|i: int| 0 <= i < s.len() && (#[trigger] s[i]) is Some ==> s[i]->0 < n
}

/// How many members each of the groups `0..n` has (`None` belongs to no
/// group); TRP_013 reports a route with exactly one trip.
pub fn group_sizes(groups: &[Option<usize>], n: usize) -> (r: Vec<usize>)
    requires
        groups_below(groups@, n),
    ensures
        r@.len() == n,
        forall|g: int| 0 <= g < n ==> r@[g] == count_in(groups@, Some(g as usize)),
{
    let mut r: Vec<usize> = Vec::new();
    let mut k: usize = 0;
    while k < n
        invariant
            k <= n,
            r@.len() == k,
            forall|g: int| 0 <= g < k ==> r@[g] == 0,
        decreases n - k,
    {
        r.push(0);
        k += 1;
    }
    let mut i: usize = 0;
    while i < groups.len()
        invariant
            i <= groups.len(),
            groups_below(groups@, n),
            r@.len() == n,
            forall|g: int| 0 <= g < n ==> r@[g] == count_in(groups@.take(i as int), Some(g as usize)),
            forall|g: int| 0 <= g < n ==> r@[g] <= i,
        decreases groups.len() - i,
    {
        proof {
            assert(groups@.take(i + 1).drop_last() =~= groups@.take(i as int));
        }
        match groups[i] {
            Some(g) => {
                let c = r[g];
                r.set(g, c + 1);
            },
            None => {},
        }
        i += 1;
    }
    assert(groups@.take(groups.len() as int) =~= groups@);
    r
}

/// TRP_015: the trip's block holds no other trip.
pub open spec fn spec_alone_in_block(blocks: Seq<Option<usize>>, i: int) -> bool {
    match blocks[i] {
        Some(b) => count_in(blocks, Some(b)) == 1,
        None => false,
    }
}

/// TRP_015 for every trip, given the block index of each trip (`None` when the
/// trip has no block_id).
pub fn alone_in_block(blocks: &[Option<usize>], n_blocks: usize) -> (r: Vec<bool>)
    requires
        groups_below(blocks@, n_blocks),
    ensures
        r@.len() == blocks@.len(),
        forall|i: int| 0 <= i < blocks@.len() ==> r@[i] == spec_alone_in_block(blocks@, i),
{
    let sizes = group_sizes(blocks, n_blocks);
    let mut r: Vec<bool> = Vec::new();
    let mut i: usize = 0;
    while i < blocks.len()
        invariant
            i <= blocks.len(),
            groups_below(blocks@, n_blocks),
            sizes@.len() == n_blocks,
            forall|g: int| 0 <= g < n_blocks ==> sizes@[g] == count_in(blocks@, Some(g as usize)),
            r@.len() == i,
            forall|j: int| 0 <= j < i ==> r@[j] == spec_alone_in_block(blocks@, j),
        decreases blocks.len() - i,
    {
        let alone = match blocks[i] {
            Some(b) => sizes[b] == 1,
            None => false,
        };
        r.push(alone);
        i += 1;
    }
    r
}

/// Each member's group index is below `n`.
pub open spec fn tagged_below(s: Seq<(Option<usize>, Option<u32>)>, n: usize) -> bool {
    forall|i: int| 0 <= i < s.len() && (#[trigger] s[i]).0 is Some ==> s[i].0->0 < n
}

/// The value carried by the first member of group `g` that carries one.
pub open spec fn first_value(s: Seq<(Option<usize>, Option<u32>)>, g: usize) -> Option<u32>
    decreases s.len(),
{
    if s.len() == 0 {
        None
    } else {
        let p = first_value(s.drop_last(), g);
        if p is Some {
            p
        } else if s.last().0 == Some(g) && s.last().1 is Some {
            s.last().1
        } else {
            None
        }
    }
}

/// Member `j` belongs to group `g` and carries a value.
pub open spec fn carries(s: Seq<(Option<usize>, Option<u32>)>, g: usize, j: int) -> bool {
    s[j].0 == Some(g) && s[j].1 is Some
}

/// Some member of group `g` carries a value other than the first one.
pub open spec fn has_other_value(s: Seq<(Option<usize>, Option<u32>)>, g: usize) -> bool {
    exists|j: int| 0 <= j < s.len() && #[trigger] carries(s, g, j) && s[j].1 != first_value(s, g)
}

/// When no member of group `g` carries a value, there is no first value; when
/// there is one, some member carries it.
pub proof fn lemma_first_value(s: Seq<(Option<usize>, Option<u32>)>, g: usize)
    ensures
        first_value(s, g) is None <==> forall|j: int| 0 <= j < s.len() ==> !#[trigger] carries(s, g, j),
        first_value(s, g) is Some ==> exists|j: int| 0 <= j < s.len() && #[trigger] carries(s, g, j)
            && s[j].1 == first_value(s, g),
    decreases s.len(),
{
    if s.len() > 0 {
        let t = s.drop_last();
        lemma_first_value(t, g);
        assert forall|j: int| 0 <= j < t.len() implies carries(t, g, j) == carries(s, g, j) by {}
        if first_value(t, g) is Some {
            let j = choose|j: int| 0 <= j < t.len() && #[trigger] carries(t, g, j) && t[j].1 == first_value(t, g);
            assert(carries(s, g, j));
        } else if carries(s, g, s.len() - 1) {
        } else {
            assert forall|j: int| 0 <= j < s.len() implies !#[trigger] carries(s, g, j) by {
                if j < t.len() {
                    assert(!carries(t, g, j));
                }
            }
        }
    }
}

/// The group value table after the members of `s` seen so far, one entry per group.
pub open spec fn first_values_of(s: Seq<(Option<usize>, Option<u32>)>, table: Seq<Option<u32>>, n: usize) -> bool {
    table.len() == n && forall|g: int| 0 <= g < n ==> table[g] == first_value(s, g as usize)
}

/// A vector of `n` copies of `None`.
fn nones(n: usize) -> (r: Vec<Option<u32>>)
    ensures
        r@.len() == n,
        forall|g: int| 0 <= g < n ==> r@[g] is None,
{
    let mut r: Vec<Option<u32>> = Vec::new();
    let mut k: usize = 0;
    while k < n
        invariant
            k <= n,
            r@.len() == k,
            forall|g: int| 0 <= g < k ==> r@[g] is None,
        decreases n - k,
    {
        r.push(None);
        k += 1;
    }
    r
}

/// TRP_024: the trip's route type differs from that of the first trip of its
/// block that has one; the result is that first route type.
pub open spec fn spec_block_type_conflict(s: Seq<(Option<usize>, Option<u32>)>, i: int) -> Option<u32> {
    if carries(s, s[i].0->0, i) {
        let f = first_value(s.take(i), s[i].0->0);
        if f is Some && f != s[i].1 { f } else { None }
    } else {
        None
    }
}

/// TRP_024 for every trip, given for each trip its block index and its route
/// type (`None` when the trip has no block_id or its route no route_type).
pub fn block_type_conflicts(trips: &[(Option<usize>, Option<u32>)], n_blocks: usize) -> (r: Vec<Option<u32>>)
    requires
        tagged_below(trips@, n_blocks),
    ensures
        r@.len() == trips@.len(),
        forall|i: int| 0 <= i < trips@.len() ==> r@[i] == spec_block_type_conflict(trips@, i),
{
    let mut first = nones(n_blocks);
    let mut r: Vec<Option<u32>> = Vec::new();
    let mut i: usize = 0;
    while i < trips.len()
        invariant
            i <= trips.len(),
            tagged_below(trips@, n_blocks),
            first_values_of(trips@.take(i as int), first@, n_blocks),
            r@.len() == i,
            forall|j: int| 0 <= j < i ==> r@[j] == spec_block_type_conflict(trips@, j),
        decreases trips.len() - i,
    {
        proof {
            assert(trips@.take(i + 1).drop_last() =~= trips@.take(i as int));
        }
        let (block, value) = trips[i];
        let mut out: Option<u32> = None;
        match (block, value) {
            (Some(b), Some(v)) => {
                match first[b] {
                    Some(f) => {
                        if f != v {
                            out = Some(f);
                        }
                    },
                    None => {
                        first.set(b, Some(v));
                    },
                }
            },
            _ => {},
        }
        r.push(out);
        i += 1;
    }
    r
}

/// Adding one member to `s` changes the first value and the "other value"
/// verdict of group `g` only as the member dictates.
pub proof fn lemma_push_member(s: Seq<(Option<usize>, Option<u32>)>, x: (Option<usize>, Option<u32>), g: usize)
    ensures
        first_value(s.push(x), g) == if first_value(s, g) is Some {
            first_value(s, g)
        } else if x.0 == Some(g) && x.1 is Some {
            x.1
        } else {
            None
        },
        has_other_value(s.push(x), g) == (has_other_value(s, g) || (first_value(s, g) is Some && x.0 == Some(g)
            && x.1 is Some && x.1 != first_value(s, g))),
{
    let t = s.push(x);
    assert(t.drop_last() =~= s);
    lemma_first_value(s, g);
    assert forall|j: int| 0 <= j < s.len() implies carries(t, g, j) == carries(s, g, j) by {}
    if has_other_value(s, g) {
        let j = choose|j: int| 0 <= j < s.len() && #[trigger] carries(s, g, j) && s[j].1 != first_value(s, g);
        assert(carries(t, g, j));
    }
    if first_value(s, g) is Some && x.0 == Some(g) && x.1 is Some && x.1 != first_value(s, g) {
        assert(carries(t, g, s.len() as int));
    }
    if has_other_value(t, g) {
        let j = choose|j: int| 0 <= j < t.len() && #[trigger] carries(t, g, j) && t[j].1 != first_value(t, g);
        if j < s.len() {
            assert(carries(s, g, j));
        }
    }
}

/// OPR_013: every member of group `g` that carries a value carries the same
/// one; the result is that value (`None` when no member carries one).
pub open spec fn spec_sole_value(s: Seq<(Option<usize>, Option<u32>)>, g: usize) -> Option<u32> {
    if has_other_value(s, g) { None } else { first_value(s, g) }
}

/// OPR_013 for every route, given for each trip its route index (`None` when
/// the trip's route_id is empty) and its direction_id.
pub fn sole_values(members: &[(Option<usize>, Option<u32>)], n_groups: usize) -> (r: Vec<Option<u32>>)
    requires
        tagged_below(members@, n_groups),
    ensures
        r@.len() == n_groups,
        forall|g: int| 0 <= g < n_groups ==> r@[g] == spec_sole_value(members@, g as usize),
{
    let (first, mixed) = first_and_mixed(members, n_groups);
    let mut r: Vec<Option<u32>> = Vec::new();
    let mut g: usize = 0;
    while g < n_groups
        invariant
            g <= n_groups,
            first_values_of(members@, first@, n_groups),
            mixed@.len() == n_groups,
            forall|h: int| 0 <= h < n_groups ==> mixed@[h] == has_other_value(members@, h as usize),
            r@.len() == g,
            forall|h: int| 0 <= h < g ==> r@[h] == spec_sole_value(members@, h as usize),
        decreases n_groups - g,
    {
        if mixed[g] {
            r.push(None);
        } else {
            r.push(first[g]);
        }
        g += 1;
    }
    r
}

/// For every group, its first value and whether another value occurs.
fn first_and_mixed(members: &[(Option<usize>, Option<u32>)], n_groups: usize) -> (r: (Vec<Option<u32>>, Vec<bool>))
    requires
        tagged_below(members@, n_groups),
    ensures
        first_values_of(members@, r.0@, n_groups),
        r.1@.len() == n_groups,
        forall|h: int| 0 <= h < n_groups ==> r.1@[h] == has_other_value(members@, h as usize),
{
    let mut first = nones(n_groups);
    let mut mixed: Vec<bool> = Vec::new();
    let mut k: usize = 0;
    while k < n_groups
        invariant
            k <= n_groups,
            mixed@.len() == k,
            forall|g: int| 0 <= g < k ==> !mixed@[g],
        decreases n_groups - k,
    {
        mixed.push(false);
        k += 1;
    }
    let mut i: usize = 0;
    while i < members.len()
        invariant
            i <= members.len(),
            tagged_below(members@, n_groups),
            first_values_of(members@.take(i as int), first@, n_groups),
            mixed@.len() == n_groups,
            forall|g: int| 0 <= g < n_groups ==> mixed@[g] == has_other_value(members@.take(i as int), g as usize),
        decreases members.len() - i,
    {
        let ghost before = members@.take(i as int);
        let ghost x = members@[i as int];
        proof {
            assert(members@.take(i + 1) =~= before.push(x));
        }
        let (group, value) = members[i];
        match (group, value) {
            (Some(g), Some(v)) => {
                match first[g] {
                    Some(f) => {
                        if f != v {
                            mixed.set(g, true);
                        }
                    },
                    None => {
                        first.set(g, Some(v));
                    },
                }
            },
            _ => {},
        }
        proof {
            assert forall|g: int| 0 <= g < n_groups implies first@[g] == first_value(before.push(x), g as usize)
                && mixed@[g] == has_other_value(before.push(x), g as usize) by {
                lemma_push_member(before, x, g as usize);
            }
        }
        i += 1;
    }
    assert(members@.take(members.len() as int) =~= members@);
    (first, mixed)
}

/// The values carried by the members of group `g`.
pub open spec fn value_set(s: Seq<(Option<usize>, Option<u32>)>, g: usize) -> Set<u32> {
    Set::new(|v: u32| exists|j: int| 0 <= j < s.len() && #[trigger] carries(s, g, j) && s[j].1 == Some(v))
}

/// TRP_033: for every block, the distinct route types of its trips in
/// ascending order (a block is mixed when it has more than one).
pub fn block_route_types(trips: &[(Option<usize>, Option<u32>)], n_blocks: usize) -> (r: Vec<Vec<u32>>)
    requires
        tagged_below(trips@, n_blocks),
    ensures
        r@.len() == n_blocks,
        forall|g: int| 0 <= g < n_blocks ==> strictly_increasing((#[trigger] r@[g])@),
        forall|g: int, v: u32| 0 <= g < n_blocks ==> (#[trigger] r@[g]@.contains(v) <==> value_set(trips@, g as usize).contains(v)),
{
    let mut raw: Vec<Vec<u32>> = Vec::new();
    let mut k: usize = 0;
    while k < n_blocks
        invariant
            k <= n_blocks,
            raw@.len() == k,
            forall|g: int| 0 <= g < k ==> (#[trigger] raw@[g])@.len() == 0,
        decreases n_blocks - k,
    {
        raw.push(Vec::new());
        k += 1;
    }
    let mut i: usize = 0;
    while i < trips.len()
        invariant
            i <= trips.len(),
            tagged_below(trips@, n_blocks),
            raw@.len() == n_blocks,
            forall|g: int, v: u32| 0 <= g < n_blocks ==> (#[trigger] raw@[g]@.contains(v)
                <==> value_set(trips@.take(i as int), g as usize).contains(v)),
        decreases trips.len() - i,
    {
        let ghost before = trips@.take(i as int);
        let ghost old_raw = raw@;
        proof {
            assert(trips@.take(i + 1) =~= before.push(trips@[i as int]));
        }
        let (block, value) = trips[i];
        match (block, value) {
            (Some(b), Some(v)) => {
                raw[b].push(v);
            },
            _ => {},
        }
        proof {
            let now = trips@.take(i + 1);
            assert forall|g: int, v: u32| 0 <= g < n_blocks implies (#[trigger] raw@[g]@.contains(v)
                <==> value_set(now, g as usize).contains(v)) by {
                assert forall|j: int| 0 <= j < before.len() implies carries(now, g as usize, j) == carries(before, g as usize, j)
                    && now[j] == before[j] by {}
                if raw@[g]@.contains(v) {
                    if old_raw[g]@.contains(v) {
                        let j = choose|j: int| 0 <= j < before.len() && #[trigger] carries(before, g as usize, j) && before[j].1 == Some(v);
                        assert(carries(now, g as usize, j));
                    } else {
                        assert(block == Some(g as usize) && value == Some(v)) by {
                            let k = choose|k: int| 0 <= k < raw@[g]@.len() && raw@[g]@[k] == v;
                            if !(block == Some(g as usize) && value is Some) {
                                assert(raw@[g]@ == old_raw[g]@);
                            } else {
                                assert(raw@[g]@ == old_raw[g]@.push(value->0));
                                if k < old_raw[g]@.len() {
                                    assert(old_raw[g]@[k] == v);
                                }
                            }
                        }
                        assert(carries(now, g as usize, i as int));
                    }
                }
                if value_set(now, g as usize).contains(v) {
                    let j = choose|j: int| 0 <= j < now.len() && #[trigger] carries(now, g as usize, j) && now[j].1 == Some(v);
                    if j < before.len() {
                        assert(carries(before, g as usize, j));
                        assert(value_set(before, g as usize).contains(v));
                        assert(old_raw[g]@.contains(v));
                        let k = choose|k: int| 0 <= k < old_raw[g]@.len() && old_raw[g]@[k] == v;
                        if block == Some(g as usize) && value is Some {
                            assert(raw@[g]@ == old_raw[g]@.push(value->0));
                            assert(raw@[g]@[k] == v);
                        }
                    } else {
                        assert(raw@[g]@ == old_raw[g]@.push(v));
                        assert(raw@[g]@[old_raw[g]@.len() as int] == v);
                    }
                }
            }
        }
        i += 1;
    }
    assert(trips@.take(trips.len() as int) =~= trips@);
    let mut r: Vec<Vec<u32>> = Vec::new();
    let mut g: usize = 0;
    while g < n_blocks
        invariant
            g <= n_blocks,
            raw@.len() == n_blocks,
            forall|h: int, v: u32| g <= h < n_blocks ==> (#[trigger] raw@[h]@.contains(v)
                <==> value_set(trips@, h as usize).contains(v)),
            r@.len() == g,
            forall|h: int| 0 <= h < g ==> strictly_increasing((#[trigger] r@[h])@),
            forall|h: int, v: u32| 0 <= h < g ==> (#[trigger] r@[h]@.contains(v) <==> value_set(trips@, h as usize).contains(v)),
        decreases n_blocks - g,
    {
        let mut taken: Vec<u32> = Vec::new();
        std::mem::swap(&mut taken, &mut raw[g]);
        let sorted = distinct_sorted(taken);
        r.push(sorted);
        g += 1;
    }
    r
}

/// TRP_033 for a block with distinct route types `d` (ascending): reported
/// with the types joined by ", " when there are two or more.
pub open spec fn spec_mixed_mode(d: Seq<u32>) -> Option<Seq<char>> {
    if d.len() >= 2 {
        Some(crate::report::spec_join_numbers(d, d.len() as int, seq![',', ' ']))
    } else {
        None
    }
}

/// `out` is the TRP_033 verdict on block `g`: for the ascending list `d` of
/// the route types its trips carry, the joined list when there are two or
/// more, none otherwise.
pub open spec fn reports_mixed_mode(trips: Seq<(Option<usize>, Option<u32>)>, g: usize, out: Option<String>) -> bool {
    exists|d: Seq<u32>| #[trigger] strictly_increasing(d)
        && (forall|v: u32| d.contains(v) <==> value_set(trips, g).contains(v))
        && match out {
            Some(t) => spec_mixed_mode(d) == Some(t@),
            None => spec_mixed_mode(d) is None,
        }
}

/// TRP_033 for every block: the observed value (its route types, ascending,
/// joined by ", ") of each block whose trips carry two or more route types,
/// `None` for the others.
pub fn mixed_mode_blocks(trips: &[(Option<usize>, Option<u32>)], n_blocks: usize) -> (r: Vec<Option<String>>)
    requires
        tagged_below(trips@, n_blocks),
    ensures
        r@.len() == n_blocks,
        forall|g: int| 0 <= g < n_blocks ==> #[trigger] reports_mixed_mode(trips@, g as usize, r@[g]),
{
    let types = block_route_types(trips, n_blocks);
    let mut r: Vec<Option<String>> = Vec::new();
    let mut g: usize = 0;
    while g < n_blocks
        invariant
            g <= n_blocks,
            types@.len() == n_blocks,
            forall|h: int| 0 <= h < n_blocks ==> strictly_increasing((#[trigger] types@[h])@),
            forall|h: int, v: u32| 0 <= h < n_blocks ==> (#[trigger] types@[h]@.contains(v) <==> value_set(trips@, h as usize).contains(v)),
            r@.len() == g,
            forall|h: int| 0 <= h < g ==> match #[trigger] r@[h] {
                Some(t) => spec_mixed_mode(types@[h]@) == Some(t@),
                None => spec_mixed_mode(types@[h]@) is None,
            },
        decreases n_blocks - g,
    {
        let t = &types[g];
        if t.len() >= 2 {
            let list = crate::report::join_numbers(t.as_slice(), t.len(), ", ");
            proof {
                reveal_strlit(", ");
                assert(", "@ =~= seq![',', ' ']);
            }
            r.push(Some(list));
        } else {
            r.push(None);
        }
        g += 1;
    }
    proof {
        assert forall|g: int| 0 <= g < n_blocks implies #[trigger] reports_mixed_mode(trips@, g as usize, r@[g]) by {
            let d = types@[g]@;
            assert(strictly_increasing(d));
            assert forall|v: u32| d.contains(v) <==> value_set(trips@, g as usize).contains(v) by {
                assert(types@[g]@.contains(v) <==> value_set(trips@, g as usize).contains(v));
            }
        }
    }
    r
}

/// Group `g` has a member.
pub open spec fn has_member(s: Seq<(usize, bool)>, g: usize) -> bool {
    exists|j: int| 0 <= j < s.len() && #[trigger] s[j].0 == g
}

/// Group `g` has a member whose flag is set.
pub open spec fn has_flagged(s: Seq<(usize, bool)>, g: usize) -> bool {
    exists|j: int| 0 <= j < s.len() && #[trigger] s[j].0 == g && s[j].1
}

/// A group with members none of which is flagged.
pub open spec fn spec_none_flagged(s: Seq<(usize, bool)>, g: usize) -> bool {
    has_member(s, g) && !has_flagged(s, g)
}

/// For every group `0..n`: it has members and none of them is flagged.
/// RTS_016 (a route none of whose trips has an active service day) and RTS_017
/// (a route none of whose trips has a shape) for every route index.
pub fn groups_none_flagged(members: &[(usize, bool)], n: usize) -> (r: Vec<bool>)
    requires
        forall|j: int| 0 <= j < members@.len() ==> (#[trigger] members@[j]).0 < n,
    ensures
        r@.len() == n,
        forall|g: int| 0 <= g < n ==> r@[g] == spec_none_flagged(members@, g as usize),
{
    let mut seen: Vec<bool> = Vec::new();
    let mut flagged: Vec<bool> = Vec::new();
    let mut k: usize = 0;
    while k < n
        invariant
            k <= n,
            seen@.len() == k,
            flagged@.len() == k,
            forall|g: int| 0 <= g < k ==> !seen@[g] && !flagged@[g],
        decreases n - k,
    {
        seen.push(false);
        flagged.push(false);
        k += 1;
    }
    let mut i: usize = 0;
    while i < members.len()
        invariant
            i <= members.len(),
            forall|j: int| 0 <= j < members@.len() ==> (#[trigger] members@[j]).0 < n,
            seen@.len() == n,
            flagged@.len() == n,
            forall|g: int| 0 <= g < n ==> seen@[g] == has_member(members@.take(i as int), g as usize),
            forall|g: int| 0 <= g < n ==> flagged@[g] == has_flagged(members@.take(i as int), g as usize),
        decreases members.len() - i,
    {
        let ghost before = members@.take(i as int);
        let ghost now = members@.take(i + 1);
        let (g, f) = members[i];
        seen.set(g, true);
        if f {
            flagged.set(g, true);
        }
        proof {
            assert forall|h: int| 0 <= h < n implies seen@[h] == has_member(now, h as usize)
                && flagged@[h] == has_flagged(now, h as usize) by {
                assert forall|j: int| 0 <= j < before.len() implies now[j] == before[j] by {}
                if has_member(now, h as usize) && h != g {
                    let j = choose|j: int| 0 <= j < now.len() && #[trigger] now[j].0 == h as usize;
                    assert(before[j].0 == h);
                }
                if has_flagged(now, h as usize) && !(h == g && f) {
                    let j = choose|j: int| 0 <= j < now.len() && #[trigger] now[j].0 == h as usize && now[j].1;
                    assert(before[j].0 == h);
                }
                if has_member(before, h as usize) {
                    let j = choose|j: int| 0 <= j < before.len() && #[trigger] before[j].0 == h as usize;
                    assert(now[j].0 == h);
                }
                if has_flagged(before, h as usize) {
                    let j = choose|j: int| 0 <= j < before.len() && #[trigger] before[j].0 == h as usize && before[j].1;
                    assert(now[j].0 == h);
                }
                if h == g {
                    assert(now[i as int].0 == h);
                }
            }
        }
        i += 1;
    }
    assert(members@.take(members.len() as int) =~= members@);
    let mut r: Vec<bool> = Vec::new();
    let mut g: usize = 0;
    while g < n
        invariant
            g <= n,
            seen@.len() == n,
            flagged@.len() == n,
            forall|h: int| 0 <= h < n ==> seen@[h] == has_member(members@, h as usize),
            forall|h: int| 0 <= h < n ==> flagged@[h] == has_flagged(members@, h as usize),
            r@.len() == g,
            forall|h: int| 0 <= h < g ==> r@[h] == spec_none_flagged(members@, h as usize),
        decreases n - g,
    {
        r.push(seen[g] && !flagged[g]);
        g += 1;
    }
    r
}

/// OPR_010: some member of group `g` carries `a` and some carries `b`.
pub open spec fn spec_carries_both(s: Seq<(Option<usize>, Option<u32>)>, g: usize, a: u32, b: u32) -> bool {
    value_set(s, g).contains(a) && value_set(s, g).contains(b)
}

/// OPR_010 for every route: some trips say 1 and others 2, for
/// wheelchair_accessible or for bikes_allowed (`a = 1`, `b = 2`). Each trip
/// gives its route index (`None` when the route_id is empty) and its value.
pub fn groups_carrying_both(members: &[(Option<usize>, Option<u32>)], n: usize, a: u32, b: u32) -> (r: Vec<bool>)
    requires
        tagged_below(members@, n),
    ensures
        r@.len() == n,
        forall|g: int| 0 <= g < n ==> r@[g] == spec_carries_both(members@, g as usize, a, b),
{
    let mut has_a: Vec<bool> = Vec::new();
    let mut has_b: Vec<bool> = Vec::new();
    let mut k: usize = 0;
    while k < n
        invariant
            k <= n,
            has_a@.len() == k,
            has_b@.len() == k,
            forall|g: int| 0 <= g < k ==> !has_a@[g] && !has_b@[g],
        decreases n - k,
    {
        has_a.push(false);
        has_b.push(false);
        k += 1;
    }
    let mut i: usize = 0;
    while i < members.len()
        invariant
            i <= members.len(),
            tagged_below(members@, n),
            has_a@.len() == n,
            has_b@.len() == n,
            forall|g: int| 0 <= g < n ==> has_a@[g] == value_set(members@.take(i as int), g as usize).contains(a),
            forall|g: int| 0 <= g < n ==> has_b@[g] == value_set(members@.take(i as int), g as usize).contains(b),
        decreases members.len() - i,
    {
        let ghost before = members@.take(i as int);
        let ghost now = members@.take(i + 1);
        let (group, value) = members[i];
        match (group, value) {
            (Some(g), Some(v)) => {
                if v == a {
                    has_a.set(g, true);
                }
                if v == b {
                    has_b.set(g, true);
                }
            },
            _ => {},
        }
        proof {
            assert forall|h: int, c: u32| 0 <= h < n implies
                #[trigger] value_set(now, h as usize).contains(c) == (value_set(before, h as usize).contains(c)
                    || (group == Some(h as usize) && value == Some(c))) by {
                assert forall|j: int| 0 <= j < before.len() implies carries(now, h as usize, j) == carries(before, h as usize, j)
                    && now[j] == before[j] by {}
                if value_set(now, h as usize).contains(c) {
                    let j = choose|j: int| 0 <= j < now.len() && #[trigger] carries(now, h as usize, j) && now[j].1 == Some(c);
                    if j < before.len() {
                        assert(carries(before, h as usize, j));
                    }
                }
                if value_set(before, h as usize).contains(c) {
                    let j = choose|j: int| 0 <= j < before.len() && #[trigger] carries(before, h as usize, j) && before[j].1 == Some(c);
                    assert(carries(now, h as usize, j));
                }
                if group == Some(h as usize) && value == Some(c) {
                    assert(carries(now, h as usize, i as int));
                }
            }
        }
        i += 1;
    }
    assert(members@.take(members.len() as int) =~= members@);
    let mut r: Vec<bool> = Vec::new();
    let mut g: usize = 0;
    while g < n
        invariant
            g <= n,
            has_a@.len() == n,
            has_b@.len() == n,
            forall|h: int| 0 <= h < n ==> has_a@[h] == value_set(members@, h as usize).contains(a),
            forall|h: int| 0 <= h < n ==> has_b@[h] == value_set(members@, h as usize).contains(b),
            r@.len() == g,
            forall|h: int| 0 <= h < g ==> r@[h] == spec_carries_both(members@, h as usize, a, b),
        decreases n - g,
    {
        r.push(has_a[g] && has_b[g]);
        g += 1;
    }
    r
}

/// DQ_021: the identifiers that occur more than once, each listed once, in
/// the order in which they occur for the second time (`None`, an empty
/// identifier, is never listed).
pub open spec fn spec_repeated_ids(s: Seq<Option<usize>>) -> Seq<usize>
    decreases s.len(),
{
    if s.len() == 0 {
        Seq::empty()
    } else {
        let p = spec_repeated_ids(s.drop_last());
        if s.last() is Some && count_in(s, s.last()) == 2 {
            p.push(s.last()->0)
        } else {
            p
        }
    }
}

/// DQ_021 over the identifiers of one file (stops, routes or trips), given as
/// indices, `None` for an empty identifier.
pub fn repeated_ids(ids: &[Option<usize>], n: usize) -> (r: Vec<usize>)
    requires
        groups_below(ids@, n),
    ensures
        r@ == spec_repeated_ids(ids@),
{
    let mut counts: Vec<usize> = Vec::new();
    let mut k: usize = 0;
    while k < n
        invariant
            k <= n,
            counts@.len() == k,
            forall|g: int| 0 <= g < k ==> counts@[g] == 0,
        decreases n - k,
    {
        counts.push(0);
        k += 1;
    }
    let mut r: Vec<usize> = Vec::new();
    let mut i: usize = 0;
    while i < ids.len()
        invariant
            i <= ids.len(),
            groups_below(ids@, n),
            counts@.len() == n,
            forall|g: int| 0 <= g < n ==> counts@[g] == count_in(ids@.take(i as int), Some(g as usize)),
            forall|g: int| 0 <= g < n ==> counts@[g] <= i,
            r@ == spec_repeated_ids(ids@.take(i as int)),
        decreases ids.len() - i,
    {
        proof {
            assert(ids@.take(i + 1).drop_last() =~= ids@.take(i as int));
        }
        match ids[i] {
            Some(x) => {
                let c = counts[x] + 1;
                counts.set(x, c);
                if c == 2 {
                    r.push(x);
                }
            },
            None => {},
        }
        i += 1;
    }
    assert(ids@.take(ids.len() as int) =~= ids@);
    r
}

/// An identifier is listed by DQ_021 exactly when it occurs at least twice,
/// and no identifier is listed twice.
pub proof fn law_repeated_ids_listed_once(s: Seq<Option<usize>>)
    ensures
        forall|x: usize| spec_repeated_ids(s).contains(x) <==> count_in(s, Some(x)) >= 2,
        forall|a: int, b: int| 0 <= a < b < spec_repeated_ids(s).len() ==> spec_repeated_ids(s)[a] != spec_repeated_ids(s)[b],
    decreases s.len(),
{
    if s.len() > 0 {
        let t = s.drop_last();
        law_repeated_ids_listed_once(t);
        let p = spec_repeated_ids(t);
        assert forall|x: usize| spec_repeated_ids(s).contains(x) <==> count_in(s, Some(x)) >= 2 by {
            if s.last() is Some && count_in(s, s.last()) == 2 {
                if x == s.last()->0 {
                    assert(spec_repeated_ids(s)[p.len() as int] == x);
                } else {
                    if spec_repeated_ids(s).contains(x) {
                        let k = choose|k: int| 0 <= k < spec_repeated_ids(s).len() && spec_repeated_ids(s)[k] == x;
                        assert(p[k] == x);
                    }
                    if p.contains(x) {
                        let k = choose|k: int| 0 <= k < p.len() && p[k] == x;
                        assert(spec_repeated_ids(s)[k] == x);
                    }
                }
            }
        }
        if s.last() is Some && count_in(s, s.last()) == 2 {
            let x = s.last()->0;
            assert(!p.contains(x));
            assert forall|a: int, b: int| 0 <= a < b < spec_repeated_ids(s).len() implies spec_repeated_ids(s)[a] != spec_repeated_ids(s)[b] by {
                if b == p.len() {
                    assert(p[a] == spec_repeated_ids(s)[a]);
                }
            }
        }
    }
}

/// The trips of `s` as (route, direction) members of their routes.
pub open spec fn as_route_members(s: Seq<(usize, Option<u32>, u64)>) -> Seq<(Option<usize>, Option<u32>)> {
    Seq::new(s.len(), |j: int| (Some(s[j].0), s[j].1))
}

/// Number of trips of route `g` without a direction_id.
pub open spec fn missing_count(s: Seq<(usize, Option<u32>, u64)>, g: usize) -> nat
    decreases s.len(),
{
    if s.len() == 0 {
        0
    } else {
        missing_count(s.drop_last(), g) + if s.last().0 == g && s.last().1 is None { 1nat } else { 0nat }
    }
}

/// Smallest line of a trip of route `g` without a direction_id (meaningful
/// when there is one).
pub open spec fn missing_first_line(s: Seq<(usize, Option<u32>, u64)>, g: usize) -> u64
    decreases s.len(),
{
    if s.len() == 0 {
        0
    } else {
        let p = missing_first_line(s.drop_last(), g);
        if s.last().0 == g && s.last().1 is None {
            if missing_count(s.drop_last(), g) == 0 || s.last().2 < p { s.last().2 } else { p }
        } else {
            p
        }
    }
}

/// TRP_012: the route runs in both directions but some of its trips have no
/// direction_id; the result is their number and the smallest of their lines.
pub open spec fn spec_missing_directions(s: Seq<(usize, Option<u32>, u64)>, g: usize) -> Option<(u64, u64)> {
    if has_other_value(as_route_members(s), g) && missing_count(s, g) > 0 {
        Some((missing_count(s, g) as u64, missing_first_line(s, g)))
    } else {
        None
    }
}

/// TRP_012 for every route, given for each trip its route index, its
/// direction_id and its line in trips.txt.
pub fn missing_directions(trips: &[(usize, Option<u32>, u64)], n_routes: usize) -> (r: Vec<Option<(u64, u64)>>)
    requires
        forall|j: int| 0 <= j < trips@.len() ==> (#[trigger] trips@[j]).0 < n_routes,
        trips@.len() < u64::MAX,
    ensures
        r@.len() == n_routes,
        forall|g: int| 0 <= g < n_routes ==> r@[g] == spec_missing_directions(trips@, g as usize),
{
    let mut members: Vec<(Option<usize>, Option<u32>)> = Vec::new();
    let mut counts: Vec<u64> = Vec::new();
    let mut lines: Vec<u64> = Vec::new();
    let mut k: usize = 0;
    while k < n_routes
        invariant
            k <= n_routes,
            counts@.len() == k,
            lines@.len() == k,
            forall|g: int| 0 <= g < k ==> counts@[g] == 0 && lines@[g] == 0,
        decreases n_routes - k,
    {
        counts.push(0);
        lines.push(0);
        k += 1;
    }
    let mut i: usize = 0;
    while i < trips.len()
        invariant
            i <= trips.len(),
            trips@.len() < u64::MAX,
            forall|j: int| 0 <= j < trips@.len() ==> (#[trigger] trips@[j]).0 < n_routes,
            members@ == as_route_members(trips@.take(i as int)),
            counts@.len() == n_routes,
            lines@.len() == n_routes,
            forall|g: int| 0 <= g < n_routes ==> counts@[g] == missing_count(trips@.take(i as int), g as usize),
            forall|g: int| 0 <= g < n_routes ==> lines@[g] == missing_first_line(trips@.take(i as int), g as usize),
            forall|g: int| 0 <= g < n_routes ==> counts@[g] <= i,
        decreases trips.len() - i,
    {
        proof {
            assert(trips@.take(i + 1).drop_last() =~= trips@.take(i as int));
        }
        let (route, dir, line) = trips[i];
        members.push((Some(route), dir));
        if dir.is_none() {
            let c = counts[route];
            if c == 0 || line < lines[route] {
                lines.set(route, line);
            }
            counts.set(route, c + 1);
        }
        proof {
            assert(members@ =~= as_route_members(trips@.take(i + 1)));
        }
        i += 1;
    }
    assert(trips@.take(trips.len() as int) =~= trips@);
    let (_first, mixed) = first_and_mixed(&members, n_routes);
    let mut r: Vec<Option<(u64, u64)>> = Vec::new();
    let mut g: usize = 0;
    while g < n_routes
        invariant
            g <= n_routes,
            members@ == as_route_members(trips@),
            counts@.len() == n_routes,
            lines@.len() == n_routes,
            forall|h: int| 0 <= h < n_routes ==> counts@[h] == missing_count(trips@, h as usize),
            forall|h: int| 0 <= h < n_routes ==> lines@[h] == missing_first_line(trips@, h as usize),
            mixed@.len() == n_routes,
            forall|h: int| 0 <= h < n_routes ==> mixed@[h] == has_other_value(members@, h as usize),
            r@.len() == g,
            forall|h: int| 0 <= h < g ==> r@[h] == spec_missing_directions(trips@, h as usize),
        decreases n_routes - g,
    {
        if mixed[g] && counts[g] > 0 {
            r.push(Some((counts[g], lines[g])));
        } else {
            r.push(None);
        }
        g += 1;
    }
    r
}

/// OPR_009: a departure at night, from 23:00 on, or before the start of the
/// service day when one is configured (`day_start_secs > 0`).
pub open spec fn is_night(dep: u32, day_start_secs: u32) -> bool {
    dep >= 82800 || (day_start_secs > 0 && dep < day_start_secs)
}

/// OPR_009: number, earliest and latest of the night departures of the trips
/// of route `g` (`None` when it has none).
pub open spec fn night_summary(s: Seq<(usize, Option<u32>)>, g: usize, day_start_secs: u32) -> Option<(nat, u32, u32)>
    decreases s.len(),
{
    if s.len() == 0 {
        None
    } else {
        let p = night_summary(s.drop_last(), g, day_start_secs);
        let (route, dep) = s.last();
        if route == g && dep is Some && is_night(dep->0, day_start_secs) {
            let d = dep->0;
            match p {
                Some((c, lo, hi)) => Some((c + 1, if d < lo { d } else { lo }, if d > hi { d } else { hi })),
                None => Some((1nat, d, d)),
            }
        } else {
            p
        }
    }
}

/// OPR_009 for every route, given for each trip its route index and the
/// departure time, in seconds, of its first stop; `day_start_hour` is the
/// configured start of the service day.
pub fn night_services(trips: &[(usize, Option<u32>)], n_routes: usize, day_start_hour: u32) -> (r: Vec<Option<(u64, u32, u32)>>)
    requires
        forall|j: int| 0 <= j < trips@.len() ==> (#[trigger] trips@[j]).0 < n_routes,
        day_start_hour * 3600 <= u32::MAX,
        trips@.len() < u64::MAX,
    ensures
        r@.len() == n_routes,
        forall|g: int| 0 <= g < n_routes ==> #[trigger] r@[g] == match night_summary(trips@, g as usize, (day_start_hour * 3600) as u32) {
            Some((c, lo, hi)) => Some((c as u64, lo, hi)),
            None => None,
        },
{
    let day_start: u32 = day_start_hour * 3600;
    let mut r: Vec<Option<(u64, u32, u32)>> = Vec::new();
    let mut k: usize = 0;
    while k < n_routes
        invariant
            k <= n_routes,
            r@.len() == k,
            forall|g: int| 0 <= g < k ==> r@[g] is None,
        decreases n_routes - k,
    {
        r.push(None);
        k += 1;
    }
    let mut i: usize = 0;
    while i < trips.len()
        invariant
            i <= trips.len(),
            trips@.len() < u64::MAX,
            forall|j: int| 0 <= j < trips@.len() ==> (#[trigger] trips@[j]).0 < n_routes,
            r@.len() == n_routes,
            forall|g: int| 0 <= g < n_routes ==> #[trigger] r@[g] == match night_summary(trips@.take(i as int), g as usize, day_start) {
                Some((c, lo, hi)) => Some((c as u64, lo, hi)),
                None => None,
            },
            forall|g: int| 0 <= g < n_routes ==> match #[trigger] night_summary(trips@.take(i as int), g as usize, day_start) {
                Some((c, lo, hi)) => c <= i,
                None => true,
            },
        decreases trips.len() - i,
    {
        proof {
            assert(trips@.take(i + 1).drop_last() =~= trips@.take(i as int));
        }
        let (route, dep) = trips[i];
        match dep {
            Some(d) => {
                if d >= 82800 || (day_start > 0 && d < day_start) {
                    let next = match r[route] {
                        Some((c, lo, hi)) => Some((c + 1, if d < lo { d } else { lo }, if d > hi { d } else { hi })),
                        None => Some((1u64, d, d)),
                    };
                    r.set(route, next);
                }
            },
            None => {},
        }
        proof {
            assert forall|g: int| 0 <= g < n_routes implies match #[trigger] night_summary(trips@.take(i + 1), g as usize, day_start) {
                Some((c, lo, hi)) => c <= i + 1,
                None => true,
            } by {
                let prev = night_summary(trips@.take(i as int), g as usize, day_start);
                assert(trips@.take(i + 1).drop_last() =~= trips@.take(i as int));
            }
        }
        i += 1;
    }
    assert(trips@.take(trips.len() as int) =~= trips@);
    r
}

/// OPR_014: the minimum transfer times of the timed transfers (transfer_type 2).
pub open spec fn timed_transfers(s: Seq<(Option<u32>, Option<u32>)>) -> Seq<u32>
    decreases s.len(),
{
    if s.len() == 0 {
        Seq::empty()
    } else {
        let p = timed_transfers(s.drop_last());
        if s.last().0 == Some(2u32) && s.last().1 is Some { p.push(s.last().1->0) } else { p }
    }
}

/// Sum of a sequence of durations.
pub open spec fn sum_of(s: Seq<u32>) -> nat
    decreases s.len(),
{
    if s.len() == 0 { 0 } else { sum_of(s.drop_last()) + s.last() as nat }
}

/// OPR_014: the average minimum transfer time of the timed transfers exceeds
/// ten minutes; the result is that average (rounded down) and their number.
pub open spec fn spec_long_transfers(s: Seq<(Option<u32>, Option<u32>)>) -> Option<(u64, u64)> {
    let t = timed_transfers(s);
    if t.len() > 0 && sum_of(t) / t.len() > 600 {
        Some(((sum_of(t) / t.len()) as u64, t.len() as u64))
    } else {
        None
    }
}

/// OPR_014 over the transfers, given for each its transfer_type and its
/// min_transfer_time.
pub fn long_transfers(transfers: &[(Option<u32>, Option<u32>)]) -> (r: Option<(u64, u64)>)
    requires
        transfers@.len() < 0x1_0000_0000,
    ensures
        r == spec_long_transfers(transfers@),
{
    let mut sum: u64 = 0;
    let mut count: u64 = 0;
    let mut i: usize = 0;
    while i < transfers.len()
        invariant
            i <= transfers.len(),
            transfers@.len() < 0x1_0000_0000,
            count == timed_transfers(transfers@.take(i as int)).len(),
            sum == sum_of(timed_transfers(transfers@.take(i as int))),
            count <= i,
            sum <= i * 0xffff_ffff,
        decreases transfers.len() - i,
    {
        proof {
            assert(transfers@.take(i + 1).drop_last() =~= transfers@.take(i as int));
        }
        let (kind, min_time) = transfers[i];
        if kind == Some(2u32) {
            match min_time {
                Some(m) => {
                    proof {
                        let t = timed_transfers(transfers@.take(i as int));
                        assert(t.push(m).drop_last() =~= t);
                        assert(sum + m <= (i + 1) * 0xffff_ffff) by (nonlinear_arith)
                            requires sum <= i * 0xffff_ffff, m <= 0xffff_ffff;
                    }
                    sum = sum + m as u64;
                    count = count + 1;
                },
                None => {},
            }
        }
        i += 1;
    }
    assert(transfers@.take(transfers.len() as int) =~= transfers@);
    if count > 0 && sum / count > 600 {
        Some((sum / count, count))
    } else {
        None
    }
}

/// Number of entries that hold a value.
pub open spec fn present_count(s: Seq<Option<usize>>) -> nat
    decreases s.len(),
{
    if s.len() == 0 { 0 } else { present_count(s.drop_last()) + if s.last() is Some { 1nat } else { 0nat } }
}

/// DQ_022: at least five stops are named and more than 80% of the named stops
/// share the name `x`.
pub open spec fn is_dominant_name(s: Seq<Option<usize>>, x: usize) -> bool {
    present_count(s) >= 5 && 5 * count_in(s, Some(x)) > 4 * present_count(s)
}

/// DQ_022 over the stops, given the index of each stop's name (`None` when the
/// stop has no stop_name): the dominant name and how many stops carry it.
pub fn dominant_name(names: &[Option<usize>], n: usize) -> (r: Option<(usize, u64)>)
    requires
        groups_below(names@, n),
    ensures
        match r {
            Some((x, c)) => x < n && is_dominant_name(names@, x) && c == count_in(names@, Some(x)),
            None => forall|x: usize| !#[trigger] is_dominant_name(names@, x),
        },
{
    let sizes = group_sizes(names, n);
    let mut total: u64 = 0;
    let mut i: usize = 0;
    while i < names.len()
        invariant
            i <= names.len(),
            total == present_count(names@.take(i as int)),
            total <= i,
        decreases names.len() - i,
    {
        proof {
            assert(names@.take(i + 1).drop_last() =~= names@.take(i as int));
        }
        if names[i].is_some() {
            total = total + 1;
        }
        i += 1;
    }
    assert(names@.take(names.len() as int) =~= names@);
    if total < 5 {
        return None;
    }
    let mut g: usize = 0;
    while g < n
        invariant
            g <= n,
            total == present_count(names@),
            total >= 5,
            sizes@.len() == n,
            forall|h: int| 0 <= h < n ==> sizes@[h] == count_in(names@, Some(h as usize)),
            forall|h: usize| h < g ==> !#[trigger] is_dominant_name(names@, h),
        decreases n - g,
    {
        let c = sizes[g];
        if 5 * (c as u128) > 4 * (total as u128) {
            return Some((g, c as u64));
        }
        g += 1;
    }
    proof {
        assert forall|x: usize| !#[trigger] is_dominant_name(names@, x) by {
            if x >= n {
                lemma_absent_count(names@, n, x);
            }
        }
    }
    None
}

/// A value that no entry holds occurs zero times.
pub proof fn lemma_absent_count(s: Seq<Option<usize>>, n: usize, x: usize)
    requires
        groups_below(s, n),
        x >= n,
    ensures
        count_in(s, Some(x)) == 0,
    decreases s.len(),
{
    if s.len() > 0 {
        let t = s.drop_last();
        assert forall|i: int| 0 <= i < t.len() && (#[trigger] t[i]) is Some implies t[i]->0 < n by {
            assert(t[i] == s[i]);
        }
        lemma_absent_count(t, n, x);
        assert(s[s.len() - 1] == s.last());
    }
}

/// The trip ends where it starts.
pub open spec fn is_ring(s: Seq<usize>) -> bool {
    s.len() > 0 && s[0] == s.last()
}

/// The trip leaves stop `x` for another one and later comes back to it.
pub open spec fn comes_back_to(s: Seq<usize>, x: usize) -> bool {
    exists|i: int, k: int, j: int| #![trigger s[i], s[k], s[j]] 0 <= i < k < j < s.len() && s[i] == x && s[k] != x && s[j] == x
}

/// OPR_007: the trip comes back to stop `x`, and `x` is not merely the
/// terminal of a ring trip.
pub open spec fn is_repeated_stop(s: Seq<usize>, x: usize) -> bool {
    comes_back_to(s, x) && !(is_ring(s) && x == s[0])
}

/// OPR_007 for one trip, given the indices of its stops (those with a
/// stop_id) in stop_sequence order: a stop the trip comes back to, and how
/// often the trip visits it.
pub fn repeated_stop(stops: &[usize]) -> (r: Option<(usize, u64)>)
    ensures
        match r {
            Some((x, c)) => is_repeated_stop(stops@, x) && c == count_in(stops@, x),
            None => forall|x: usize| !#[trigger] is_repeated_stop(stops@, x),
        },
{
    let n = stops.len();
    if n == 0 {
        return None;
    }
    let ring = stops[0] == stops[n - 1];
    let mut i: usize = 0;
    while i < n
        invariant
            n == stops@.len(),
            n > 0,
            i <= n,
            ring == is_ring(stops@),
            forall|a: int, k: int, j: int| #![trigger stops@[a], stops@[k], stops@[j]]
                0 <= a < i && a < k < j < n && stops@[k] != stops@[a] && stops@[j] == stops@[a]
                ==> ring && stops@[a] == stops@[0],
        decreases n - i,
    {
        let x = stops[i];
        if !(ring && x == stops[0]) {
            let mut seen_other = false;
            let mut j: usize = i + 1;
            while j < n
                invariant
                    n == stops@.len(),
                    i < n,
                    x == stops@[i as int],
                    ring == is_ring(stops@),
                    !(ring && x == stops@[0]),
                    i + 1 <= j <= n,
                    seen_other == exists|k: int| i < k < j && #[trigger] stops@[k] != x,
                    forall|k: int, j2: int| i < k < j2 < j && #[trigger] stops@[k] != x ==> #[trigger] stops@[j2] != x,
                decreases n - j,
            {
                if stops[j] != x {
                    seen_other = true;
                } else if seen_other {
                    let count = count_of(stops, x);
                    proof {
                        let k = choose|k: int| i < k < j && #[trigger] stops@[k] != x;
                        assert(stops@[i as int] == x && stops@[k] != x && stops@[j as int] == x);
                        assert(comes_back_to(stops@, x));
                    }
                    return Some((x, count));
                }
                j += 1;
            }
        }
        i += 1;
    }
    proof {
        assert forall|x: usize| !#[trigger] is_repeated_stop(stops@, x) by {
            if comes_back_to(stops@, x) {
                let (a, k, j) = choose|a: int, k: int, j: int| #![trigger stops@[a], stops@[k], stops@[j]]
                    0 <= a < k < j < stops@.len() && stops@[a] == x && stops@[k] != x && stops@[j] == x;
                assert(stops@[k] != stops@[a] && stops@[j] == stops@[a]);
            }
        }
    }
    None
}

/// How many times `x` occurs in `s`.
fn count_of(s: &[usize], x: usize) -> (c: u64)
    ensures
        c == count_in(s@, x),
{
    let mut c: u64 = 0;
    let mut i: usize = 0;
    while i < s.len()
        invariant
            i <= s.len(),
            c == count_in(s@.take(i as int), x),
            c <= i,
        decreases s.len() - i,
    {
        proof {
            assert(s@.take(i + 1).drop_last() =~= s@.take(i as int));
        }
        if s[i] == x {
            c = c + 1;
        }
        i += 1;
    }
    assert(s@.take(s.len() as int) =~= s@);
    c
}

/// Once a prefix of `s` fixes the first value of group `g`, the whole of `s`
/// has the same first value.
pub proof fn lemma_first_value_prefix(s: Seq<(Option<usize>, Option<u32>)>, j: int, g: usize)
    requires
        0 <= j <= s.len(),
        first_value(s.take(j), g) is Some,
    ensures
        first_value(s, g) == first_value(s.take(j), g),
    decreases s.len() - j,
{
    if j < s.len() {
        assert(s.take(j + 1).drop_last() =~= s.take(j));
        lemma_first_value_prefix(s, j + 1, g);
    } else {
        assert(s.take(j) =~= s);
    }
}

/// A block gets a TRP_024 finding on some trip exactly when its trips carry
/// more than one route type, that is, when TRP_033 lists more than one type
/// for it.
pub proof fn law_conflict_iff_several_types(s: Seq<(Option<usize>, Option<u32>)>, g: usize)
    ensures
        (exists|i: int| 0 <= i < s.len() && s[i].0 == Some(g) && (#[trigger] spec_block_type_conflict(s, i)) is Some)
            <==> (exists|a: u32, b: u32| a != b && #[trigger] value_set(s, g).contains(a) && #[trigger] value_set(s, g).contains(b)),
{
    if exists|i: int| 0 <= i < s.len() && s[i].0 == Some(g) && (#[trigger] spec_block_type_conflict(s, i)) is Some {
        let i = choose|i: int| 0 <= i < s.len() && s[i].0 == Some(g) && (#[trigger] spec_block_type_conflict(s, i)) is Some;
        let t = s.take(i);
        lemma_first_value(t, g);
        let f = first_value(t, g)->0;
        let j = choose|j: int| 0 <= j < t.len() && #[trigger] carries(t, g, j) && t[j].1 == first_value(t, g);
        assert(carries(s, g, j) && s[j].1 == Some(f));
        assert(carries(s, g, i));
        assert(value_set(s, g).contains(f));
        assert(value_set(s, g).contains(s[i].1->0));
    }
    if exists|a: u32, b: u32| a != b && #[trigger] value_set(s, g).contains(a) && #[trigger] value_set(s, g).contains(b) {
        let (a, b) = choose|a: u32, b: u32| a != b && #[trigger] value_set(s, g).contains(a) && #[trigger] value_set(s, g).contains(b);
        let ja = choose|j: int| 0 <= j < s.len() && #[trigger] carries(s, g, j) && s[j].1 == Some(a);
        let jb = choose|j: int| 0 <= j < s.len() && #[trigger] carries(s, g, j) && s[j].1 == Some(b);
        lemma_first_value(s, g);
        let f = first_value(s, g);
        let j = if s[ja].1 != f { ja } else { jb };
        assert(carries(s, g, j) && s[j].1 != f);
        let t = s.take(j);
        assert(s.take(j + 1).drop_last() =~= t);
        assert(s.take(j + 1).last() == s[j]);
        if first_value(t, g) is None {
            assert(first_value(s.take(j + 1), g) == s[j].1);
            lemma_first_value_prefix(s, j + 1, g);
            assert(false);
        } else {
            lemma_first_value_prefix(s, j, g);
            assert(spec_block_type_conflict(s, j) is Some);
        }
    }
}

/// OPR_013 reports value `v` for a group exactly when `v` is the only value
/// its members carry.
pub proof fn law_sole_value_is_only_value(s: Seq<(Option<usize>, Option<u32>)>, g: usize, v: u32)
    ensures
        spec_sole_value(s, g) == Some(v) <==> value_set(s, g) =~= set![v],
{
    lemma_first_value(s, g);
    if spec_sole_value(s, g) == Some(v) {
        let j = choose|j: int| 0 <= j < s.len() && #[trigger] carries(s, g, j) && s[j].1 == first_value(s, g);
        assert(value_set(s, g).contains(v));
        assert forall|w: u32| value_set(s, g).contains(w) implies w == v by {
            let k = choose|k: int| 0 <= k < s.len() && #[trigger] carries(s, g, k) && s[k].1 == Some(w);
        }
    }
    if value_set(s, g) =~= set![v] {
        assert(value_set(s, g).contains(v));
        let k = choose|k: int| 0 <= k < s.len() && #[trigger] carries(s, g, k) && s[k].1 == Some(v);
        assert(first_value(s, g) is Some);
        let j = choose|j: int| 0 <= j < s.len() && #[trigger] carries(s, g, j) && s[j].1 == first_value(s, g);
        assert(value_set(s, g).contains(first_value(s, g)->0));
        assert(!has_other_value(s, g)) by {
            if has_other_value(s, g) {
                let m = choose|m: int| 0 <= m < s.len() && #[trigger] carries(s, g, m) && s[m].1 != first_value(s, g);
                assert(value_set(s, g).contains(s[m].1->0));
            }
        }
    }
}

/// Whether each of `0..n` occurs among `ids`.
pub fn occurring(ids: &[usize], n: usize) -> (r: Vec<bool>)
    requires
        forall|k: int| 0 <= k < ids@.len() ==> #[trigger] ids@[k] < n,
    ensures
        r@.len() == n,
        forall|x: int| 0 <= x < n ==> r@[x] == ids@.contains(x as usize),
{
    let mut r: Vec<bool> = Vec::new();
    let mut k: usize = 0;
    while k < n
        invariant
            k <= n,
            r@.len() == k,
            forall|x: int| 0 <= x < k ==> !r@[x],
        decreases n - k,
    {
        r.push(false);
        k += 1;
    }
    let mut i: usize = 0;
    while i < ids.len()
        invariant
            i <= ids.len(),
            r@.len() == n,
            forall|k: int| 0 <= k < ids@.len() ==> #[trigger] ids@[k] < n,
            forall|x: int| 0 <= x < n ==> r@[x] == ids@.take(i as int).contains(x as usize),
        decreases ids.len() - i,
    {
        let ghost before = ids@.take(i as int);
        r.set(ids[i], true);
        proof {
            let now = ids@.take(i + 1);
            assert(now =~= before.push(ids@[i as int]));
            assert forall|x: int| 0 <= x < n implies r@[x] == now.contains(x as usize) by {
                if now.contains(x as usize) && x != ids@[i as int] {
                    let j = choose|j: int| 0 <= j < now.len() && now[j] == x as usize;
                    assert(before[j] == x);
                }
                if before.contains(x as usize) {
                    let j = choose|j: int| 0 <= j < before.len() && before[j] == x as usize;
                    assert(now[j] == x);
                }
                if x == ids@[i as int] {
                    assert(now[i as int] == x);
                }
            }
        }
        i += 1;
    }
    assert(ids@.take(ids.len() as int) =~= ids@);
    r
}

/// Number of trips of service `g` that do not run in the coming week.
pub open spec fn inactive_count(s: Seq<(usize, bool, u64)>, g: usize) -> nat
    decreases s.len(),
{
    if s.len() == 0 {
        0
    } else {
        inactive_count(s.drop_last(), g) + if s.last().0 == g && !s.last().1 { 1nat } else { 0nat }
    }
}

/// Line of the first trip of service `g` that does not run in the coming
/// week (meaningful when there is one).
pub open spec fn inactive_first_line(s: Seq<(usize, bool, u64)>, g: usize) -> u64
    decreases s.len(),
{
    if s.len() == 0 {
        0
    } else if inactive_count(s.drop_last(), g) > 0 {
        inactive_first_line(s.drop_last(), g)
    } else {
        s.last().2
    }
}

/// CAL_024: the number of the service's trips that do not run in the coming
/// week and the line of the first of them, when there is one.
pub open spec fn spec_inactive_service(s: Seq<(usize, bool, u64)>, g: usize) -> Option<(u64, u64)> {
    if inactive_count(s, g) > 0 { Some((inactive_count(s, g) as u64, inactive_first_line(s, g))) } else { None }
}

/// CAL_024 for every service, given for each trip (with a trip_id) its
/// service index, whether that service runs in the coming week, and the
/// trip's line in trips.txt.
pub fn inactive_services(trips: &[(usize, bool, u64)], n_services: usize) -> (r: Vec<Option<(u64, u64)>>)
    requires
        forall|j: int| 0 <= j < trips@.len() ==> (#[trigger] trips@[j]).0 < n_services,
        trips@.len() < u64::MAX,
    ensures
        r@.len() == n_services,
        forall|g: int| 0 <= g < n_services ==> r@[g] == spec_inactive_service(trips@, g as usize),
{
    let mut r: Vec<Option<(u64, u64)>> = Vec::new();
    let mut k: usize = 0;
    while k < n_services
        invariant
            k <= n_services,
            r@.len() == k,
            forall|g: int| 0 <= g < k ==> r@[g] is None,
        decreases n_services - k,
    {
        r.push(None);
        k += 1;
    }
    let mut i: usize = 0;
    while i < trips.len()
        invariant
            i <= trips.len(),
            trips@.len() < u64::MAX,
            forall|j: int| 0 <= j < trips@.len() ==> (#[trigger] trips@[j]).0 < n_services,
            r@.len() == n_services,
            forall|g: int| 0 <= g < n_services ==> r@[g] == spec_inactive_service(trips@.take(i as int), g as usize),
            forall|g: int| 0 <= g < n_services ==> #[trigger] inactive_count(trips@.take(i as int), g as usize) <= i,
        decreases trips.len() - i,
    {
        proof {
            assert(trips@.take(i + 1).drop_last() =~= trips@.take(i as int));
        }
        let (svc, active, line) = trips[i];
        if !active {
            let next = match r[svc] {
                Some((c, first)) => Some((c + 1, first)),
                None => Some((1u64, line)),
            };
            r.set(svc, next);
        }
        proof {
            assert forall|g: int| 0 <= g < n_services implies #[trigger] inactive_count(trips@.take(i + 1), g as usize) <= i + 1 by {
                let prev = inactive_count(trips@.take(i as int), g as usize);
                assert(trips@.take(i + 1).drop_last() =~= trips@.take(i as int));
            }
        }
        i += 1;
    }
    assert(trips@.take(trips.len() as int) =~= trips@);
    r
}

/// OPR_011 (and, per trip, TRP_026): the services of the trips, each once in
/// order of first use, that have no active date.
pub open spec fn spec_dateless_services(svcs: Seq<usize>, has_dates: Seq<bool>) -> Seq<usize>
    decreases svcs.len(),
{
    if svcs.len() == 0 {
        Seq::empty()
    } else {
        let rest = spec_dateless_services(svcs.drop_last(), has_dates);
        let x = svcs.last();
        if !has_dates[x as int] && !svcs.drop_last().contains(x) { rest.push(x) } else { rest }
    }
}

/// OPR_011 over the trips, given each trip's service index and, per service,
/// whether it has an active date.
pub fn dateless_services(svcs: &[usize], has_dates: &[bool]) -> (r: Vec<usize>)
    requires
        forall|j: int| 0 <= j < svcs@.len() ==> #[trigger] svcs@[j] < has_dates@.len(),
    ensures
        r@ == spec_dateless_services(svcs@, has_dates@),
{
    let n = has_dates.len();
    let mut seen: Vec<bool> = Vec::new();
    let mut k: usize = 0;
    while k < n
        invariant
            k <= n,
            n == has_dates@.len(),
            seen@.len() == k,
            forall|x: int| 0 <= x < k ==> !seen@[x],
        decreases n - k,
    {
        seen.push(false);
        k += 1;
    }
    let mut r: Vec<usize> = Vec::new();
    let mut i: usize = 0;
    while i < svcs.len()
        invariant
            i <= svcs.len(),
            n == has_dates@.len(),
            forall|j: int| 0 <= j < svcs@.len() ==> #[trigger] svcs@[j] < has_dates@.len(),
            seen@.len() == n,
            forall|x: int| 0 <= x < n ==> seen@[x] == svcs@.take(i as int).contains(x as usize),
            r@ == spec_dateless_services(svcs@.take(i as int), has_dates@),
        decreases svcs.len() - i,
    {
        let ghost pre = svcs@.take(i as int);
        let ghost post = svcs@.take(i + 1);
        proof {
            assert(post.drop_last() =~= pre);
            assert(post.last() == svcs@[i as int]);
        }
        let x = svcs[i];
        if !has_dates[x] && !seen[x] {
            r.push(x);
        }
        seen.set(x, true);
        proof {
            assert forall|y: int| 0 <= y < n implies seen@[y] == post.contains(y as usize) by {
                if post.contains(y as usize) && y != x {
                    let j = choose|j: int| 0 <= j < post.len() && post[j] == y as usize;
                    assert(pre[j] == y);
                }
                if pre.contains(y as usize) {
                    let j = choose|j: int| 0 <= j < pre.len() && pre[j] == y as usize;
                    assert(post[j] == y);
                }
                if y == x {
                    assert(post[i as int] == x);
                }
            }
        }
        i += 1;
    }
    assert(svcs@.take(svcs.len() as int) =~= svcs@);
    r
}

/// A trip's shape (`None` without one) and its stops in order, as SHP_027
/// reads them.
#[derive(Debug, Clone)]
pub struct TripPattern {
    pub shape: Option<usize>,
    pub stops: Vec<usize>,
}

/// `reps` lists, ascending, one trip per distinct stop sequence among the
/// trips of shape `g`: the first trip with that sequence.
pub open spec fn is_pattern_list(trips: Seq<TripPattern>, g: usize, reps: Seq<usize>) -> bool {
    &&& forall|a: int, b: int| 0 <= a < b < reps.len() ==> reps[a] < reps[b]
    &&& forall|a: int| 0 <= a < reps.len() ==> #[trigger] reps[a] < trips.len() && trips[reps[a] as int].shape == Some(g)
    &&& forall|a: int, b: int| 0 <= a < b < reps.len() ==> trips[reps[a] as int].stops@ != trips[reps[b] as int].stops@
    &&& forall|i: int| 0 <= i < trips.len() && (#[trigger] trips[i]).shape == Some(g) ==> exists|a: int|
        0 <= a < reps.len() && reps[a] <= i && #[trigger] trips[reps[a] as int].stops@ == trips[i].stops@
}

fn same_stops(a: &Vec<usize>, b: &Vec<usize>) -> (r: bool)
    ensures
        r == (a@ == b@),
{
    if a.len() != b.len() {
        return false;
    }
    let mut i: usize = 0;
    while i < a.len()
        invariant
            a.len() == b.len(),
            i <= a.len(),
            forall|k: int| 0 <= k < i ==> a@[k] == b@[k],
        decreases a.len() - i,
    {
        if a[i] != b[i] {
            return false;
        }
        i += 1;
    }
    assert(a@ =~= b@);
    true
}

/// The trips listed after appending `i` all have shape `h` and lie before
/// `i + 1`.
proof fn lemma_opens_members(trips: Seq<TripPattern>, i: usize, h: usize, old_reps: Seq<usize>)
    requires
        i < trips.len(),
        is_pattern_list(trips.take(i as int), h, old_reps),
        trips[i as int].shape == Some(h),
    ensures
        forall|q: int| 0 <= q < old_reps.push(i).len() ==> #[trigger] old_reps.push(i)[q] < trips.take(i + 1).len()
            && trips.take(i + 1)[old_reps.push(i)[q] as int].shape == Some(h),
{
    let pre = trips.take(i as int);
    let post = trips.take(i + 1);
    let reps = old_reps.push(i);
    assert forall|q: int| 0 <= q < reps.len() implies #[trigger] reps[q] < post.len()
        && post[reps[q] as int].shape == Some(h) by {
        if q < old_reps.len() {
            assert(reps[q] == old_reps[q]);
            assert(post[old_reps[q] as int] == pre[old_reps[q] as int]);
        } else {
            assert(q == old_reps.len());
            assert(reps[q] == i);
            assert(post[i as int] == trips[i as int]);
        }
    }
}

/// After appending `i`, whose stops differ from every listed trip's, the
/// listed trips still have pairwise different stops.
proof fn lemma_opens_distinct(trips: Seq<TripPattern>, i: usize, h: usize, old_reps: Seq<usize>)
    requires
        i < trips.len(),
        is_pattern_list(trips.take(i as int), h, old_reps),
        forall|q: int| 0 <= q < old_reps.len() ==> #[trigger] old_reps[q] < i,
        forall|q: int| 0 <= q < old_reps.len() ==> #[trigger] trips[old_reps[q] as int].stops@ != trips[i as int].stops@,
    ensures
        forall|x: int, y: int| 0 <= x < y < old_reps.push(i).len() ==>
            trips.take(i + 1)[old_reps.push(i)[x] as int].stops@ != trips.take(i + 1)[old_reps.push(i)[y] as int].stops@,
{
    let pre = trips.take(i as int);
    let post = trips.take(i + 1);
    let reps = old_reps.push(i);
    assert forall|x: int, y: int| 0 <= x < y < reps.len() implies post[reps[x] as int].stops@ != post[reps[y] as int].stops@ by {
        assert(reps[x] == old_reps[x]);
        assert(post[old_reps[x] as int] == trips[old_reps[x] as int]);
        if y == old_reps.len() {
            assert(reps[y] == i);
            assert(post[i as int] == trips[i as int]);
        } else {
            assert(reps[y] == old_reps[y]);
            assert(post[old_reps[x] as int] == pre[old_reps[x] as int]);
            assert(post[old_reps[y] as int] == pre[old_reps[y] as int]);
        }
    }
}

/// After appending `i`, every trip of shape `h` up to `i` shares its stops
/// with a listed trip no later than itself.
proof fn lemma_opens_cover(trips: Seq<TripPattern>, i: usize, h: usize, old_reps: Seq<usize>)
    requires
        i < trips.len(),
        is_pattern_list(trips.take(i as int), h, old_reps),
    ensures
        forall|j: int| 0 <= j < trips.take(i + 1).len() && (#[trigger] trips.take(i + 1)[j]).shape == Some(h) ==> exists|q: int|
            0 <= q < old_reps.push(i).len() && old_reps.push(i)[q] <= j
            && #[trigger] trips.take(i + 1)[old_reps.push(i)[q] as int].stops@ == trips.take(i + 1)[j].stops@,
{
    let pre = trips.take(i as int);
    let post = trips.take(i + 1);
    let reps = old_reps.push(i);
    assert forall|j: int| 0 <= j < post.len() && (#[trigger] post[j]).shape == Some(h) implies exists|q: int|
        0 <= q < reps.len() && reps[q] <= j && #[trigger] post[reps[q] as int].stops@ == post[j].stops@ by {
        if j == i {
            let q = old_reps.len() as int;
            assert(reps[q] == i);
            assert(0 <= q < reps.len() && reps[q] <= j && post[reps[q] as int].stops@ == post[j].stops@);
        } else {
            assert(pre[j] == post[j]);
            let q = choose|q: int| 0 <= q < old_reps.len() && old_reps[q] <= j
                && #[trigger] pre[old_reps[q] as int].stops@ == pre[j].stops@;
            assert(reps[q] == old_reps[q]);
            assert(post[old_reps[q] as int] == pre[old_reps[q] as int]);
            assert(0 <= q < reps.len() && reps[q] <= j && post[reps[q] as int].stops@ == post[j].stops@);
        }
    }
}

/// A trip that opens a new stop sequence of shape `h` is appended to the
/// pattern list of `h`.
proof fn lemma_pattern_opens(trips: Seq<TripPattern>, i: usize, h: usize, old_reps: Seq<usize>)
    requires
        i < trips.len(),
        is_pattern_list(trips.take(i as int), h, old_reps),
        forall|q: int| 0 <= q < old_reps.len() ==> #[trigger] old_reps[q] < i,
        trips[i as int].shape == Some(h),
        forall|q: int| 0 <= q < old_reps.len() ==> #[trigger] trips[old_reps[q] as int].stops@ != trips[i as int].stops@,
    ensures
        is_pattern_list(trips.take(i + 1), h, old_reps.push(i)),
{
    let reps = old_reps.push(i);
    lemma_opens_members(trips, i, h, old_reps);
    lemma_opens_distinct(trips, i, h, old_reps);
    lemma_opens_cover(trips, i, h, old_reps);
    assert forall|a: int, b: int| 0 <= a < b < reps.len() implies reps[a] < reps[b] by {
        assert(reps[a] == old_reps[a]);
        if b < old_reps.len() {
            assert(reps[b] == old_reps[b]);
        }
    }
}

/// A trip of another shape, or one repeating a known stop sequence of shape
/// `h`, leaves the pattern list of `h` as it is.
proof fn lemma_pattern_keeps(trips: Seq<TripPattern>, i: int, h: usize, reps: Seq<usize>)
    requires
        0 <= i < trips.len(),
        is_pattern_list(trips.take(i), h, reps),
        forall|q: int| 0 <= q < reps.len() ==> #[trigger] reps[q] < i,
        trips[i].shape != Some(h) || exists|q: int| 0 <= q < reps.len()
            && #[trigger] trips[reps[q] as int].stops@ == trips[i].stops@,
    ensures
        is_pattern_list(trips.take(i + 1), h, reps),
{
    let pre = trips.take(i);
    let post = trips.take(i + 1);
    assert(post =~= pre.push(trips[i]));
    assert forall|q: int| 0 <= q < reps.len() implies post[reps[q] as int] == pre[reps[q] as int]
        && pre[reps[q] as int] == trips[reps[q] as int] by {}
    assert forall|j: int| 0 <= j < post.len() && (#[trigger] post[j]).shape == Some(h) implies exists|q: int|
        0 <= q < reps.len() && reps[q] <= j && #[trigger] post[reps[q] as int].stops@ == post[j].stops@ by {
        if j == i {
            let q = choose|q: int| 0 <= q < reps.len() && #[trigger] trips[reps[q] as int].stops@ == trips[i].stops@;
            assert(post[reps[q] as int] == trips[reps[q] as int]);
        } else {
            assert(pre[j] == post[j]);
            let q = choose|q: int| 0 <= q < reps.len() && reps[q] <= j
                && #[trigger] pre[reps[q] as int].stops@ == pre[j].stops@;
            assert(post[reps[q] as int] == pre[reps[q] as int]);
        }
    }
}

/// SHP_027 for every shape: the trips representing its distinct stop
/// sequences (a shape with two or more is reported). Trips are given in
/// trip_id order with their shape index.
pub fn shape_patterns(trips: &[TripPattern], n_shapes: usize) -> (r: Vec<Vec<usize>>)
    requires
        forall|i: int| 0 <= i < trips@.len() && (#[trigger] trips@[i]).shape is Some ==> trips@[i].shape->0 < n_shapes,
    ensures
        r@.len() == n_shapes,
        forall|g: int| 0 <= g < n_shapes ==> is_pattern_list(trips@, g as usize, (#[trigger] r@[g])@),
{
    let mut r: Vec<Vec<usize>> = Vec::new();
    let mut k: usize = 0;
    while k < n_shapes
        invariant
            k <= n_shapes,
            r@.len() == k,
            forall|g: int| 0 <= g < k ==> (#[trigger] r@[g])@.len() == 0,
        decreases n_shapes - k,
    {
        r.push(Vec::new());
        k += 1;
    }
    let mut i: usize = 0;
    while i < trips.len()
        invariant
            i <= trips.len(),
            forall|j: int| 0 <= j < trips@.len() && (#[trigger] trips@[j]).shape is Some ==> trips@[j].shape->0 < n_shapes,
            r@.len() == n_shapes,
            forall|g: int| 0 <= g < n_shapes ==> is_pattern_list(trips@.take(i as int), g as usize, (#[trigger] r@[g])@),
            forall|g: int, a: int| 0 <= g < n_shapes && 0 <= a < r@[g]@.len() ==> #[trigger] r@[g]@[a] < i,
        decreases trips.len() - i,
    {
        let ghost pre = trips@.take(i as int);
        let ghost post = trips@.take(i + 1);
        proof {
            assert(post =~= pre.push(trips@[i as int]));
        }
        match trips[i].shape {
            Some(g) => {
                let mut found = false;
                let mut a: usize = 0;
                while a < r[g].len() && !found
                    invariant
                        g < n_shapes,
                        r@.len() == n_shapes,
                        i < trips.len(),
                        a <= r@[g as int]@.len(),
                        forall|q: int| 0 <= q < r@[g as int]@.len() ==> #[trigger] r@[g as int]@[q] < i,
                        found ==> exists|q: int| 0 <= q < r@[g as int]@.len()
                            && #[trigger] trips@[r@[g as int]@[q] as int].stops@ == trips@[i as int].stops@,
                        !found ==> forall|q: int| 0 <= q < a ==> #[trigger] trips@[r@[g as int]@[q] as int].stops@ != trips@[i as int].stops@,
                    decreases r@[g as int]@.len() - a, if found { 0int } else { 1int },
                {
                    let rep = r[g][a];
                    if same_stops(&trips[rep].stops, &trips[i].stops) {
                        found = true;
                    } else {
                        a += 1;
                    }
                }
                let ghost old_r = r@;
                if !found {
                    r[g].push(i);
                }
                proof {
                    assert forall|h: int| 0 <= h < n_shapes implies is_pattern_list(trips@.take(i + 1), h as usize, (#[trigger] r@[h])@) by {
                        if h == g && !found {
                            assert(r@[h]@ == old_r[h]@.push(i));
                            lemma_pattern_opens(trips@, i, h as usize, old_r[h]@);
                        } else {
                            assert(r@[h]@ == old_r[h]@);
                            lemma_pattern_keeps(trips@, i as int, h as usize, old_r[h]@);
                        }
                    }
                }
            },
            None => {
                proof {
                    assert forall|h: int| 0 <= h < n_shapes implies is_pattern_list(trips@.take(i + 1), h as usize, (#[trigger] r@[h])@) by {
                        lemma_pattern_keeps(trips@, i as int, h as usize, r@[h]@);
                    }
                }
            },
        }
        i += 1;
    }
    assert(trips@.take(trips.len() as int) =~= trips@);
    r
}

/// The rows of a trip that have a stop_id (`Some` stop index), with their
/// stop_sequence, in file order.
pub open spec fn named_rows(rows: Seq<(Option<usize>, Option<u32>)>) -> Seq<(usize, Option<u32>)>
    decreases rows.len(),
{
    if rows.len() == 0 {
        Seq::empty()
    } else if rows.last().0 is Some {
        named_rows(rows.drop_last()).push((rows.last().0->0, rows.last().1))
    } else {
        named_rows(rows.drop_last())
    }
}

/// OPR_007 sort keys: the stop_sequence, rows without one last.
pub open spec fn sequence_keys(named: Seq<(usize, Option<u32>)>) -> Seq<u64> {
    named.map_values(|r: (usize, Option<u32>)| match r.1 {
        Some(q) => q as u64,
        None => 0xffff_ffffu64,
    })
}

/// The stops of the named rows in the order `ord`.
pub open spec fn stops_in_order(named: Seq<(usize, Option<u32>)>, ord: Seq<usize>) -> Seq<usize> {
    ord.map_values(|i: usize| named[i as int].0)
}

/// `r` is what OPR_007 reports for the stops `s`: a stop the trip comes
/// back to with its number of visits, or nothing when there is none.
pub open spec fn reports_repeated_stop(s: Seq<usize>, r: Option<(usize, u64)>) -> bool {
    match r {
        Some((x, c)) => is_repeated_stop(s, x) && c == count_in(s, x),
        None => forall|y: usize| !#[trigger] is_repeated_stop(s, y),
    }
}

/// OPR_007 for one trip from its stop_times rows (stop index, or `None` for
/// an empty stop_id, and stop_sequence): the rows with a stop, stably sorted
/// by stop_sequence (rows without one last), are checked for a stop the
/// trip comes back to.
pub fn trip_repeated_stop(rows: &[(Option<usize>, Option<u32>)]) -> (r: Option<(usize, u64)>)
    ensures
        exists|ord: Seq<usize>| #[trigger] crate::headsign::is_stable_order(sequence_keys(named_rows(rows@)), ord)
            && reports_repeated_stop(stops_in_order(named_rows(rows@), ord), r),
{
    let mut named: Vec<(usize, Option<u32>)> = Vec::new();
    let mut i: usize = 0;
    while i < rows.len()
        invariant
            i <= rows.len(),
            named@ == named_rows(rows@.take(i as int)),
        decreases rows.len() - i,
    {
        proof {
            assert(rows@.take(i + 1).drop_last() =~= rows@.take(i as int));
            assert(rows@.take(i + 1).last() == rows@[i as int]);
        }
        let (stop, seq) = rows[i];
        match stop {
            Some(x) => {
                named.push((x, seq));
            },
            None => {},
        }
        i += 1;
    }
    proof {
        assert(rows@.take(rows@.len() as int) =~= rows@);
    }
    let mut keys: Vec<u64> = Vec::new();
    let mut k: usize = 0;
    while k < named.len()
        invariant
            k <= named@.len(),
            keys@ == sequence_keys(named@).take(k as int),
        decreases named@.len() - k,
    {
        let key: u64 = match named[k].1 {
            Some(q) => q as u64,
            None => 0xffff_ffffu64,
        };
        keys.push(key);
        proof {
            assert(keys@ =~= sequence_keys(named@).take(k + 1));
        }
        k += 1;
    }
    proof {
        assert(keys@ =~= sequence_keys(named@));
    }
    let ord = crate::headsign::stable_order(&keys);
    let mut stops: Vec<usize> = Vec::new();
    let mut a: usize = 0;
    while a < ord.len()
        invariant
            a <= ord@.len(),
            crate::headsign::is_stable_order(keys@, ord@),
            keys@.len() == named@.len(),
            stops@ == stops_in_order(named@, ord@).take(a as int),
        decreases ord@.len() - a,
    {
        let j = ord[a];
        stops.push(named[j].0);
        proof {
            assert(stops@ =~= stops_in_order(named@, ord@).take(a + 1));
        }
        a += 1;
    }
    proof {
        assert(stops@ =~= stops_in_order(named@, ord@));
    }
    let r = repeated_stop(&stops);
    proof {
        assert(crate::headsign::is_stable_order(sequence_keys(named_rows(rows@)), ord@));
    }
    r
}

} // verus!
