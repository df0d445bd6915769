use vstd::prelude::*;

verus! {

// Findings shared by several entities are reported once per key (CAL_007 /
// CAL_012 per gap, CAL_013 per expiry date), listing the entities.

/// The members of the pairs with key `k`, in input order.
pub open spec fn members_with_key(s: Seq<(u64, usize)>, k: u64) -> Seq<usize>
    decreases s.len(),
{
    if s.len() == 0 {
        Seq::empty()
    } else {
        let rest = members_with_key(s.drop_last(), k);
        if s.last().0 == k { rest.push(s.last().1) } else { rest }
    }
}

/// Some pair has key `k`.
pub open spec fn has_key(s: Seq<(u64, usize)>, k: u64) -> bool {
    exists|i: int| 0 <= i < s.len() && (#[trigger] s[i]).0 == k
}

/// The members sharing one key.
#[derive(Debug, Clone)]
pub struct KeyGroup {
    pub key: u64,
    pub members: Vec<usize>,
}

/// The keys of `s`, each once, ascending.
pub open spec fn is_key_list(keys: Seq<u64>, s: Seq<(u64, usize)>) -> bool {
    &&& forall|a: int, b: int| 0 <= a < b < keys.len() ==> keys[a] < keys[b]
    &&& forall|k: u64| keys.contains(k) <==> has_key(s, k)
}

/// The distinct keys of `pairs`, ascending.
fn distinct_keys(pairs: &[(u64, usize)]) -> (r: Vec<u64>)
    ensures
        is_key_list(r@, pairs@),
{
    let mut r: Vec<u64> = Vec::new();
    let mut i: usize = 0;
    while i < pairs.len()
        invariant
            i <= pairs.len(),
            is_key_list(r@, pairs@.take(i as int)),
        decreases pairs.len() - i,
    {
        let k = pairs[i].0;
        let ghost before = r@;
        let ghost pre = pairs@.take(i as int);
        let ghost post = pairs@.take(i + 1);
        proof {
            assert(post =~= pre.push(pairs@[i as int]));
        }
        let mut j: usize = 0;
        while j < r.len() && r[j] < k
            invariant
                j <= r@.len(),
                r@ == before,
                forall|a: int| 0 <= a < j ==> r@[a] < k,
            decreases r@.len() - j,
        {
            j += 1;
        }
        if j < r.len() && r[j] == k {
            proof {
                assert forall|x: u64| r@.contains(x) <==> has_key(post, x) by {
                    if has_key(post, x) {
                        let m = choose|m: int| 0 <= m < post.len() && (#[trigger] post[m]).0 == x;
                        if m < pre.len() {
                            assert(pre[m] == post[m]);
                        } else {
                            assert(r@[j as int] == x);
                        }
                    }
                    if r@.contains(x) {
                        assert(has_key(pre, x));
                        let m = choose|m: int| 0 <= m < pre.len() && (#[trigger] pre[m]).0 == x;
                        assert(post[m] == pre[m]);
                    }
                }
            }
        } else {
            r.insert(j, k);
            proof {
                before.insert_ensures(j as int, k);
                assert forall|a: int, b: int| 0 <= a < b < r@.len() implies r@[a] < r@[b] by {
                    if b < j {
                        assert(r@[a] == before[a] && r@[b] == before[b]);
                    } else if b == j {
                        assert(r@[a] == before[a]);
                    } else if a < j {
                        assert(r@[a] == before[a] && r@[b] == before[b - 1]);
                        assert(before[a] < k);
                    } else if a == j {
                        assert(r@[b] == before[b - 1]);
                        assert(before[j as int] > k);
                        if b - 1 > j {
                            assert(before[j as int] < before[b - 1]);
                        }
                    } else {
                        assert(r@[a] == before[a - 1] && r@[b] == before[b - 1]);
                    }
                }
                assert forall|x: u64| r@.contains(x) <==> has_key(post, x) by {
                    if has_key(post, x) {
                        let m = choose|m: int| 0 <= m < post.len() && (#[trigger] post[m]).0 == x;
                        if m < pre.len() {
                            assert(pre[m] == post[m]);
                            assert(has_key(pre, x));
                            assert(before.contains(x));
                            let q = choose|q: int| 0 <= q < before.len() && before[q] == x;
                            if q < j {
                                assert(r@[q] == x);
                            } else {
                                assert(r@[q + 1] == x);
                            }
                        } else {
                            assert(r@[j as int] == x);
                        }
                    }
                    if r@.contains(x) {
                        let q = choose|q: int| 0 <= q < r@.len() && r@[q] == x;
                        if q == j {
                            assert(post[i as int].0 == x);
                        } else {
                            if q < j {
                                assert(before[q] == x);
                            } else {
                                assert(before[q - 1] == x);
                            }
                            assert(before.contains(x));
                            assert(has_key(pre, x));
                            let m = choose|m: int| 0 <= m < pre.len() && (#[trigger] pre[m]).0 == x;
                            assert(post[m] == pre[m]);
                        }
                    }
                }
            }
        }
        i += 1;
    }
    assert(pairs@.take(pairs.len() as int) =~= pairs@);
    r
}

/// The members of the pairs with key `k`, in input order.
fn collect_members(pairs: &[(u64, usize)], k: u64) -> (r: Vec<usize>)
    ensures
        r@ == members_with_key(pairs@, k),
{
    let mut r: Vec<usize> = Vec::new();
    let mut i: usize = 0;
    while i < pairs.len()
        invariant
            i <= pairs.len(),
            r@ == members_with_key(pairs@.take(i as int), k),
        decreases pairs.len() - i,
    {
        proof {
            assert(pairs@.take(i + 1).drop_last() =~= pairs@.take(i as int));
        }
        if pairs[i].0 == k {
            r.push(pairs[i].1);
        }
        i += 1;
    }
    assert(pairs@.take(pairs.len() as int) =~= pairs@);
    r
}

/// Groups (key, member) pairs by key: one group per distinct key, in
/// ascending key order, listing the members of that key in input order.
pub fn group_by_key(pairs: &[(u64, usize)]) -> (r: Vec<KeyGroup>)
    ensures
        forall|a: int, b: int| 0 <= a < b < r@.len() ==> r@[a].key < r@[b].key,
        forall|k: u64| (exists|g: int| 0 <= g < r@.len() && (#[trigger] r@[g]).key == k) <==> has_key(pairs@, k),
        forall|g: int| 0 <= g < r@.len() ==> (#[trigger] r@[g]).members@ == members_with_key(pairs@, r@[g].key),
{
    let keys = distinct_keys(pairs);
    let mut r: Vec<KeyGroup> = Vec::new();
    let mut g: usize = 0;
    while g < keys.len()
        invariant
            g <= keys.len(),
            is_key_list(keys@, pairs@),
            r@.len() == g,
            forall|a: int| 0 <= a < g ==> (#[trigger] r@[a]).key == keys@[a],
            forall|a: int| 0 <= a < g ==> (#[trigger] r@[a]).members@ == members_with_key(pairs@, r@[a].key),
        decreases keys.len() - g,
    {
        let k = keys[g];
        let members = collect_members(pairs, k);
        r.push(KeyGroup { key: k, members });
        g += 1;
    }
    proof {
        assert forall|k: u64| (exists|a: int| 0 <= a < r@.len() && (#[trigger] r@[a]).key == k) <==> has_key(pairs@, k) by {
            if has_key(pairs@, k) {
                assert(keys@.contains(k));
                let a = choose|a: int| 0 <= a < keys@.len() && keys@[a] == k;
                assert(r@[a].key == k);
            }
            if exists|a: int| 0 <= a < r@.len() && (#[trigger] r@[a]).key == k {
                let a = choose|a: int| 0 <= a < r@.len() && (#[trigger] r@[a]).key == k;
                assert(keys@[a] == k);
                assert(keys@.contains(k));
            }
        }
    }
    r
}

/// Packs a (first, second) pair of dates into one key whose order is the
/// lexicographic order of the pairs.
pub open spec fn spec_pair_key(a: u32, b: u32) -> int {
    a * 0x1_0000_0000 + b
}

/// The key of a gap between two dates.
pub fn pair_key(a: u32, b: u32) -> (r: u64)
    ensures
        r == spec_pair_key(a, b),
{
    proof {
        assert(a * 0x1_0000_0000 + b <= u64::MAX) by (nonlinear_arith)
            requires a <= u32::MAX, b <= u32::MAX;
    }
    (a as u64) * 0x1_0000_0000 + b as u64
}

/// Pair keys identify their pairs and order them lexicographically.
pub proof fn law_pair_key_order(a1: u32, b1: u32, a2: u32, b2: u32)
    ensures
        (spec_pair_key(a1, b1) < spec_pair_key(a2, b2)) == (a1 < a2 || (a1 == a2 && b1 < b2)),
        (spec_pair_key(a1, b1) == spec_pair_key(a2, b2)) == (a1 == a2 && b1 == b2),
{
    assert(a1 < a2 ==> spec_pair_key(a1, b1) < spec_pair_key(a2, b2)) by (nonlinear_arith)
        requires b1 <= u32::MAX, b2 >= 0;
    assert(a2 < a1 ==> spec_pair_key(a2, b2) < spec_pair_key(a1, b1)) by (nonlinear_arith)
        requires b2 <= u32::MAX, b1 >= 0;
}

/// The (gap key, service) pairs of the services' gaps, service by service.
pub open spec fn spec_gap_pairs(gaps: Seq<Seq<(u32, u32)>>) -> Seq<(u64, usize)>
    decreases gaps.len(),
{
    if gaps.len() == 0 {
        Seq::empty()
    } else {
        let s = (gaps.len() - 1) as usize;
        spec_gap_pairs(gaps.drop_last()) + Seq::new(gaps.last().len(), |k: int|
            (spec_pair_key(gaps.last()[k].0, gaps.last()[k].1) as u64, s))
    }
}

/// CAL_007 / CAL_012: the gaps of every service (as `big_gaps` lists them),
/// keyed for grouping, service `s` being the `s`-th list.
pub fn gap_pairs(gaps: &Vec<Vec<(u32, u32)>>) -> (r: Vec<(u64, usize)>)
    ensures
        r@ == spec_gap_pairs(gaps.deep_view()),
{
    let ghost gv = gaps.deep_view();
    let mut r: Vec<(u64, usize)> = Vec::new();
    let mut s: usize = 0;
    while s < gaps.len()
        invariant
            s <= gaps.len(),
            gv == gaps.deep_view(),
            r@ == spec_gap_pairs(gv.take(s as int)),
        decreases gaps.len() - s,
    {
        let list = &gaps[s];
        let ghost base = r@;
        proof {
            assert(gv[s as int] == list@);
        }
        let mut k: usize = 0;
        while k < list.len()
            invariant
                k <= list.len(),
                s < gaps.len(),
                r@ == base + Seq::new(k as nat, |j: int| (spec_pair_key(list@[j].0, list@[j].1) as u64, s)),
            decreases list.len() - k,
        {
            let (a, b) = list[k];
            let key = pair_key(a, b);
            r.push((key, s));
            proof {
                assert(r@ =~= base + Seq::new((k + 1) as nat, |j: int| (spec_pair_key(list@[j].0, list@[j].1) as u64, s)));
            }
            k += 1;
        }
        proof {
            let t = gv.take(s + 1);
            assert(t.drop_last() =~= gv.take(s as int));
            assert(t.last() == list@);
        }
        s += 1;
    }
    assert(gv.take(gaps.len() as int) =~= gv);
    r
}

} // verus!
