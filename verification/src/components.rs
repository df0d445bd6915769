use vstd::prelude::*;
use crate::pathways::{graph_well_formed, has_edge, is_walk, reachable, reachable_from};
use crate::trips::count_in;

verus! {

// VAT_005: the stop network (stops joined by consecutive stop times of a
// trip) falls apart into connected components; small ones are isolated.
// The network is given as adjacency lists of (neighbour, edge index) pairs,
// every edge usable in both directions.

/// The adjacency lists as sequences.
pub open spec fn adjacency(g: Seq<Vec<(usize, usize)>>) -> Seq<Seq<(usize, usize)>> {
    g.map_values(|a: Vec<(usize, usize)>| a@)
}

/// No edge is restricted in the stop network.
pub open spec fn all_usable() -> Seq<bool> {
    Seq::empty()
}

/// `v` can be reached from `u` (every node reaches itself).
pub open spec fn linked(g: Seq<Seq<(usize, usize)>>, u: usize, v: usize) -> bool {
    reachable(g, all_usable(), false, seq![u], v)
}

/// Every edge has its reverse.
pub open spec fn undirected(g: Seq<Seq<(usize, usize)>>) -> bool {
    forall|u: usize, v: usize| #[trigger] has_edge(g, all_usable(), false, u, v) ==> has_edge(g, all_usable(), false, v, u)
}

/// `rep[v]` is the least node of the component of `v`.
pub open spec fn is_component_labelling(g: Seq<Seq<(usize, usize)>>, rep: Seq<usize>) -> bool {
    &&& rep.len() == g.len()
    &&& forall|v: int| 0 <= v < g.len() ==> #[trigger] rep[v] <= v && linked(g, rep[v], v as usize)
    &&& forall|v: int, u: usize| 0 <= v < g.len() && u < rep[v] ==> !#[trigger] linked(g, u, v as usize)
}

proof fn lemma_linked_refl(g: Seq<Seq<(usize, usize)>>, v: usize)
    ensures
        linked(g, v, v),
{
    let p = seq![v];
    assert(is_walk(g, all_usable(), false, p));
    assert(seq![v].contains(p[0])) by {
        assert(seq![v][0] == v);
    }
}

proof fn lemma_linked_trans(g: Seq<Seq<(usize, usize)>>, a: usize, b: usize, c: usize)
    requires
        linked(g, a, b),
        linked(g, b, c),
    ensures
        linked(g, a, c),
{
    let p = choose|p: Seq<usize>| #[trigger] is_walk(g, all_usable(), false, p) && seq![a].contains(p[0]) && p.last() == b;
    let q = choose|q: Seq<usize>| #[trigger] is_walk(g, all_usable(), false, q) && seq![b].contains(q[0]) && q.last() == c;
    assert(p[0] == a) by {
        let k = choose|k: int| 0 <= k < seq![a].len() && seq![a][k] == p[0];
    }
    assert(q[0] == b) by {
        let k = choose|k: int| 0 <= k < seq![b].len() && seq![b][k] == q[0];
    }
    let w = p + q.drop_first();
    assert(is_walk(g, all_usable(), false, w)) by {
        assert forall|i: int| 0 <= i < w.len() - 1 implies has_edge(g, all_usable(), false, #[trigger] w[i], w[i + 1]) by {
            if i < p.len() - 1 {
                assert(w[i] == p[i] && w[i + 1] == p[i + 1]);
            } else if i == p.len() - 1 {
                assert(w[i] == b);
                assert(w[i + 1] == q[1]);
                assert(has_edge(g, all_usable(), false, q[0], q[1]));
            } else {
                let j = i - p.len() + 1;
                assert(w[i] == q[j] && w[i + 1] == q[j + 1]);
                assert(has_edge(g, all_usable(), false, q[j], q[j + 1]));
            }
        }
    }
    if q.len() == 1 {
        assert(w.last() == p.last());
    } else {
        assert(w.last() == q.last());
    }
    assert(seq![a].contains(w[0])) by {
        assert(seq![a][0] == w[0]);
    }
}

proof fn lemma_linked_sym(g: Seq<Seq<(usize, usize)>>, a: usize, b: usize)
    requires
        undirected(g),
        linked(g, a, b),
    ensures
        linked(g, b, a),
{
    let p = choose|p: Seq<usize>| #[trigger] is_walk(g, all_usable(), false, p) && seq![a].contains(p[0]) && p.last() == b;
    assert(p[0] == a) by {
        let k = choose|k: int| 0 <= k < seq![a].len() && seq![a][k] == p[0];
    }
    let r = p.reverse();
    assert(is_walk(g, all_usable(), false, r)) by {
        assert forall|i: int| 0 <= i < r.len() - 1 implies has_edge(g, all_usable(), false, #[trigger] r[i], r[i + 1]) by {
            let j = p.len() - 2 - i;
            assert(r[i] == p[j + 1] && r[i + 1] == p[j]);
            assert(has_edge(g, all_usable(), false, p[j], p[j + 1]));
        }
    }
    assert(seq![b].contains(r[0])) by {
        assert(r[0] == b);
        assert(seq![b][0] == r[0]);
    }
    assert(r.last() == a);
}

/// Labels every stop with the least stop of its component: one search from
/// each stop that no earlier search reached.
pub fn stop_components(g: &Vec<Vec<(usize, usize)>>) -> (rep: Vec<usize>)
    requires
        graph_well_formed(adjacency(g@)),
        undirected(adjacency(g@)),
    ensures
        is_component_labelling(adjacency(g@), rep@),
{
    let ghost gv = adjacency(g@);
    let n = g.len();
    let mut rep: Vec<usize> = Vec::new();
    let mut k: usize = 0;
    while k < n
        invariant
            k <= n,
            rep@.len() == k,
            forall|v: int| 0 <= v < k ==> rep@[v] == n,
        decreases n - k,
    {
        rep.push(n);
        k += 1;
    }
    let no_restriction: Vec<bool> = Vec::new();
    proof {
        assert(no_restriction@ =~= all_usable());
    }
    let mut s: usize = 0;
    while s < n
        invariant
            n == g@.len(),
            gv == adjacency(g@),
            graph_well_formed(gv),
            undirected(gv),
            no_restriction@ == all_usable(),
            s <= n,
            rep@.len() == n,
            forall|v: int| 0 <= v < n ==> (#[trigger] rep@[v] == n <==> forall|u: usize| u < s ==> !#[trigger] linked(gv, u, v as usize)),
            forall|v: int| 0 <= v < n && #[trigger] rep@[v] < n ==> rep@[v] < s && linked(gv, rep@[v], v as usize),
            forall|v: int, u: usize| 0 <= v < n && rep@[v] < n && u < rep@[v] ==> !#[trigger] linked(gv, u, v as usize),
            forall|v: int| 0 <= v < n ==> #[trigger] rep@[v] <= n,
        decreases n - s,
    {
        if rep[s] == n {
            let mut src: Vec<usize> = Vec::new();
            src.push(s);
            proof {
                assert(src@ =~= seq![s]);
            }
            let found = reachable_from(g, &src, &no_restriction, false);
            let ghost old_rep = rep@;
            proof {
                assert(rep@[s as int] == n);
                assert(forall|u: usize| u < s ==> !#[trigger] linked(gv, u, (s as int) as usize));
                assert forall|u: usize| u < s implies !#[trigger] linked(gv, u, s) by {
                    assert(!linked(gv, u, (s as int) as usize));
                }
            }
            let mut v: usize = 0;
            while v < n
                invariant
                    n == g@.len(),
                    gv == adjacency(g@),
                    undirected(gv),
                    s < n,
                    v <= n,
                    found@.len() == n,
                    forall|w: usize| w < n ==> (found@[w as int] <==> linked(gv, s, w)),
                    old_rep.len() == n,
                    rep@.len() == n,
                    forall|w: int| 0 <= w < v ==> #[trigger] rep@[w] == if found@[w] { s } else { old_rep[w] },
                    forall|w: int| v <= w < n ==> #[trigger] rep@[w] == old_rep[w],
                decreases n - v,
            {
                if found[v] {
                    rep.set(v, s);
                }
                v += 1;
            }
            proof {
                assert forall|w: int| 0 <= w < n && found@[w] implies old_rep[w] == n
                    && forall|u: usize| u < s ==> !#[trigger] linked(gv, u, w as usize) by {
                    assert(linked(gv, s, w as usize));
                    lemma_linked_sym(gv, s, w as usize);
                    assert forall|u: usize| u < s implies !#[trigger] linked(gv, u, w as usize) by {
                        if linked(gv, u, w as usize) {
                            lemma_linked_trans(gv, u, w as usize, s);
                            assert(!linked(gv, u, s));
                        }
                    }
                    if old_rep[w] != n {
                        assert(old_rep[w] < n);
                        assert(linked(gv, old_rep[w], w as usize));
                    }
                }
                assert forall|w: int| 0 <= w < n implies (#[trigger] rep@[w] == n <==> forall|u: usize| u < s + 1 ==> !#[trigger] linked(gv, u, w as usize)) by {
                    if found@[w] {
                        assert(rep@[w] == s);
                        assert(linked(gv, s, w as usize));
                    } else {
                        assert(rep@[w] == old_rep[w]);
                        assert(!linked(gv, s, w as usize));
                        if forall|u: usize| u < s ==> !#[trigger] linked(gv, u, w as usize) {
                            assert forall|u: usize| u < s + 1 implies !#[trigger] linked(gv, u, w as usize) by {
                                if u == s {
                                } else {
                                }
                            }
                        }
                    }
                }
                assert forall|w: int| 0 <= w < n && #[trigger] rep@[w] < n implies rep@[w] < s + 1 && linked(gv, rep@[w], w as usize) by {
                    if found@[w] {
                        assert(rep@[w] == s);
                    } else {
                        assert(rep@[w] == old_rep[w]);
                    }
                }
                assert forall|w: int, u: usize| 0 <= w < n && rep@[w] < n && u < rep@[w] implies !#[trigger] linked(gv, u, w as usize) by {
                    if found@[w] {
                        assert(rep@[w] == s);
                    } else {
                        assert(rep@[w] == old_rep[w]);
                    }
                }
            }
        } else {
            proof {
                let u0 = rep@[s as int];
                assert(u0 < s && linked(gv, u0, s));
                assert forall|w: int| 0 <= w < n implies (#[trigger] rep@[w] == n <==> forall|u: usize| u < s + 1 ==> !#[trigger] linked(gv, u, w as usize)) by {
                    if rep@[w] == n {
                        assert(forall|u: usize| u < s ==> !#[trigger] linked(gv, u, w as usize));
                        if linked(gv, s, w as usize) {
                            lemma_linked_trans(gv, u0, s, w as usize);
                            assert(!linked(gv, u0, w as usize));
                        }
                    } else {
                        assert(rep@[w] < n);
                        assert(linked(gv, rep@[w], w as usize));
                    }
                }
            }
        }
        s += 1;
    }
    proof {
        assert forall|v: int| 0 <= v < n implies #[trigger] rep@[v] <= v && linked(gv, rep@[v], v as usize) by {
            lemma_linked_refl(gv, v as usize);
            if rep@[v] == n {
                assert(!linked(gv, v as usize, v as usize));
            }
            assert(rep@[v] < n);
            if rep@[v] > v {
                assert(!linked(gv, v as usize, v as usize));
            }
        }
    }
    rep
}

/// The size of the largest of the components labelled `0..k`.
pub open spec fn largest_size(rep: Seq<usize>, k: nat) -> nat
    decreases k,
{
    if k == 0 {
        0
    } else {
        let m = largest_size(rep, (k - 1) as nat);
        let c = count_in(rep, (k - 1) as usize);
        if c > m { c } else { m }
    }
}

/// The number of non-empty components among the labels `0..k`.
pub open spec fn component_count(rep: Seq<usize>, k: nat) -> nat
    decreases k,
{
    if k == 0 {
        0
    } else {
        component_count(rep, (k - 1) as nat) + if count_in(rep, (k - 1) as usize) > 0 { 1nat } else { 0nat }
    }
}

/// VAT_005 size test for the component labelled `u`: in a network of at
/// least five stops with more than one component, a non-empty component
/// smaller than the largest and of at most max(5% of the stops, 2) stops.
pub open spec fn is_isolated(rep: Seq<usize>, u: usize) -> bool {
    let total = rep.len();
    &&& total >= 5
    &&& component_count(rep, total) > 1
    &&& count_in(rep, u) > 0
    &&& crate::network::spec_small_component(count_in(rep, u) as u64, largest_size(rep, total) as u64, total as u64)
}

/// The labels `0..k` that pass the VAT_005 size test, ascending.
pub open spec fn isolated_labels(rep: Seq<usize>, k: nat) -> Seq<usize>
    decreases k,
{
    if k == 0 {
        Seq::empty()
    } else if is_isolated(rep, (k - 1) as usize) {
        isolated_labels(rep, (k - 1) as nat).push((k - 1) as usize)
    } else {
        isolated_labels(rep, (k - 1) as nat)
    }
}

proof fn lemma_count_bound(s: Seq<usize>, x: usize)
    ensures
        count_in(s, x) <= s.len(),
    decreases s.len(),
{
    if s.len() > 0 {
        lemma_count_bound(s.drop_last(), x);
    }
}

/// The sizes of the components labelled `0..n`.
fn component_sizes(rep: &[usize]) -> (r: Vec<usize>)
    requires
        forall|v: int| 0 <= v < rep@.len() ==> #[trigger] rep@[v] < rep@.len(),
    ensures
        r@.len() == rep@.len(),
        forall|u: int| 0 <= u < rep@.len() ==> #[trigger] r@[u] == count_in(rep@, u as usize),
{
    let n = rep.len();
    let mut r: Vec<usize> = Vec::new();
    let mut k: usize = 0;
    while k < n
        invariant
            k <= n,
            r@.len() == k,
            forall|u: int| 0 <= u < k ==> r@[u] == 0,
        decreases n - k,
    {
        r.push(0);
        k += 1;
    }
    let mut v: usize = 0;
    while v < n
        invariant
            n == rep@.len(),
            v <= n,
            r@.len() == n,
            forall|w: int| 0 <= w < n ==> #[trigger] rep@[w] < n,
            forall|u: int| 0 <= u < n ==> #[trigger] r@[u] == count_in(rep@.take(v as int), u as usize),
        decreases n - v,
    {
        let x = rep[v];
        proof {
            assert(rep@.take(v + 1).drop_last() =~= rep@.take(v as int));
            lemma_count_bound(rep@.take(v as int), x);
        }
        r.set(x, r[x] + 1);
        v += 1;
    }
    proof {
        assert(rep@.take(n as int) =~= rep@);
    }
    r
}

/// VAT_005: the labels of the components that pass the size test, given the
/// component label of every stop (as `stop_components` gives it).
pub fn isolated_components(rep: &[usize]) -> (r: Vec<usize>)
    requires
        forall|v: int| 0 <= v < rep@.len() ==> #[trigger] rep@[v] < rep@.len(),
    ensures
        r@ == isolated_labels(rep@, rep@.len()),
{
    let n = rep.len();
    let sizes = component_sizes(rep);
    let mut largest: usize = 0;
    let mut count: usize = 0;
    let mut u: usize = 0;
    while u < n
        invariant
            n == rep@.len(),
            u <= n,
            sizes@.len() == n,
            forall|x: int| 0 <= x < n ==> #[trigger] sizes@[x] == count_in(rep@, x as usize),
            largest == largest_size(rep@, u as nat),
            count == component_count(rep@, u as nat),
            count <= u,
        decreases n - u,
    {
        if sizes[u] > largest {
            largest = sizes[u];
        }
        if sizes[u] > 0 {
            count += 1;
        }
        u += 1;
    }
    let mut r: Vec<usize> = Vec::new();
    if n < 5 || count <= 1 {
        proof {
            assert forall|k: nat| k <= n implies #[trigger] isolated_labels(rep@, k) =~= Seq::<usize>::empty() by {
                lemma_none_isolated(rep@, k);
            }
        }
        return r;
    }
    let thresh: usize = if n / 20 > 2 { n / 20 } else { 2 };
    let mut u: usize = 0;
    while u < n
        invariant
            n == rep@.len(),
            n >= 5,
            u <= n,
            sizes@.len() == n,
            forall|x: int| 0 <= x < n ==> #[trigger] sizes@[x] == count_in(rep@, x as usize),
            largest == largest_size(rep@, n as nat),
            count == component_count(rep@, n as nat),
            count > 1,
            thresh == (if n / 20 > 2 { n / 20 } else { 2 }),
            r@ == isolated_labels(rep@, u as nat),
        decreases n - u,
    {
        let c = sizes[u];
        proof {
            lemma_count_bound(rep@, u);
        }
        if c > 0 && crate::network::small_component(c as u64, largest as u64, n as u64) {
            r.push(u);
        }
        u += 1;
    }
    r
}

proof fn lemma_none_isolated(rep: Seq<usize>, k: nat)
    requires
        rep.len() < 5 || component_count(rep, rep.len()) <= 1,
    ensures
        isolated_labels(rep, k) =~= Seq::<usize>::empty(),
    decreases k,
{
    if k > 0 {
        lemma_none_isolated(rep, (k - 1) as nat);
    }
}

/// Two stops carry the same component label exactly when one can be reached
/// from the other.
pub proof fn law_same_label_iff_linked(g: Seq<Seq<(usize, usize)>>, rep: Seq<usize>, u: usize, v: usize)
    requires
        undirected(g),
        is_component_labelling(g, rep),
        u < g.len(),
        v < g.len(),
    ensures
        rep[u as int] == rep[v as int] <==> linked(g, u, v),
{
    let ru = rep[u as int];
    let rv = rep[v as int];
    assert(linked(g, ru, u) && linked(g, rv, v));
    if ru == rv {
        lemma_linked_sym(g, ru, u);
        lemma_linked_trans(g, u, ru, v);
    }
    if linked(g, u, v) {
        lemma_linked_trans(g, ru, u, v);
        if ru < rv {
            assert(!linked(g, ru, v));
        }
        lemma_linked_sym(g, u, v);
        lemma_linked_trans(g, rv, v, u);
        if rv < ru {
            assert(!linked(g, rv, u));
        }
    }
}

/// Some trip stops at `u` and next at `v`, among the trips before `j` and
/// the first `i + 1` stops of trip `j`.
pub open spec fn followed_before(trips: Seq<Seq<usize>>, j: int, i: int, u: usize, v: usize) -> bool {
    exists|a: int, b: int| 0 <= a <= j && a < trips.len() && 0 <= b && b + 1 < trips[a].len()
        && (a < j || b < i) && #[trigger] trips[a][b] == u && trips[a][b + 1] == v
}

/// Some trip stops at `u` and next at `v`.
pub open spec fn followed(trips: Seq<Seq<usize>>, u: usize, v: usize) -> bool {
    exists|a: int, b: int| 0 <= a < trips.len() && 0 <= b && b + 1 < trips[a].len()
        && #[trigger] trips[a][b] == u && trips[a][b + 1] == v
}

/// The stop network of VAT_005: stops `0..n`, joined in both directions
/// wherever a trip goes from one to the next. Every edge carries index 0.
pub fn stop_network(trips: &Vec<Vec<usize>>, n: usize) -> (g: Vec<Vec<(usize, usize)>>)
    requires
        forall|a: int, b: int| 0 <= a < trips@.len() && 0 <= b < trips@[a]@.len() ==> #[trigger] trips@[a]@[b] < n,
    ensures
        g@.len() == n,
        graph_well_formed(adjacency(g@)),
        forall|u: usize, v: usize| #[trigger] has_edge(adjacency(g@), all_usable(), false, u, v) <==> u < n && (
            followed(trips@.map_values(|t: Vec<usize>| t@), u, v) || followed(trips@.map_values(|t: Vec<usize>| t@), v, u)),
{
    let ghost ts = trips@.map_values(|t: Vec<usize>| t@);
    let mut g: Vec<Vec<(usize, usize)>> = Vec::new();
    let mut k: usize = 0;
    while k < n
        invariant
            k <= n,
            g@.len() == k,
            forall|u: int| 0 <= u < k ==> g@[u]@.len() == 0,
        decreases n - k,
    {
        g.push(Vec::new());
        k += 1;
    }
    let mut j: usize = 0;
    while j < trips.len()
        invariant
            ts == trips@.map_values(|t: Vec<usize>| t@),
            forall|a: int, b: int| 0 <= a < trips@.len() && 0 <= b < trips@[a]@.len() ==> #[trigger] trips@[a]@[b] < n,
            j <= trips.len(),
            g@.len() == n,
            graph_well_formed(adjacency(g@)),
            forall|u: usize, v: usize| #[trigger] has_edge(adjacency(g@), all_usable(), false, u, v) <==> u < n && (
                followed_before(ts, j as int, 0, u, v) || followed_before(ts, j as int, 0, v, u)),
        decreases trips.len() - j,
    {
        let t = &trips[j];
        proof {
            assert(t@ == ts[j as int]);
        }
        let mut i: usize = 0;
        while i < t.len() && i + 1 < t.len()
            invariant
                ts == trips@.map_values(|t: Vec<usize>| t@),
                forall|a: int, b: int| 0 <= a < trips@.len() && 0 <= b < trips@[a]@.len() ==> #[trigger] trips@[a]@[b] < n,
                j < trips.len(),
                t@ == ts[j as int],
                i <= t.len(),
                g@.len() == n,
                graph_well_formed(adjacency(g@)),
                forall|u: usize, v: usize| #[trigger] has_edge(adjacency(g@), all_usable(), false, u, v) <==> u < n && (
                    followed_before(ts, j as int, i as int, u, v) || followed_before(ts, j as int, i as int, v, u)),
            decreases t.len() - i,
        {
            let x = t[i];
            let y = t[i + 1];
            proof {
                assert(trips@[j as int]@[i as int] == x);
                assert(trips@[j as int]@[i + 1] == y);
            }
            let ghost g0 = adjacency(g@);
            g[x].push((y, 0));
            let ghost g1 = adjacency(g@);
            g[y].push((x, 0));
            let ghost g2 = adjacency(g@);
            proof {
                assert(g1 =~= g0.update(x as int, g0[x as int].push((y, 0))));
                assert(g2 =~= g1.update(y as int, g1[y as int].push((x, 0))));
                lemma_edges_after_push(g0, g1, x, y);
                lemma_edges_after_push(g1, g2, y, x);
                assert forall|u: usize, v: usize| #[trigger] has_edge(g2, all_usable(), false, u, v) <==> u < n && (
                    followed_before(ts, j as int, i + 1, u, v) || followed_before(ts, j as int, i + 1, v, u)) by {
                    lemma_followed_step(ts, j as int, i as int, u, v);
                    lemma_followed_step(ts, j as int, i as int, v, u);
                }
                assert forall|u: int, k: int| 0 <= u < g2.len() && 0 <= k < g2[u].len() implies (#[trigger] g2[u][k]).0 < g2.len() by {
                    if u == y as int && k == g2[u].len() - 1 {
                    } else if u == x as int && (k == g1[u].len() - 1) {
                        assert(g2[u][k] == g1[u][k]);
                    } else if u == x as int && u == y as int {
                        assert(g2[u][k] == g1[u][k]);
                        assert(g1[u][k] == g0[u][k]);
                    } else if u == x as int {
                        assert(g2[u][k] == g1[u][k]);
                        assert(g1[u][k] == g0[u][k]);
                    } else if u == y as int {
                        assert(g2[u][k] == g1[u][k]);
                        assert(g1[u][k] == g0[u][k]);
                    } else {
                        assert(g2[u][k] == g0[u][k]);
                    }
                }
            }
            i += 1;
        }
        proof {
            assert forall|u: usize, v: usize| #[trigger] has_edge(adjacency(g@), all_usable(), false, u, v) <==> u < n && (
                followed_before(ts, j + 1, 0, u, v) || followed_before(ts, j + 1, 0, v, u)) by {
                lemma_followed_next_trip(ts, j as int, i as int, u, v);
                lemma_followed_next_trip(ts, j as int, i as int, v, u);
            }
        }
        j += 1;
    }
    proof {
        assert forall|u: usize, v: usize| #[trigger] has_edge(adjacency(g@), all_usable(), false, u, v) <==> u < n && (
            followed(ts, u, v) || followed(ts, v, u)) by {
            lemma_followed_all(ts, u, v);
            lemma_followed_all(ts, v, u);
        }
    }
    g
}

/// Appending the edge `x -> y` adds exactly that edge.
proof fn lemma_edges_after_push(g0: Seq<Seq<(usize, usize)>>, g1: Seq<Seq<(usize, usize)>>, x: usize, y: usize)
    requires
        x < g0.len(),
        g1 == g0.update(x as int, g0[x as int].push((y, 0))),
    ensures
        forall|u: usize, v: usize| #[trigger] has_edge(g1, all_usable(), false, u, v) <==> (
            has_edge(g0, all_usable(), false, u, v) || (u == x && v == y)),
{
    assert forall|u: usize, v: usize| #[trigger] has_edge(g1, all_usable(), false, u, v) <==> (
        has_edge(g0, all_usable(), false, u, v) || (u == x && v == y)) by {
        if u == x {
            if has_edge(g1, all_usable(), false, u, v) {
                let k = choose|k: int| 0 <= k < g1[u as int].len() && (#[trigger] g1[u as int][k]).0 == v
                    && crate::pathways::edge_ok(all_usable(), false, g1[u as int][k].1);
                if k < g0[u as int].len() {
                    assert(g0[u as int][k] == g1[u as int][k]);
                }
            }
            if has_edge(g0, all_usable(), false, u, v) {
                let k = choose|k: int| 0 <= k < g0[u as int].len() && (#[trigger] g0[u as int][k]).0 == v
                    && crate::pathways::edge_ok(all_usable(), false, g0[u as int][k].1);
                assert(g1[u as int][k] == g0[u as int][k]);
            }
            if v == y {
                assert(g1[u as int][g0[u as int].len() as int] == (y, 0usize));
            }
        } else {
            if u < g0.len() {
                assert(g1[u as int] == g0[u as int]);
            }
        }
    }
}

proof fn lemma_followed_step(ts: Seq<Seq<usize>>, j: int, i: int, u: usize, v: usize)
    requires
        0 <= j < ts.len(),
        0 <= i,
        i + 1 < ts[j].len(),
    ensures
        followed_before(ts, j, i + 1, u, v) <==> (followed_before(ts, j, i, u, v) || (ts[j][i] == u && ts[j][i + 1] == v)),
{
    if followed_before(ts, j, i + 1, u, v) {
        let (a, b) = choose|a: int, b: int| 0 <= a <= j && a < ts.len() && 0 <= b && b + 1 < ts[a].len()
            && (a < j || b < i + 1) && #[trigger] ts[a][b] == u && ts[a][b + 1] == v;
        if !(a == j && b == i) {
            assert(followed_before(ts, j, i, u, v));
        }
    }
    if followed_before(ts, j, i, u, v) {
        let (a, b) = choose|a: int, b: int| 0 <= a <= j && a < ts.len() && 0 <= b && b + 1 < ts[a].len()
            && (a < j || b < i) && #[trigger] ts[a][b] == u && ts[a][b + 1] == v;
        assert(followed_before(ts, j, i + 1, u, v));
    }
    if ts[j][i] == u && ts[j][i + 1] == v {
        assert(followed_before(ts, j, i + 1, u, v));
    }
}

proof fn lemma_followed_next_trip(ts: Seq<Seq<usize>>, j: int, i: int, u: usize, v: usize)
    requires
        0 <= j < ts.len(),
        0 <= i,
        i + 1 >= ts[j].len(),
    ensures
        followed_before(ts, j + 1, 0, u, v) <==> followed_before(ts, j, i, u, v),
{
    if followed_before(ts, j + 1, 0, u, v) {
        let (a, b) = choose|a: int, b: int| 0 <= a <= j + 1 && a < ts.len() && 0 <= b && b + 1 < ts[a].len()
            && (a < j + 1 || b < 0) && #[trigger] ts[a][b] == u && ts[a][b + 1] == v;
        assert(followed_before(ts, j, i, u, v));
    }
    if followed_before(ts, j, i, u, v) {
        let (a, b) = choose|a: int, b: int| 0 <= a <= j && a < ts.len() && 0 <= b && b + 1 < ts[a].len()
            && (a < j || b < i) && #[trigger] ts[a][b] == u && ts[a][b + 1] == v;
        assert(followed_before(ts, j + 1, 0, u, v));
    }
}

proof fn lemma_followed_all(ts: Seq<Seq<usize>>, u: usize, v: usize)
    ensures
        followed_before(ts, ts.len() as int, 0, u, v) <==> followed(ts, u, v),
{
    if followed(ts, u, v) {
        let (a, b) = choose|a: int, b: int| 0 <= a < ts.len() && 0 <= b && b + 1 < ts[a].len()
            && #[trigger] ts[a][b] == u && ts[a][b + 1] == v;
        assert(followed_before(ts, ts.len() as int, 0, u, v));
    }
    if followed_before(ts, ts.len() as int, 0, u, v) {
        let (a, b) = choose|a: int, b: int| 0 <= a <= ts.len() && a < ts.len() && 0 <= b && b + 1 < ts[a].len()
            && (a < ts.len() || b < 0) && #[trigger] ts[a][b] == u && ts[a][b + 1] == v;
        assert(followed(ts, u, v));
    }
}

/// Stops `u` and `v` of `0..n` are next to each other on some trip, in
/// either order.
pub open spec fn adjacent_stops(trips: Seq<Vec<usize>>, n: usize, u: usize, v: usize) -> bool {
    let ts = trips.map_values(|t: Vec<usize>| t@);
    u < n && (followed(ts, u, v) || followed(ts, v, u))
}

/// VAT_005 over the trips' stop sequences: the component label of every
/// stop (the least stop it is connected to) and the labels of the
/// components that pass the size test. The network's stops are numbered
/// `0..n`; a stop that no trip joins to another is no part of it and gets no
/// number.
pub fn isolated_stop_groups(trips: &Vec<Vec<usize>>, n: usize) -> (r: (Vec<usize>, Vec<usize>))
    requires
        forall|a: int, b: int| 0 <= a < trips@.len() && 0 <= b < trips@[a]@.len() ==> #[trigger] trips@[a]@[b] < n,
    ensures
        exists|g: Seq<Seq<(usize, usize)>>| {
            &&& g.len() == n
            &&& undirected(g)
            &&& forall|u: usize, v: usize| #[trigger] has_edge(g, all_usable(), false, u, v) <==> adjacent_stops(trips@, n, u, v)
            &&& is_component_labelling(g, r.0@)
        },
        r.1@ == isolated_labels(r.0@, n as nat),
{
    let g = stop_network(trips, n);
    let ghost gv = adjacency(g@);
    proof {
        assert forall|u: usize, v: usize| #[trigger] has_edge(gv, all_usable(), false, u, v) implies has_edge(gv, all_usable(), false, v, u) by {
            let k = choose|k: int| 0 <= k < gv[u as int].len() && (#[trigger] gv[u as int][k]).0 == v
                && crate::pathways::edge_ok(all_usable(), false, gv[u as int][k].1);
            assert(v < gv.len());
        }
    }
    let rep = stop_components(&g);
    proof {
        assert forall|v: int| 0 <= v < rep@.len() implies #[trigger] rep@[v] < rep@.len() by {
            assert(rep@[v] <= v);
        }
    }
    let isolated = isolated_components(&rep);
    (rep, isolated)
}

} // verus!
