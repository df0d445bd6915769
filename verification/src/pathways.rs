use vstd::prelude::*;

verus! {

/// Adjacency lists of the pathway graph: for each node, its outgoing edges
/// as (target node, pathway index).
pub type Adjacency = Seq<Seq<(usize, usize)>>;

/// An edge may be used: every edge when unrestricted, otherwise only the
/// pathways flagged in `ok`.
pub open spec fn edge_ok(ok: Seq<bool>, restrict: bool, pathway: usize) -> bool {
    !restrict || (pathway < ok.len() && ok[pathway as int])
}

/// There is a usable edge from `u` to `v`.
pub open spec fn has_edge(g: Adjacency, ok: Seq<bool>, restrict: bool, u: usize, v: usize) -> bool {
    u < g.len() && exists|k: int|
        0 <= k < g[u as int].len() && (#[trigger] g[u as int][k]).0 == v && edge_ok(ok, restrict, g[u as int][k].1)
}

/// `p` is a walk along usable edges.
pub open spec fn is_walk(g: Adjacency, ok: Seq<bool>, restrict: bool, p: Seq<usize>) -> bool {
    p.len() > 0 && forall|i: int| 0 <= i < p.len() - 1 ==> has_edge(g, ok, restrict, #[trigger] p[i], p[i + 1])
}

/// `v` can be reached from one of `sources` along usable edges (a source
/// reaches itself).
pub open spec fn reachable(g: Adjacency, ok: Seq<bool>, restrict: bool, sources: Seq<usize>, v: usize) -> bool {
    exists|p: Seq<usize>| #[trigger] is_walk(g, ok, restrict, p) && sources.contains(p[0]) && p.last() == v
}

/// Every edge target is a node of the graph.
pub open spec fn graph_well_formed(g: Adjacency) -> bool {
    forall|u: int, k: int| 0 <= u < g.len() && 0 <= k < g[u].len() ==> (#[trigger] g[u][k]).0 < g.len()
}

/// Number of `true` values.
pub open spec fn count_true(s: Seq<bool>) -> nat
    decreases s.len(),
{
    if s.len() == 0 {
        0
    } else {
        count_true(s.drop_last()) + if s.last() { 1nat } else { 0nat }
    }
}

proof fn lemma_count_true_bound(s: Seq<bool>)
    ensures
        count_true(s) <= s.len(),
    decreases s.len(),
{
    if s.len() > 0 {
        lemma_count_true_bound(s.drop_last());
    }
}

proof fn lemma_count_true_set(s: Seq<bool>, i: int)
    requires
        0 <= i < s.len(),
        !s[i],
    ensures
        count_true(s.update(i, true)) == count_true(s) + 1,
    decreases s.len(),
{
    let t = s.update(i, true);
    if i == s.len() - 1 {
        assert(t.drop_last() =~= s.drop_last());
    } else {
        lemma_count_true_set(s.drop_last(), i);
        assert(t.drop_last() =~= s.drop_last().update(i, true));
    }
}

proof fn lemma_walk_closed(
    g: Adjacency,
    ok: Seq<bool>,
    restrict: bool,
    vis: Seq<bool>,
    p: Seq<usize>,
)
    requires
        is_walk(g, ok, restrict, p),
        vis.len() == g.len(),
        p[0] < g.len(),
        vis[p[0] as int],
        forall|u: usize, v: usize|
            u < g.len() && vis[u as int] && #[trigger] has_edge(g, ok, restrict, u, v) ==> v < g.len() && vis[v as int],
    ensures
        p.last() < g.len() && vis[p.last() as int],
    decreases p.len(),
{
    if p.len() > 1 {
        let q = p.drop_last();
        assert(is_walk(g, ok, restrict, q)) by {
            assert forall|i: int| 0 <= i < q.len() - 1 implies has_edge(g, ok, restrict, #[trigger] q[i], q[i + 1]) by {
                assert(has_edge(g, ok, restrict, p[i], p[i + 1]));
            }
        }
        lemma_walk_closed(g, ok, restrict, vis, q);
        assert(has_edge(g, ok, restrict, p[p.len() - 2], p[p.len() - 1]));
    }
}

/// The nodes reachable from `sources` along usable edges (breadth-first
/// search); `result[v]` tells whether node `v` is reachable.
pub fn reachable_from(
    g: &Vec<Vec<(usize, usize)>>,
    sources: &[usize],
    ok: &[bool],
    restrict: bool,
) -> (r: Vec<bool>)
    requires
        graph_well_formed(g@.map_values(|a: Vec<(usize, usize)>| a@)),
        forall|i: int| 0 <= i < sources@.len() ==> #[trigger] sources@[i] < g@.len(),
    ensures
        r@.len() == g@.len(),
        forall|v: usize|
            v < g@.len() ==> (r@[v as int] <==> reachable(
                g@.map_values(|a: Vec<(usize, usize)>| a@),
                ok@,
                restrict,
                sources@,
                v,
            )),
{
    let ghost gv = g@.map_values(|a: Vec<(usize, usize)>| a@);
    let n = g.len();
    let mut visited: Vec<bool> = Vec::new();
    let mut i: usize = 0;
    while i < n
        invariant
            i <= n,
            visited@.len() == i,
            forall|k: int| 0 <= k < i ==> !visited@[k],
        decreases n - i,
    {
        visited.push(false);
        i += 1;
    }
    proof {
        assert(count_true(visited@) == 0) by {
            lemma_count_zero(visited@);
        }
    }
    let mut queue: Vec<usize> = Vec::new();
    let mut s: usize = 0;
    while s < sources.len()
        invariant
            n == g@.len(),
            gv == g@.map_values(|a: Vec<(usize, usize)>| a@),
            forall|i: int| 0 <= i < sources@.len() ==> #[trigger] sources@[i] < g@.len(),
            s <= sources.len(),
            visited@.len() == n,
            count_true(visited@) == queue@.len(),
            forall|k: int| 0 <= k < queue@.len() ==> #[trigger] queue@[k] < n && visited@[queue@[k] as int],
            forall|v: int| 0 <= v < n && #[trigger] visited@[v] ==> queue@.contains(v as usize),
            forall|v: int| 0 <= v < n && #[trigger] visited@[v] ==> reachable(gv, ok@, restrict, sources@, v as usize),
            forall|k: int| 0 <= k < s ==> visited@[#[trigger] sources@[k] as int],
        decreases sources.len() - s,
    {
        let x = sources[s];
        if !visited[x] {
            proof {
                lemma_count_true_set(visited@, x as int);
                let p = seq![x];
                assert(is_walk(gv, ok@, restrict, p));
                assert(sources@.contains(p[0])) by {
                    assert(sources@[s as int] == x);
                }
                assert(reachable(gv, ok@, restrict, sources@, x));
            }
            let ghost old_queue = queue@;
            visited.set(x, true);
            queue.push(x);
            proof {
                assert forall|v: int| 0 <= v < n && #[trigger] visited@[v] implies queue@.contains(v as usize) by {
                    if v == x {
                        assert(queue@[queue@.len() - 1] == x);
                    } else {
                        assert(old_queue.contains(v as usize));
                        let k = choose|k: int| 0 <= k < old_queue.len() && old_queue[k] == v as usize;
                        assert(queue@[k] == v as usize);
                    }
                }
            }
        }
        s += 1;
    }
    let mut head: usize = 0;
    while head < queue.len()
        invariant
            n == g@.len(),
            gv == g@.map_values(|a: Vec<(usize, usize)>| a@),
            graph_well_formed(gv),
            head <= queue@.len(),
            visited@.len() == n,
            count_true(visited@) == queue@.len(),
            forall|k: int| 0 <= k < queue@.len() ==> #[trigger] queue@[k] < n && visited@[queue@[k] as int],
            forall|v: int| 0 <= v < n && #[trigger] visited@[v] ==> queue@.contains(v as usize),
            forall|v: int| 0 <= v < n && #[trigger] visited@[v] ==> reachable(gv, ok@, restrict, sources@, v as usize),
            forall|i: int| 0 <= i < sources@.len() ==> #[trigger] sources@[i] < g@.len(),
            forall|k: int| 0 <= k < sources@.len() ==> visited@[#[trigger] sources@[k] as int],
            forall|k: int, w: usize|
                0 <= k < head && #[trigger] has_edge(gv, ok@, restrict, queue@[k], w) ==> w < n && visited@[w as int],
        decreases n - head,
    {
        proof {
            lemma_count_true_bound(visited@);
        }
        let u = queue[head];
        let edges = &g[u];
        assert(edges@ == gv[u as int]);
        let mut e: usize = 0;
        while e < edges.len()
            invariant
                n == g@.len(),
                gv == g@.map_values(|a: Vec<(usize, usize)>| a@),
                graph_well_formed(gv),
                u < n,
                edges@ == gv[u as int],
                head < queue@.len(),
                queue@[head as int] == u,
                e <= edges@.len(),
                visited@.len() == n,
                count_true(visited@) == queue@.len(),
                forall|k: int| 0 <= k < queue@.len() ==> #[trigger] queue@[k] < n && visited@[queue@[k] as int],
                forall|v: int| 0 <= v < n && #[trigger] visited@[v] ==> queue@.contains(v as usize),
                forall|v: int| 0 <= v < n && #[trigger] visited@[v] ==> reachable(gv, ok@, restrict, sources@, v as usize),
                forall|i: int| 0 <= i < sources@.len() ==> #[trigger] sources@[i] < g@.len(),
                forall|k: int| 0 <= k < sources@.len() ==> visited@[#[trigger] sources@[k] as int],
                forall|k: int, w: usize|
                    0 <= k < head && #[trigger] has_edge(gv, ok@, restrict, queue@[k], w) ==> w < n && visited@[w as int],
                forall|j: int|
                    0 <= j < e && edge_ok(ok@, restrict, (#[trigger] edges@[j]).1) ==> visited@[edges@[j].0 as int],
            decreases edges@.len() - e,
        {
            let (w, pw) = edges[e];
            assert(w < n) by {
                assert(gv[u as int][e as int] == edges@[e as int]);
            }
            let usable = !restrict || (pw < ok.len() && ok[pw]);
            if usable && !visited[w] {
                proof {
                    lemma_count_true_set(visited@, w as int);
                    lemma_count_true_bound(visited@);
                    // A walk to u extended by the edge u -> w reaches w.
                    assert(visited@[u as int]);
                    assert(reachable(gv, ok@, restrict, sources@, u));
                    let p = choose|p: Seq<usize>| #[trigger] is_walk(gv, ok@, restrict, p) && sources@.contains(p[0]) && p.last() == u;
                    let q = p.push(w);
                    assert(has_edge(gv, ok@, restrict, u, w)) by {
                        assert(gv[u as int][e as int] == edges@[e as int]);
                    }
                    assert(is_walk(gv, ok@, restrict, q)) by {
                        assert forall|i: int| 0 <= i < q.len() - 1 implies has_edge(gv, ok@, restrict, #[trigger] q[i], q[i + 1]) by {
                            if i < p.len() - 1 {
                                assert(q[i] == p[i] && q[i + 1] == p[i + 1]);
                            } else {
                                assert(q[i] == u && q[i + 1] == w);
                            }
                        }
                    }
                    assert(q[0] == p[0]);
                    assert(reachable(gv, ok@, restrict, sources@, w));
                }
                let ghost old_queue = queue@;
                visited.set(w, true);
                queue.push(w);
                proof {
                    assert forall|v: int| 0 <= v < n && #[trigger] visited@[v] implies queue@.contains(v as usize) by {
                        if v == w {
                            assert(queue@[queue@.len() - 1] == w);
                        } else {
                            assert(old_queue.contains(v as usize));
                            let k = choose|k: int| 0 <= k < old_queue.len() && old_queue[k] == v as usize;
                            assert(queue@[k] == v as usize);
                        }
                    }
                }
            }
            e += 1;
        }
        proof {
            assert forall|k: int, w: usize|
                0 <= k < head + 1 && #[trigger] has_edge(gv, ok@, restrict, queue@[k], w) implies w < n && visited@[w as int] by {
                if k == head {
                    let j = choose|j: int|
                        0 <= j < gv[u as int].len() && (#[trigger] gv[u as int][j]).0 == w && edge_ok(ok@, restrict, gv[u as int][j].1);
                    assert(edges@[j] == gv[u as int][j]);
                }
            }
        }
        head += 1;
    }
    proof {
        assert forall|v: usize| v < g@.len() implies (visited@[v as int] <==> reachable(gv, ok@, restrict, sources@, v)) by {
            if reachable(gv, ok@, restrict, sources@, v) {
                let p = choose|p: Seq<usize>| #[trigger] is_walk(gv, ok@, restrict, p) && sources@.contains(p[0]) && p.last() == v;
                let k = choose|k: int| 0 <= k < sources@.len() && sources@[k] == p[0];
                assert(visited@[sources@[k] as int]);
                assert forall|a: usize, b: usize|
                    a < gv.len() && visited@[a as int] && #[trigger] has_edge(gv, ok@, restrict, a, b) implies b < gv.len() && visited@[b as int] by {
                    assert(queue@.contains(a));
                    let ka = choose|ka: int| 0 <= ka < queue@.len() && queue@[ka] == a;
                    assert(has_edge(gv, ok@, restrict, queue@[ka], b));
                }
                lemma_walk_closed(gv, ok@, restrict, visited@, p);
            }
        }
    }
    visited
}

proof fn lemma_count_zero(s: Seq<bool>)
    requires
        forall|k: int| 0 <= k < s.len() ==> !s[k],
    ensures
        count_true(s) == 0,
    decreases s.len(),
{
    if s.len() > 0 {
        lemma_count_zero(s.drop_last());
    }
}


/// A platform of a station, as the pathway rules see it.
#[derive(Debug, Clone)]
pub struct Platform {
    /// The platform's node, when it is part of the pathway graph.
    pub node: Option<usize>,
    /// Graph nodes of its child stops (boarding areas).
    pub children: Vec<usize>,
}

/// The platform counts as reached when its own node or one of its children's
/// nodes is marked in `r`.
pub open spec fn platform_reached(r: Seq<bool>, node: Option<usize>, children: Seq<usize>) -> bool {
    (node is Some && node->0 < r.len() && r[node->0 as int]) || exists|k: int|
        0 <= k < children.len() && children[k] < r.len() && r[#[trigger] children[k] as int]
}

/// Findings of PTH_012 / PTH_013 for one station.
#[derive(Debug, Clone)]
pub struct StationFindings {
    /// PTH_012: indices (into the station's platform list) of the platforms no
    /// entrance reaches.
    pub unreachable_platforms: Vec<usize>,
    /// PTH_013: no platform is reached from an entrance over wheelchair-usable
    /// pathways only.
    pub no_accessible_route: bool,
}

fn platform_is_reached(r: &Vec<bool>, p: &Platform) -> (b: bool)
    ensures
        b == platform_reached(r@, p.node, p.children@),
{
    if let Some(x) = p.node {
        if x < r.len() && r[x] {
            return true;
        }
    }
    let mut k: usize = 0;
    while k < p.children.len()
        invariant
            k <= p.children@.len(),
            !(p.node is Some && p.node->0 < r@.len() && r@[p.node->0 as int]),
            forall|j: int| 0 <= j < k ==> !(p.children@[j] < r@.len() && r@[#[trigger] p.children@[j] as int]),
        decreases p.children@.len() - k,
    {
        let c = p.children[k];
        if c < r.len() && r[c] {
            return true;
        }
        k += 1;
    }
    false
}

/// Platforms of `ps` (by index) that `r` does not reach.
pub open spec fn unreached_indices(r: Seq<bool>, ps: Seq<Platform>) -> Seq<usize>
    decreases ps.len(),
{
    if ps.len() == 0 {
        Seq::empty()
    } else {
        let rest = unreached_indices(r, ps.drop_last());
        let p = ps.last();
        if platform_reached(r, p.node, p.children@) {
            rest
        } else {
            rest.push((ps.len() - 1) as usize)
        }
    }
}

/// Indices of the platforms that are in the graph.
pub open spec fn graph_platform_indices(ps: Seq<Platform>) -> Seq<usize>
    decreases ps.len(),
{
    if ps.len() == 0 {
        Seq::empty()
    } else {
        let rest = graph_platform_indices(ps.drop_last());
        if ps.last().node is Some {
            rest.push((ps.len() - 1) as usize)
        } else {
            rest
        }
    }
}

/// Some platform is reached.
pub open spec fn any_platform_reached(r: Seq<bool>, ps: Seq<Platform>) -> bool {
    exists|i: int| 0 <= i < ps.len() && platform_reached(r, (#[trigger] ps[i]).node, ps[i].children@)
}

/// PTH_012 / PTH_013 for one station whose platforms are `platforms`.
/// Without any entrance, every platform in the graph is unreachable (and
/// PTH_013 is not evaluated). Otherwise reachability is taken over all
/// pathways (PTH_012) and over the wheelchair-usable ones only (PTH_013).
pub open spec fn spec_station_findings(
    g: Adjacency,
    accessible: Seq<bool>,
    has_entrances: bool,
    entrances: Seq<usize>,
    platforms: Seq<Platform>,
) -> (Seq<usize>, bool) {
    if platforms.len() == 0 {
        (Seq::empty(), false)
    } else if !has_entrances {
        (graph_platform_indices(platforms), false)
    } else {
        let all = Seq::new(g.len(), |v: int| reachable(g, accessible, false, entrances, v as usize));
        let acc = Seq::new(g.len(), |v: int| reachable(g, accessible, true, entrances, v as usize));
        (unreached_indices(all, platforms), !any_platform_reached(acc, platforms))
    }
}

/// Checks one station's platforms against its entrances over the pathway graph.
pub fn station_findings(
    g: &Vec<Vec<(usize, usize)>>,
    accessible: &[bool],
    has_entrances: bool,
    entrances: &[usize],
    platforms: &[Platform],
) -> (r: StationFindings)
    requires
        graph_well_formed(g@.map_values(|a: Vec<(usize, usize)>| a@)),
        forall|i: int| 0 <= i < entrances@.len() ==> #[trigger] entrances@[i] < g@.len(),
        platforms@.len() <= usize::MAX,
    ensures
        (r.unreachable_platforms@, r.no_accessible_route) == spec_station_findings(
            g@.map_values(|a: Vec<(usize, usize)>| a@),
            accessible@,
            has_entrances,
            entrances@,
            platforms@,
        ),
{
    let ghost gv = g@.map_values(|a: Vec<(usize, usize)>| a@);
    let mut out: Vec<usize> = Vec::new();
    if platforms.len() == 0 {
        return StationFindings { unreachable_platforms: out, no_accessible_route: false };
    }
    if !has_entrances {
        let mut i: usize = 0;
        while i < platforms.len()
            invariant
                i <= platforms@.len(),
                out@ == graph_platform_indices(platforms@.take(i as int)),
            decreases platforms@.len() - i,
        {
            assert(platforms@.take(i + 1).drop_last() =~= platforms@.take(i as int));
            if platforms[i].node.is_some() {
                out.push(i);
            }
            i += 1;
        }
        assert(platforms@.take(i as int) =~= platforms@);
        return StationFindings { unreachable_platforms: out, no_accessible_route: false };
    }
    let all = reachable_from(g, entrances, accessible, false);
    let acc = reachable_from(g, entrances, accessible, true);
    let ghost all_s = Seq::new(gv.len(), |v: int| reachable(gv, accessible@, false, entrances@, v as usize));
    let ghost acc_s = Seq::new(gv.len(), |v: int| reachable(gv, accessible@, true, entrances@, v as usize));
    let n = g.len();
    assert(gv.len() == n);
    assert forall|k: int| 0 <= k < all_s.len() implies all@[k] == all_s[k] && acc@[k] == acc_s[k] by {
        let v = k as usize;
        assert(v as int == k);
    }
    assert(all@ =~= all_s);
    assert(acc@ =~= acc_s);
    let mut any_acc = false;
    let mut i: usize = 0;
    while i < platforms.len()
        invariant
            i <= platforms@.len(),
            all@ == all_s,
            acc@ == acc_s,
            out@ == unreached_indices(all_s, platforms@.take(i as int)),
            any_acc == exists|k: int|
                0 <= k < i && platform_reached(acc_s, (#[trigger] platforms@[k]).node, platforms@[k].children@),
        decreases platforms@.len() - i,
    {
        assert(platforms@.take(i + 1).drop_last() =~= platforms@.take(i as int));
        assert(platforms@.take(i + 1).last() == platforms@[i as int]);
        if !platform_is_reached(&all, &platforms[i]) {
            out.push(i);
        }
        if platform_is_reached(&acc, &platforms[i]) {
            any_acc = true;
        }
        i += 1;
    }
    assert(platforms@.take(i as int) =~= platforms@);
    StationFindings { unreachable_platforms: out, no_accessible_route: !any_acc }
}

/// Every platform reachable over wheelchair-usable pathways is reachable over
/// all pathways: restricting the usable edges never adds reachable nodes.
pub proof fn law_accessible_reach_implies_reach(
    g: Adjacency,
    ok: Seq<bool>,
    sources: Seq<usize>,
    v: usize,
)
    requires
        reachable(g, ok, true, sources, v),
    ensures
        reachable(g, ok, false, sources, v),
{
    let p = choose|p: Seq<usize>| #[trigger] is_walk(g, ok, true, p) && sources.contains(p[0]) && p.last() == v;
    assert(is_walk(g, ok, false, p)) by {
        assert forall|i: int| 0 <= i < p.len() - 1 implies has_edge(g, ok, false, #[trigger] p[i], p[i + 1]) by {
            assert(has_edge(g, ok, true, p[i], p[i + 1]));
            let k = choose|k: int|
                0 <= k < g[p[i] as int].len() && (#[trigger] g[p[i] as int][k]).0 == p[i + 1] && edge_ok(ok, true, g[p[i] as int][k].1);
            assert(edge_ok(ok, false, g[p[i] as int][k].1));
        }
    }
}

/// The platforms `unreached_indices` lists are exactly those not reached.
proof fn lemma_unreached_member(r: Seq<bool>, ps: Seq<Platform>, i: int)
    requires
        0 <= i < ps.len(),
        ps.len() <= usize::MAX,
    ensures
        unreached_indices(r, ps).contains(i as usize) <==> !platform_reached(r, ps[i].node, ps[i].children@),
        forall|k: int| 0 <= k < unreached_indices(r, ps).len() ==> #[trigger] unreached_indices(r, ps)[k] < ps.len(),
    decreases ps.len(),
{
    let rest = unreached_indices(r, ps.drop_last());
    let u = unreached_indices(r, ps);
    if ps.len() > 1 {
        if i < ps.len() - 1 {
            lemma_unreached_member(r, ps.drop_last(), i);
        } else {
            lemma_unreached_member(r, ps.drop_last(), 0);
        }
    }
    assert forall|k: int| 0 <= k < u.len() implies #[trigger] u[k] < ps.len() by {
        if k < rest.len() {
            assert(u[k] == rest[k]);
            assert(rest[k] < ps.drop_last().len());
        }
    }
    if i < ps.len() - 1 {
        assert(ps.drop_last()[i] == ps[i]);
        if rest.contains(i as usize) {
            let k = choose|k: int| 0 <= k < rest.len() && rest[k] == i as usize;
            assert(u[k] == i as usize);
        }
        if u.contains(i as usize) {
            let k = choose|k: int| 0 <= k < u.len() && u[k] == i as usize;
            if k < rest.len() {
                assert(rest[k] == u[k]);
            } else {
                assert(u[k] == (ps.len() - 1) as usize);
            }
        }
    } else {
        if u.contains(i as usize) && platform_reached(r, ps[i].node, ps[i].children@) {
            let k = choose|k: int| 0 <= k < u.len() && u[k] == i as usize;
            assert(u == rest);
            if ps.len() > 1 {
                assert(rest[k] < ps.drop_last().len());
            }
        }
        if !platform_reached(r, ps[i].node, ps[i].children@) {
            assert(u[u.len() - 1] == i as usize);
        }
    }
}

/// PTH_012 searches from every entrance: a platform whose node, or the node
/// of one of its children, is reached by a walk over the pathways from any of
/// the station's entrances is never listed as unreachable.
pub proof fn law_platform_reached_from_any_entrance(
    g: Adjacency,
    accessible: Seq<bool>,
    entrances: Seq<usize>,
    platforms: Seq<Platform>,
    i: int,
    e: int,
    p: Seq<usize>,
)
    requires
        0 <= i < platforms.len(),
        platforms.len() <= usize::MAX,
        0 <= e < entrances.len(),
        is_walk(g, accessible, false, p),
        p[0] == entrances[e],
        p.last() < g.len(),
        platforms[i].node == Some(p.last()) || platforms[i].children@.contains(p.last()),
    ensures
        !spec_station_findings(g, accessible, true, entrances, platforms).0.contains(i as usize),
{
    let all = Seq::new(g.len(), |v: int| reachable(g, accessible, false, entrances, v as usize));
    let x = p.last();
    assert(entrances.contains(p[0]));
    assert(reachable(g, accessible, false, entrances, x));
    assert(all[x as int]);
    if platforms[i].node != Some(x) {
        let k = choose|k: int| 0 <= k < platforms[i].children@.len() && platforms[i].children@[k] == x;
        assert(platform_reached(all, platforms[i].node, platforms[i].children@));
    }
    lemma_unreached_member(all, platforms, i);
}

/// A platform listed as unreachable has neither its node nor a child's node
/// at the end of any walk from any entrance.
pub proof fn law_listed_platform_is_unreached(
    g: Adjacency,
    accessible: Seq<bool>,
    entrances: Seq<usize>,
    platforms: Seq<Platform>,
    i: int,
    e: int,
    p: Seq<usize>,
)
    requires
        spec_station_findings(g, accessible, true, entrances, platforms).0.contains(i as usize),
        0 <= i < platforms.len(),
        platforms.len() <= usize::MAX,
        0 <= e < entrances.len(),
        is_walk(g, accessible, false, p),
        p[0] == entrances[e],
        p.last() < g.len(),
    ensures
        platforms[i].node != Some(p.last()),
        !platforms[i].children@.contains(p.last()),
{
    if platforms[i].node == Some(p.last()) || platforms[i].children@.contains(p.last()) {
        law_platform_reached_from_any_entrance(g, accessible, entrances, platforms, i, e, p);
    }
}

/// PTH_013 searches from every entrance too: when a walk over
/// wheelchair-usable pathways leads from any entrance to a platform's node or
/// a child's node, the station is not reported as lacking an accessible route.
pub proof fn law_accessible_route_from_any_entrance(
    g: Adjacency,
    accessible: Seq<bool>,
    entrances: Seq<usize>,
    platforms: Seq<Platform>,
    i: int,
    e: int,
    p: Seq<usize>,
)
    requires
        0 <= i < platforms.len(),
        platforms.len() <= usize::MAX,
        0 <= e < entrances.len(),
        is_walk(g, accessible, true, p),
        p[0] == entrances[e],
        p.last() < g.len(),
        platforms[i].node == Some(p.last()) || platforms[i].children@.contains(p.last()),
    ensures
        !spec_station_findings(g, accessible, true, entrances, platforms).1,
{
    let acc = Seq::new(g.len(), |v: int| reachable(g, accessible, true, entrances, v as usize));
    let x = p.last();
    assert(entrances.contains(p[0]));
    assert(reachable(g, accessible, true, entrances, x));
    assert(acc[x as int]);
    if platforms[i].node != Some(x) {
        let k = choose|k: int| 0 <= k < platforms[i].children@.len() && platforms[i].children@[k] == x;
        assert(platform_reached(acc, platforms[i].node, platforms[i].children@));
    }
    assert(platform_reached(acc, platforms[i].node, platforms[i].children@));
    assert(any_platform_reached(acc, platforms));
}

/// The platforms `graph_platform_indices` lists are exactly those in the graph.
proof fn lemma_graph_platform_member(ps: Seq<Platform>, i: int)
    requires
        0 <= i < ps.len(),
        ps.len() <= usize::MAX,
    ensures
        graph_platform_indices(ps).contains(i as usize) <==> ps[i].node is Some,
        forall|k: int| 0 <= k < graph_platform_indices(ps).len() ==> #[trigger] graph_platform_indices(ps)[k] < ps.len(),
    decreases ps.len(),
{
    let rest = graph_platform_indices(ps.drop_last());
    let u = graph_platform_indices(ps);
    if ps.len() > 1 {
        if i < ps.len() - 1 {
            lemma_graph_platform_member(ps.drop_last(), i);
        } else {
            lemma_graph_platform_member(ps.drop_last(), 0);
        }
    }
    assert forall|k: int| 0 <= k < u.len() implies #[trigger] u[k] < ps.len() by {
        if k < rest.len() {
            assert(u[k] == rest[k]);
            assert(rest[k] < ps.drop_last().len());
        }
    }
    if i < ps.len() - 1 {
        assert(ps.drop_last()[i] == ps[i]);
        if rest.contains(i as usize) {
            let k = choose|k: int| 0 <= k < rest.len() && rest[k] == i as usize;
            assert(u[k] == i as usize);
        }
        if u.contains(i as usize) {
            let k = choose|k: int| 0 <= k < u.len() && u[k] == i as usize;
            if k < rest.len() {
                assert(rest[k] == u[k]);
            } else {
                assert(u[k] == (ps.len() - 1) as usize);
            }
        }
    } else {
        if u.contains(i as usize) && ps[i].node is None {
            let k = choose|k: int| 0 <= k < u.len() && u[k] == i as usize;
            assert(u == rest);
            if ps.len() > 1 {
                assert(rest[k] < ps.drop_last().len());
            }
        }
        if ps[i].node is Some {
            assert(u[u.len() - 1] == i as usize);
        }
    }
}

/// A platform that no walk over the pathways from any entrance leads to (its
/// node, or a child's node) is listed as unreachable (PTH_012).
pub proof fn law_unreached_platform_is_listed(
    g: Adjacency,
    accessible: Seq<bool>,
    entrances: Seq<usize>,
    platforms: Seq<Platform>,
    i: int,
)
    requires
        0 <= i < platforms.len(),
        platforms.len() <= usize::MAX,
        forall|p: Seq<usize>| #[trigger] is_walk(g, accessible, false, p) && entrances.contains(p[0])
            ==> platforms[i].node != Some(p.last()) && !platforms[i].children@.contains(p.last()),
    ensures
        spec_station_findings(g, accessible, true, entrances, platforms).0.contains(i as usize),
{
    let all = Seq::new(g.len(), |v: int| reachable(g, accessible, false, entrances, v as usize));
    assert(!platform_reached(all, platforms[i].node, platforms[i].children@)) by {
        if platforms[i].node is Some {
            let x = platforms[i].node->0;
            if x < all.len() && all[x as int] {
                assert(reachable(g, accessible, false, entrances, x));
                let p = choose|p: Seq<usize>| #[trigger] is_walk(g, accessible, false, p) && entrances.contains(p[0]) && p.last() == x;
                assert(false);
            }
        }
        assert forall|k: int| 0 <= k < platforms[i].children@.len()
            implies !(platforms[i].children@[k] < all.len() && all[#[trigger] platforms[i].children@[k] as int]) by {
            let x = platforms[i].children@[k];
            if x < all.len() && all[x as int] {
                assert(reachable(g, accessible, false, entrances, x));
                let p = choose|p: Seq<usize>| #[trigger] is_walk(g, accessible, false, p) && entrances.contains(p[0]) && p.last() == x;
                assert(platforms[i].children@.contains(x));
                assert(false);
            }
        }
    }
    lemma_unreached_member(all, platforms, i);
}

/// A station with platforms but no wheelchair-usable walk from any entrance to
/// any platform (its node or a child's node) is reported as lacking an
/// accessible route (PTH_013).
pub proof fn law_no_accessible_walk_is_reported(
    g: Adjacency,
    accessible: Seq<bool>,
    entrances: Seq<usize>,
    platforms: Seq<Platform>,
)
    requires
        platforms.len() > 0,
        forall|p: Seq<usize>, i: int| #![trigger is_walk(g, accessible, true, p), platforms[i]]
            is_walk(g, accessible, true, p) && entrances.contains(p[0]) && 0 <= i < platforms.len()
            ==> platforms[i].node != Some(p.last()) && !platforms[i].children@.contains(p.last()),
    ensures
        spec_station_findings(g, accessible, true, entrances, platforms).1,
{
    let acc = Seq::new(g.len(), |v: int| reachable(g, accessible, true, entrances, v as usize));
    assert forall|i: int| 0 <= i < platforms.len()
        implies !platform_reached(acc, (#[trigger] platforms[i]).node, platforms[i].children@) by {
        if platforms[i].node is Some {
            let x = platforms[i].node->0;
            if x < acc.len() && acc[x as int] {
                assert(reachable(g, accessible, true, entrances, x));
                let p = choose|p: Seq<usize>| #[trigger] is_walk(g, accessible, true, p) && entrances.contains(p[0]) && p.last() == x;
                assert(platforms[i].node != Some(p.last()));
            }
        }
        assert forall|k: int| 0 <= k < platforms[i].children@.len()
            implies !(platforms[i].children@[k] < acc.len() && acc[#[trigger] platforms[i].children@[k] as int]) by {
            let x = platforms[i].children@[k];
            if x < acc.len() && acc[x as int] {
                assert(reachable(g, accessible, true, entrances, x));
                let p = choose|p: Seq<usize>| #[trigger] is_walk(g, accessible, true, p) && entrances.contains(p[0]) && p.last() == x;
                assert(platforms[i].children@.contains(x));
                assert(!platforms[i].children@.contains(p.last()));
            }
        }
    }
}

/// Without any entrance, exactly the platforms that are in the pathway graph
/// are listed as unreachable, and PTH_013 is not reported.
pub proof fn law_no_entrance_lists_graph_platforms(
    g: Adjacency,
    accessible: Seq<bool>,
    entrances: Seq<usize>,
    platforms: Seq<Platform>,
    i: int,
)
    requires
        0 <= i < platforms.len(),
        platforms.len() <= usize::MAX,
    ensures
        spec_station_findings(g, accessible, false, entrances, platforms).0.contains(i as usize)
            <==> platforms[i].node is Some,
        !spec_station_findings(g, accessible, false, entrances, platforms).1,
{
    lemma_graph_platform_member(platforms, i);
}

} // verus!
