//! Single-source shortest paths (Dijkstra, with a linear scan for the next
//! node) and the walks they record.
use crate::degrees::{edges_in_range, is_walk};
use crate::graph::{adjacency, extends, neighbors, node_count, well_formed, RoadGraph};
use vstd::prelude::*;

verus! {

/// Node `x` lists an edge end `(y, w)`.
pub open spec fn has_edge(adj: Seq<Seq<(usize, usize)>>, x: usize, y: usize, w: usize) -> bool {
    exists|k: int| 0 <= k < adj[x as int].len() && adj[x as int][k] == (y, w)
}

/// What a search from `source` records: `dist[v]` is the length of the walk
/// by which `v` was reached (`None`: not reached), and `pred[v]` is the last
/// edge of that walk, as `(u, k, w)` with `(v, w)` the `k`-th end listed at
/// `u`, where `u` was reached first.
pub open spec fn search_tree(
    adj: Seq<Seq<(usize, usize)>>,
    source: usize,
    dist: Seq<Option<usize>>,
    pred: Seq<Option<(usize, usize, usize)>>,
) -> bool {
    &&& dist.len() == adj.len()
    &&& pred.len() == adj.len()
    &&& source < adj.len()
    &&& dist[source as int] == Some(0usize)
    &&& pred[source as int] is None
    &&& forall|v: int| 0 <= v < adj.len() && v != source && #[trigger] dist[v] is Some ==> pred[v] is Some
    &&& forall|v: int|
        0 <= v < adj.len() && #[trigger] pred[v] is Some ==> {
            let (u, k, w) = pred[v]->Some_0;
            &&& u < adj.len()
            &&& k < adj[u as int].len()
            &&& adj[u as int][k as int] == (v as usize, w)
            &&& dist[u as int] is Some
            &&& dist[v] is Some
            &&& dist[v]->Some_0 == dist[u as int]->Some_0 + w
            &&& u != v
        }
}

/// The `k`-th edge end `(t, w)` listed at reached node `u` gives `t` a
/// distance no larger than `u`'s plus `w` (unless that sum overflows).
pub open spec fn edge_relaxed(adj: Seq<Seq<(usize, usize)>>, dist: Seq<Option<usize>>, u: int, k: int) -> bool {
    let t = adj[u][k].0 as int;
    let w = adj[u][k].1;
    dist[u]->Some_0 + w > usize::MAX || (dist[t] is Some && dist[t]->Some_0 <= dist[u]->Some_0 + w)
}

/// Every edge end listed at `u` is relaxed.
pub open spec fn relaxed(adj: Seq<Seq<(usize, usize)>>, dist: Seq<Option<usize>>, u: int) -> bool {
    forall|k: int| 0 <= k < adj[u].len() ==> #[trigger] edge_relaxed(adj, dist, u, k)
}

/// The number of unset flags.
pub open spec fn count_false(s: Seq<bool>) -> nat
    decreases s.len(),
{
    if s.len() == 0 {
        0
    } else {
        count_false(s.drop_last()) + if s.last() { 0nat } else { 1nat }
    }
}

proof fn lemma_count_false_set(s: Seq<bool>, i: int)
    requires
        0 <= i < s.len(),
        !s[i],
    ensures
        count_false(s.update(i, true)) + 1 == count_false(s),
    decreases s.len(),
{
    if i < s.len() - 1 {
        lemma_count_false_set(s.drop_last(), i);
        assert(s.update(i, true).drop_last() =~= s.drop_last().update(i, true));
    } else {
        assert(s.update(i, true).drop_last() =~= s.drop_last());
    }
}

/// The recorded edges lead back towards the source: following `pred` from a
/// node strictly lowers its `rank`, which is below the node count, so the
/// chain ends within that many steps.
pub open spec fn ranked(adj: Seq<Seq<(usize, usize)>>, pred: Seq<Option<(usize, usize, usize)>>, rank: Seq<nat>) -> bool {
    &&& rank.len() == adj.len()
    &&& pred.len() == adj.len()
    &&& forall|v: int| 0 <= v < adj.len() ==> #[trigger] rank[v] < adj.len()
    &&& forall|v: int|
        0 <= v < adj.len() && #[trigger] pred[v] is Some ==> pred[v]->Some_0.0 < adj.len() && rank[pred[v]->Some_0.0 as int]
            < rank[v]
}

/// Runs Dijkstra's algorithm from `source`: repeatedly takes the unsettled
/// node with the least tentative distance (the lowest index among equals)
/// and relaxes its edges, `candidate = weight + distance`. A candidate that
/// does not fit in `usize` is dropped.
pub fn dijkstra(g: &RoadGraph, source: usize) -> (r: (Vec<Option<usize>>, Vec<Option<(usize, usize, usize)>>))
    requires
        well_formed(adjacency(*g)),
        source < adjacency(*g).len(),
    ensures
        search_tree(adjacency(*g), source, r.0@, r.1@),
        forall|x: int| 0 <= x < adjacency(*g).len() && #[trigger] r.0@[x] is Some ==> relaxed(adjacency(*g), r.0@, x),
        exists|rank: Seq<nat>| ranked(adjacency(*g), r.1@, rank),
{
    let ghost adj = adjacency(*g);
    let n = node_count(g);
    let mut dist: Vec<Option<usize>> = Vec::new();
    let mut pred: Vec<Option<(usize, usize, usize)>> = Vec::new();
    let mut done: Vec<bool> = Vec::new();
    let mut i: usize = 0;
    while i < n
        invariant
            i <= n,
            dist.len() == i,
            pred.len() == i,
            done.len() == i,
            forall|j: int| 0 <= j < i ==> (#[trigger] dist@[j]) is None,
            forall|j: int| 0 <= j < i ==> (#[trigger] pred@[j]) is None,
            forall|j: int| 0 <= j < i ==> !(#[trigger] done@[j]),
            count_false(done@) == i,
        decreases n - i,
    {
        dist.push(None);
        pred.push(None);
        let ghost d0 = done@;
        done.push(false);
        assert(done@.drop_last() =~= d0);
        i = i + 1;
    }
    let ghost mut settled: nat = 0;
    let ghost mut rank: Seq<nat> = Seq::new(n as nat, |j: int| 0nat);
    dist.set(source, Some(0));
    loop
        invariant
            n == adj.len(),
            well_formed(adj),
            adj == adjacency(*g),
            done.len() == n,
            search_tree(adj, source, dist@, pred@),
            forall|v: int| 0 <= v < n && #[trigger] pred[v] is Some ==> done[pred[v]->Some_0.0 as int],
            forall|v: int| 0 <= v < n && #[trigger] done[v] ==> dist[v] is Some,
            forall|x: int| 0 <= x < n && #[trigger] done@[x] ==> relaxed(adj, dist@, x),
            forall|x: int, y: int|
                0 <= x < n && 0 <= y < n && #[trigger] done@[x] && !#[trigger] done@[y] && dist@[y] is Some
                    ==> dist@[x]->Some_0 <= dist@[y]->Some_0,
            settled + count_false(done@) == n,
            rank.len() == n,
            forall|v: int| 0 <= v < n && !#[trigger] done@[v] ==> rank[v] == 0,
            forall|v: int| 0 <= v < n && #[trigger] done@[v] ==> rank[v] < settled,
            forall|v: int| 0 <= v < n && #[trigger] pred@[v] is Some && done@[v] ==> rank[pred@[v]->Some_0.0 as int] < rank[v],
        ensures
            search_tree(adj, source, dist@, pred@),
            ranked(adj, pred@, rank),
            forall|x: int| 0 <= x < n && #[trigger] dist@[x] is Some ==> relaxed(adj, dist@, x),
        decreases count_false(done@),
    {
        let mut best: Option<usize> = None;
        let mut v: usize = 0;
        while v < n
            invariant
                v <= n,
                done.len() == n,
                dist.len() == n,
                best matches Some(b) ==> b < n && !done[b as int] && dist[b as int] is Some,
                best matches Some(b) ==> forall|y: int| 0 <= y < v && !done@[y] && #[trigger] dist@[y] is Some
                    ==> dist@[b as int]->Some_0 <= dist@[y]->Some_0,
                best is None ==> forall|y: int| 0 <= y < v ==> done@[y] || #[trigger] dist@[y] is None,
            decreases n - v,
        {
            if !done[v] {
                match dist[v] {
                    Some(d) => {
                        match best {
                            None => { best = Some(v); },
                            Some(b) => {
                                match dist[b] {
                                    Some(db) => if d < db { best = Some(v); },
                                    None => {},
                                }
                            },
                        }
                    },
                    None => {},
                }
            }
            v = v + 1;
        }
        match best {
            None => {
                proof {
                    assert forall|v: int| 0 <= v < n implies #[trigger] rank[v] < n by {
                        if done@[v] {
                        } else {
                            assert(source < n);
                        }
                    }
                    assert forall|v: int| 0 <= v < n && #[trigger] pred@[v] is Some implies done@[v] by {
                        assert(dist@[v] is Some);
                    }
                }
                break;
            },
            Some(u) => {
                let ghost done0 = done@;
                proof {
                    lemma_count_false_set(done@, u as int);
                    rank = rank.update(u as int, settled);
                    settled = settled + 1;
                }
                done.set(u, true);
                let du = match dist[u] { Some(d) => d, None => 0 };
                let nbs = neighbors(g, u);
                let mut k: usize = 0;
                while k < nbs.len()
                    invariant
                        n == adj.len(),
                        well_formed(adj),
                        u < n,
                        nbs@ == adj[u as int],
                        done.len() == n,
                        done[u as int],
                        dist[u as int] == Some(du),
                        search_tree(adj, source, dist@, pred@),
                        forall|v: int| 0 <= v < n && #[trigger] pred[v] is Some ==> done[pred[v]->Some_0.0 as int],
                        forall|v: int| 0 <= v < n && #[trigger] done[v] ==> dist[v] is Some,
                        forall|x: int| 0 <= x < n && x != u && #[trigger] done@[x] ==> relaxed(adj, dist@, x),
                        forall|x: int| 0 <= x < n && #[trigger] done@[x] ==> dist@[x]->Some_0 <= du,
                        forall|y: int| 0 <= y < n && !#[trigger] done@[y] && dist@[y] is Some ==> du <= dist@[y]->Some_0,
                        k <= nbs.len(),
                        forall|j: int| 0 <= j < k ==> #[trigger] edge_relaxed(adj, dist@, u as int, j),
                        rank.len() == n,
                        forall|v: int| 0 <= v < n && !#[trigger] done@[v] ==> rank[v] == 0,
                        forall|v: int| 0 <= v < n && #[trigger] done@[v] ==> rank[v] < settled,
                        forall|v: int| 0 <= v < n && #[trigger] pred@[v] is Some && done@[v] ==> rank[pred@[v]->Some_0.0 as int] < rank[v],
                    decreases nbs.len() - k,
                {
                    let (t, w) = nbs[k];
                    assert(adj[u as int][k as int].0 < adj.len());
                    let ghost dist0 = dist@;
                    if !done[t] {
                        match du.checked_add(w) {
                            Some(c) => {
                                let better = match dist[t] {
                                    Some(dt) => c < dt,
                                    None => true,
                                };
                                if better {
                                    dist.set(t, Some(c));
                                    pred.set(t, Some((u, k, w)));
                                }
                            },
                            None => {},
                        }
                    }
                    proof {
                        assert forall|x: int| 0 <= x < n && x != u && #[trigger] done@[x] implies relaxed(adj, dist@, x) by {
                            assert(relaxed(adj, dist0, x));
                            assert forall|j: int| 0 <= j < adj[x].len() implies #[trigger] edge_relaxed(adj, dist@, x, j) by {
                                assert(edge_relaxed(adj, dist0, x, j));
                            }
                        }
                        assert forall|j: int| 0 <= j < k + 1 implies #[trigger] edge_relaxed(adj, dist@, u as int, j) by {
                            if j < k {
                                assert(edge_relaxed(adj, dist0, u as int, j));
                            }
                        }
                    }
                    k = k + 1;
                }
                proof {
                    assert(relaxed(adj, dist@, u as int));
                }
            },
        }
    }
    (dist, pred)
}


/// The total weight of a list of edges.
pub open spec fn total_weight(es: Seq<(usize, usize, usize)>) -> nat
    decreases es.len(),
{
    if es.len() == 0 {
        0
    } else {
        total_weight(es.drop_last()) + es.last().2 as nat
    }
}

/// Every edge of the list is listed in the graph, at its first node.
pub open spec fn listed(adj: Seq<Seq<(usize, usize)>>, es: Seq<(usize, usize, usize)>) -> bool {
    forall|i: int| 0 <= i < es.len() ==> has_edge(adj, (#[trigger] es[i]).0, es[i].1, es[i].2)
}

/// Some walk from `s` to `t` along edges of the graph has a total weight
/// that fits in `usize`.
pub open spec fn reaches(adj: Seq<Seq<(usize, usize)>>, s: usize, t: usize) -> bool {
    exists|es: Seq<(usize, usize, usize)>|
        #[trigger] is_walk(es, s, t) && edges_in_range(adj, es) && listed(adj, es) && total_weight(es) <= usize::MAX
}

/// Every node reaches every other within `usize` distance.
pub open spec fn connected(adj: Seq<Seq<(usize, usize)>>) -> bool {
    forall|s: usize, t: usize| s < adj.len() && t < adj.len() ==> #[trigger] reaches(adj, s, t)
}

/// Adding edges keeps a connected graph connected.
pub proof fn lemma_connected_grows(old: Seq<Seq<(usize, usize)>>, new: Seq<Seq<(usize, usize)>>)
    requires
        connected(old),
        extends(old, new),
    ensures
        connected(new),
{
    assert forall|s: usize, t: usize| s < new.len() && t < new.len() implies #[trigger] reaches(new, s, t) by {
        assert(reaches(old, s, t));
        let es = choose|es: Seq<(usize, usize, usize)>|
            #[trigger] is_walk(es, s, t) && edges_in_range(old, es) && listed(old, es) && total_weight(es) <= usize::MAX;
        assert forall|i: int| 0 <= i < es.len() implies has_edge(new, (#[trigger] es[i]).0, es[i].1, es[i].2) by {
            assert(has_edge(old, es[i].0, es[i].1, es[i].2));
            let k = choose|k: int| 0 <= k < old[es[i].0 as int].len() && old[es[i].0 as int][k] == (es[i].1, es[i].2);
            assert(new[es[i].0 as int][k] == old[es[i].0 as int][k]);
        }
        assert(is_walk(es, s, t) && edges_in_range(new, es) && listed(new, es) && total_weight(es) <= usize::MAX);
    }
}

/// A search whose reached nodes have all their edges relaxed gives each node
/// a distance no longer than any walk to it from the source along listed
/// edges (whose weight fits in `usize`): with the walks that the search
/// records, its distances are the shortest.
pub proof fn lemma_distances_shortest(
    adj: Seq<Seq<(usize, usize)>>,
    source: usize,
    dist: Seq<Option<usize>>,
    pred: Seq<Option<(usize, usize, usize)>>,
    es: Seq<(usize, usize, usize)>,
    t: usize,
)
    requires
        well_formed(adj),
        search_tree(adj, source, dist, pred),
        forall|x: int| 0 <= x < adj.len() && #[trigger] dist[x] is Some ==> relaxed(adj, dist, x),
        edges_in_range(adj, es),
        is_walk(es, source, t),
        forall|i: int| 0 <= i < es.len() ==> has_edge(adj, (#[trigger] es[i]).0, es[i].1, es[i].2),
        total_weight(es) <= usize::MAX,
    ensures
        dist[t as int] is Some,
        dist[t as int]->Some_0 <= total_weight(es),
    decreases es.len(),
{
    if es.len() > 0 {
        let e = es.last();
        let pre = es.drop_last();
        assert(edges_in_range(adj, pre));
        assert forall|i: int| 0 <= i < pre.len() implies has_edge(adj, (#[trigger] pre[i]).0, pre[i].1, pre[i].2) by {
            assert(pre[i] == es[i]);
        }
        lemma_distances_shortest(adj, source, dist, pred, pre, e.0);
        assert(has_edge(adj, es[es.len() - 1].0, es[es.len() - 1].1, es[es.len() - 1].2));
        let k = choose|k: int| 0 <= k < adj[e.0 as int].len() && adj[e.0 as int][k] == (e.1, e.2);
        assert(relaxed(adj, dist, e.0 as int));
        assert(edge_relaxed(adj, dist, e.0 as int, k));
    }
}

} // verus!
