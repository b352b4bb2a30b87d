//! Dead ends: a node of degree one can only be covered by walking in and
//! back out, so its edge is doubled.
use crate::degrees::{edges_in_range, ind, lemma_handshake, lemma_with_edge, lemma_with_edges, odd_count};
use crate::graph::{add_edge, extends, adjacency, degree, neighbors, node_count, well_formed, with_edges, RoadGraph};
use vstd::prelude::*;

verus! {

/// The copies that doubling the dead ends among the first `k` nodes adds, in
/// node order: for dead end `v`, its one edge `(v, t, w)`.
pub open spec fn culdesac_edges(adj: Seq<Seq<(usize, usize)>>, k: int) -> Seq<(usize, usize, usize)>
    decreases k,
{
    if k <= 0 {
        Seq::empty()
    } else {
        let rest = culdesac_edges(adj, k - 1);
        let v = k - 1;
        if adj[v].len() == 1 {
            rest.push((v as usize, adj[v][0].0, adj[v][0].1))
        } else {
            rest
        }
    }
}

proof fn lemma_culdesac_edges(adj: Seq<Seq<(usize, usize)>>, k: int)
    requires
        well_formed(adj),
        0 <= k <= adj.len(),
        adj.len() <= usize::MAX + 1,
    ensures
        edges_in_range(adj, culdesac_edges(adj, k)),
        forall|v: int| 0 <= v < k && adj[v].len() == 1 ==> #[trigger] culdesac_edges(adj, k).contains(
            (v as usize, adj[v][0].0, adj[v][0].1),
        ),
    decreases k,
{
    if k > 0 {
        lemma_culdesac_edges(adj, k - 1);
        let rest = culdesac_edges(adj, k - 1);
        let now = culdesac_edges(adj, k);
        assert forall|v: int| 0 <= v < k && adj[v].len() == 1 implies #[trigger] now.contains(
            (v as usize, adj[v][0].0, adj[v][0].1),
        ) by {
            if v < k - 1 {
                assert(rest.contains((v as usize, adj[v][0].0, adj[v][0].1)));
                let i = choose|i: int| 0 <= i < rest.len() && rest[i] == (v as usize, adj[v][0].0, adj[v][0].1);
                assert(now[i] == rest[i]);
            } else {
                assert(now[now.len() - 1] == (v as usize, adj[v][0].0, adj[v][0].1));
            }
        }
    }
}

proof fn lemma_contained_raises(adj: Seq<Seq<(usize, usize)>>, es: Seq<(usize, usize, usize)>, v: int)
    requires
        well_formed(adj),
        edges_in_range(adj, es),
        0 <= v < adj.len(),
        exists|i: int| 0 <= i < es.len() && (#[trigger] es[i]).0 == v,
    ensures
        with_edges(adj, es)[v].len() >= adj[v].len() + 1,
    decreases es.len(),
{
    let e = es.last();
    let pre = es.drop_last();
    assert(edges_in_range(adj, pre));
    lemma_with_edges(adj, pre);
    lemma_with_edge(with_edges(adj, pre), e.0, e.1, e.2);
    if e.0 != v {
        let i = choose|i: int| 0 <= i < es.len() && (#[trigger] es[i]).0 == v;
        assert(pre[i].0 == v);
        lemma_contained_raises(adj, pre, v);
    }
}

/// After the dead ends are doubled, every node that was a dead end has
/// degree at least two.
pub proof fn lemma_dead_ends_doubled(adj: Seq<Seq<(usize, usize)>>, v: int)
    requires
        well_formed(adj),
        adj.len() <= usize::MAX + 1,
        0 <= v < adj.len(),
        adj[v].len() == 1,
    ensures
        with_edges(adj, culdesac_edges(adj, adj.len() as int))[v].len() >= 2,
{
    let es = culdesac_edges(adj, adj.len() as int);
    lemma_culdesac_edges(adj, adj.len() as int);
    assert(es.contains((v as usize, adj[v][0].0, adj[v][0].1)));
    lemma_contained_raises(adj, es, v);
}

/// Doubling the dead ends keeps the number of odd-degree nodes even, as it
/// was before.
pub proof fn lemma_handshake_around_doubling(adj: Seq<Seq<(usize, usize)>>)
    requires
        well_formed(adj),
        adj.len() <= usize::MAX + 1,
    ensures
        odd_count(adj, adj.len() as int) % 2 == 0,
        odd_count(
            with_edges(adj, culdesac_edges(adj, adj.len() as int)),
            adj.len() as int,
        ) % 2 == 0,
{
    let es = culdesac_edges(adj, adj.len() as int);
    lemma_culdesac_edges(adj, adj.len() as int);
    lemma_with_edges(adj, es);
    lemma_handshake(adj);
    lemma_handshake(with_edges(adj, es));
}

/// How many ends of the edges of `es` lie at `v`.
pub open spec fn edge_ends(es: Seq<(usize, usize, usize)>, v: int) -> nat
    decreases es.len(),
{
    if es.len() == 0 {
        0
    } else {
        edge_ends(es.drop_last(), v) + ind(es.last().0 == v) + ind(es.last().1 == v)
    }
}

proof fn lemma_with_edges_degree(adj: Seq<Seq<(usize, usize)>>, es: Seq<(usize, usize, usize)>, v: int)
    requires
        well_formed(adj),
        edges_in_range(adj, es),
        0 <= v < adj.len(),
    ensures
        with_edges(adj, es)[v].len() == adj[v].len() + edge_ends(es, v),
    decreases es.len(),
{
    if es.len() > 0 {
        let e = es.last();
        assert(edges_in_range(adj, es.drop_last()));
        lemma_with_edges_degree(adj, es.drop_last(), v);
        lemma_with_edges(adj, es.drop_last());
        lemma_with_edge(with_edges(adj, es.drop_last()), e.0, e.1, e.2);
    }
}

proof fn lemma_culdesac_ends(adj: Seq<Seq<(usize, usize)>>, v: int, k: int)
    requires
        0 <= k <= adj.len(),
        0 <= v < adj.len(),
        adj.len() <= usize::MAX + 1,
        adj[v].len() == 1,
        adj[v][0].0 != v,
        forall|x: int| 0 <= x < adj.len() && x != v && adj[x].len() == 1 ==> (#[trigger] adj[x][0]).0 != v,
    ensures
        edge_ends(culdesac_edges(adj, k), v) == if v < k { 1nat } else { 0nat },
    decreases k,
{
    if k > 0 {
        lemma_culdesac_ends(adj, v, k - 1);
        let rest = culdesac_edges(adj, k - 1);
        if adj[k - 1].len() == 1 {
            assert(culdesac_edges(adj, k).drop_last() =~= rest);
        }
    }
}

/// A dead end whose one neighbour is another node, and not itself a dead
/// end, has degree exactly two once the dead ends are doubled.
pub proof fn lemma_dead_end_becomes_even(adj: Seq<Seq<(usize, usize)>>, v: int)
    requires
        well_formed(adj),
        adj.len() <= usize::MAX + 1,
        0 <= v < adj.len(),
        adj[v].len() == 1,
        adj[v][0].0 != v,
        adj[adj[v][0].0 as int].len() != 1,
    ensures
        with_edges(adj, culdesac_edges(adj, adj.len() as int))[v].len() == 2,
{
    let t = adj[v][0].0;
    assert forall|x: int| 0 <= x < adj.len() && x != v && adj[x].len() == 1 implies (#[trigger] adj[x][0]).0 != v by {
        if adj[x][0].0 == v {
            let w = adj[x][0].1;
            adj[x].to_multiset_ensures();
            adj[v as int].to_multiset_ensures();
            assert(adj[x].contains((v as usize, w)));
            assert(adj[x as int].to_multiset().count((v as usize, w)) == adj[v as int].to_multiset().count((x as usize, w)));
            assert(adj[v].contains((x as usize, w)));
            assert(adj[v][0] == (x as usize, w));
        }
    }
    lemma_culdesac_ends(adj, v, adj.len() as int);
    lemma_culdesac_edges(adj, adj.len() as int);
    lemma_with_edges_degree(adj, culdesac_edges(adj, adj.len() as int), v);
}

/// Doubles the one edge of every dead end (node of degree one), in node
/// order, on the graph itself.
pub fn fix_culdesacs(g: &mut RoadGraph)
    requires
        well_formed(adjacency(*old(g))),
    ensures
        adjacency(*final(g)) == with_edges(
            adjacency(*old(g)),
            culdesac_edges(adjacency(*old(g)), adjacency(*old(g)).len() as int),
        ),
        well_formed(adjacency(*final(g))),
        adjacency(*final(g)).len() == adjacency(*old(g)).len(),
        extends(adjacency(*old(g)), adjacency(*final(g))),
{
    let ghost adj0 = adjacency(*g);
    let n = node_count(g);
    let mut dups: Vec<(usize, usize, usize)> = Vec::new();
    let mut v: usize = 0;
    while v < n
        invariant
            adjacency(*g) == adj0,
            n == adj0.len(),
            v <= n,
            dups@ == culdesac_edges(adj0, v as int),
        decreases n - v,
    {
        if degree(g, v) == 1 {
            let nb = neighbors(g, v);
            dups.push((v, nb[0].0, nb[0].1));
        }
        v = v + 1;
    }
    proof {
        lemma_culdesac_edges(adj0, n as int);
    }
    let mut i: usize = 0;
    while i < dups.len()
        invariant
            well_formed(adj0),
            n == adj0.len(),
            edges_in_range(adj0, dups@),
            i <= dups.len(),
            adjacency(*g) == with_edges(adj0, dups@.take(i as int)),
        decreases dups.len() - i,
    {
        let e = dups[i];
        proof {
            assert(edges_in_range(adj0, dups@.take(i as int)));
            lemma_with_edges(adj0, dups@.take(i as int));
            assert(dups@.take(i + 1).drop_last() =~= dups@.take(i as int));
        }
        add_edge(g, e.0, e.1, e.2);
        i = i + 1;
    }
    proof {
        assert(dups@.take(dups.len() as int) =~= dups@);
        lemma_with_edges(adj0, dups@);
    }
}

} // verus!
