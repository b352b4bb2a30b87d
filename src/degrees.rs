//! Facts about degrees and their parities as edges are added.
use crate::graph::{built_from, count_to, lemma_built_well_formed, lemma_count_to_push, total_ends, well_formed, with_edge, with_edges};
use vstd::prelude::*;

verus! {

/// Whether node `v` has odd degree.
pub open spec fn is_odd(adj: Seq<Seq<(usize, usize)>>, v: int) -> bool {
    adj[v].len() % 2 == 1
}

/// The number of odd-degree nodes among the first `k`.
pub open spec fn odd_count(adj: Seq<Seq<(usize, usize)>>, k: int) -> nat
    decreases k,
{
    if k <= 0 {
        0
    } else {
        odd_count(adj, k - 1) + if is_odd(adj, k - 1) { 1nat } else { 0nat }
    }
}

/// Every node has even degree.
pub open spec fn all_even(adj: Seq<Seq<(usize, usize)>>) -> bool {
    forall|v: int| 0 <= v < adj.len() ==> #[trigger] adj[v].len() % 2 == 0
}

/// Every endpoint of `es` is a node of `adj`.
pub open spec fn edges_in_range(adj: Seq<Seq<(usize, usize)>>, es: Seq<(usize, usize, usize)>) -> bool {
    forall|i: int| 0 <= i < es.len() ==> (#[trigger] es[i]).0 < adj.len() && es[i].1 < adj.len()
}

/// `es` is a walk from `s` to `t`: each edge starts where the one before
/// ended.
pub open spec fn is_walk(es: Seq<(usize, usize, usize)>, s: usize, t: usize) -> bool
    decreases es.len(),
{
    if es.len() == 0 {
        s == t
    } else {
        es.last().1 == t && is_walk(es.drop_last(), s, es.last().0)
    }
}

pub open spec fn ind(b: bool) -> nat {
    if b { 1 } else { 0 }
}

proof fn lemma_total_update(adj: Seq<Seq<(usize, usize)>>, a: int, s: Seq<(usize, usize)>, k: int)
    requires
        0 <= a < adj.len(),
        k <= adj.len(),
    ensures
        total_ends(adj.update(a, s), k) + (if a < k { adj[a].len() } else { 0 }) == total_ends(adj, k)
            + (if a < k { s.len() } else { 0 }),
    decreases k,
{
    if k > 0 {
        lemma_total_update(adj, a, s, k - 1);
    }
}

/// Adding an edge keeps a graph well formed and raises the degree of each
/// endpoint by one (a loop raises its node's by two).
pub proof fn lemma_with_edge(adj: Seq<Seq<(usize, usize)>>, a: usize, b: usize, w: usize)
    requires
        well_formed(adj),
        a < adj.len(),
        b < adj.len(),
    ensures
        with_edge(adj, a, b, w).len() == adj.len(),
        well_formed(with_edge(adj, a, b, w)),
        forall|v: int|
            0 <= v < adj.len() ==> #[trigger] with_edge(adj, a, b, w)[v].len() == adj[v].len() + ind(v == a)
                + ind(v == b),
        forall|v: int, k: int|
            0 <= v < adj.len() && 0 <= k < adj[v].len() ==> #[trigger] with_edge(adj, a, b, w)[v][k] == adj[v][k],
{
    let adj1 = adj.update(a as int, adj[a as int].push((b, w)));
    let adj2 = adj1.update(b as int, adj1[b as int].push((a, w)));
    adj[a as int].to_multiset_ensures();
    adj1[b as int].to_multiset_ensures();
    lemma_count_to_push(adj[a as int], (b, w), a);
    lemma_count_to_push(adj[a as int], (b, w), b);
    lemma_count_to_push(adj1[b as int], (a, w), a);
    lemma_count_to_push(adj1[b as int], (a, w), b);
    assert forall|v: usize, t: usize| v < adj2.len() && t < adj2.len() implies #[trigger] count_to(adj2[v as int], t)
        == count_to(adj2[t as int], v) by {
        lemma_count_to_push(adj[a as int], (b, w), t);
        lemma_count_to_push(adj[a as int], (b, w), v);
        lemma_count_to_push(adj1[b as int], (a, w), t);
        lemma_count_to_push(adj1[b as int], (a, w), v);
        assert(count_to(adj[v as int], t) == count_to(adj[t as int], v));
    }
    assert forall|v: usize| v < adj2.len() implies #[trigger] count_to(adj2[v as int], v) % 2 == 0 by {
        lemma_count_to_push(adj[a as int], (b, w), v);
        lemma_count_to_push(adj1[b as int], (a, w), v);
        assert(count_to(adj[v as int], v) % 2 == 0);
    }
    assert forall|v: usize, t: usize, x: usize| v < adj2.len() && t < adj2.len() implies #[trigger] adj2[v as int].to_multiset().count((t, x))
        == adj2[t as int].to_multiset().count((v, x)) by {
        assert(adj[v as int].to_multiset().count((t, x)) == adj[t as int].to_multiset().count((v, x)));
    }
    lemma_total_update(adj, a as int, adj[a as int].push((b, w)), adj.len() as int);
    lemma_total_update(adj1, b as int, adj1[b as int].push((a, w)), adj.len() as int);
    assert forall|v: int, k: int| 0 <= v < adj2.len() && 0 <= k < adj2[v].len() implies (#[trigger] adj2[v][k]).0
        < adj2.len() by {
        if v == b && k == adj1[v].len() {
        } else if v == a && k == adj[v].len() {
        } else {
        }
    }
}

/// Adding edges keeps a graph well formed, keeps its node count, keeps what
/// each adjacency list held, and never lowers a degree.
pub proof fn lemma_with_edges(adj: Seq<Seq<(usize, usize)>>, es: Seq<(usize, usize, usize)>)
    requires
        well_formed(adj),
        edges_in_range(adj, es),
    ensures
        with_edges(adj, es).len() == adj.len(),
        well_formed(with_edges(adj, es)),
        forall|v: int| 0 <= v < adj.len() ==> #[trigger] with_edges(adj, es)[v].len() >= adj[v].len(),
        forall|v: int, k: int|
            0 <= v < adj.len() && 0 <= k < adj[v].len() ==> #[trigger] with_edges(adj, es)[v][k] == adj[v][k],
    decreases es.len(),
{
    if es.len() > 0 {
        let e = es.last();
        assert(edges_in_range(adj, es.drop_last()));
        lemma_with_edges(adj, es.drop_last());
        lemma_with_edge(with_edges(adj, es.drop_last()), e.0, e.1, e.2);
    }
}

/// Adding the edges of a walk from `s` to `t` flips the parity of `s` and of
/// `t` (of neither when they are the same node) and of no other node.
pub proof fn lemma_walk_parity(adj: Seq<Seq<(usize, usize)>>, es: Seq<(usize, usize, usize)>, s: usize, t: usize)
    requires
        well_formed(adj),
        edges_in_range(adj, es),
        is_walk(es, s, t),
    ensures
        forall|v: int|
            0 <= v < adj.len() ==> (#[trigger] with_edges(adj, es)[v].len()) % 2 == (adj[v].len() + ind(v == s)
                + ind(v == t)) % 2,
    decreases es.len(),
{
    if es.len() > 0 {
        let e = es.last();
        let pre = es.drop_last();
        assert(edges_in_range(adj, pre));
        lemma_walk_parity(adj, pre, s, e.0);
        lemma_with_edges(adj, pre);
        lemma_with_edge(with_edges(adj, pre), e.0, e.1, e.2);
    }
}

proof fn lemma_odd_count_parity(adj: Seq<Seq<(usize, usize)>>, k: int)
    requires
        0 <= k <= adj.len(),
    ensures
        odd_count(adj, k) % 2 == total_ends(adj, k) % 2,
    decreases k,
{
    if k > 0 {
        lemma_odd_count_parity(adj, k - 1);
    }
}

proof fn lemma_single_odd(adj: Seq<Seq<(usize, usize)>>, u: int, k: int)
    requires
        0 <= k <= adj.len(),
        0 <= u < adj.len(),
        is_odd(adj, u),
        forall|b: int| 0 <= b < adj.len() && b != u ==> !#[trigger] is_odd(adj, b),
    ensures
        odd_count(adj, k) == if u < k { 1nat } else { 0nat },
    decreases k,
{
    if k > 0 {
        lemma_single_odd(adj, u, k - 1);
    }
}

/// An odd-degree node is never the only one.
pub proof fn lemma_odd_partner(adj: Seq<Seq<(usize, usize)>>, u: int)
    requires
        well_formed(adj),
        0 <= u < adj.len(),
        is_odd(adj, u),
    ensures
        exists|b: int| 0 <= b < adj.len() && b != u && #[trigger] is_odd(adj, b),
{
    lemma_handshake(adj);
    if forall|b: int| 0 <= b < adj.len() && b != u ==> !#[trigger] is_odd(adj, b) {
        lemma_single_odd(adj, u, adj.len() as int);
    }
}

/// A graph built from an edge list has twice as many edge ends as edges,
/// and an even number of odd-degree nodes.
pub proof fn lemma_handshake_built(adj: Seq<Seq<(usize, usize)>>, es: Seq<(usize, usize, usize)>)
    requires
        built_from(adj, es),
    ensures
        total_ends(adj, adj.len() as int) == 2 * es.len(),
        odd_count(adj, adj.len() as int) % 2 == 0,
{
    lemma_built_well_formed(adj, es);
    lemma_handshake(adj);
}

/// In every graph the number of odd-degree nodes is even.
pub proof fn lemma_handshake(adj: Seq<Seq<(usize, usize)>>)
    requires
        well_formed(adj),
    ensures
        odd_count(adj, adj.len() as int) % 2 == 0,
{
    lemma_odd_count_parity(adj, adj.len() as int);
}

} // verus!
