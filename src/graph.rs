//! The road network: an undirected multigraph of `graph_builder`, seen
//! through its adjacency lists.
use graph_builder::prelude::{
    EdgeMutationWithValues, Graph, GraphBuilder, UndirectedDegrees,
    UndirectedNeighborsWithValues,
};
use graph_builder::UndirectedALGraph;
use vstd::multiset::Multiset;
use vstd::prelude::*;

verus! {

/// A road network: an undirected multigraph of graph_builder with node
/// indices and edge weights in feet. Verus refuses a declaration of the
/// outside graph type (its index bound is an outside trait), so the graph is
/// held here and seen only through `adjacency`.
#[verifier::external_body]
pub struct RoadGraph {
    inner: UndirectedALGraph<usize, (), usize>,
}

/// The adjacency lists of a graph: entry `v` lists, in order, the
/// `(target, weight)` pairs that node `v` holds, one per incident edge end.
pub uninterp spec fn adjacency(g: RoadGraph) -> Seq<Seq<(usize, usize)>>;

/// The edge ends at `v` of an edge list: each edge `(s, t, w)` gives `(t, w)`
/// to `s` and `(s, w)` to `t`.
pub open spec fn incident(es: Seq<(usize, usize, usize)>, v: usize) -> Multiset<(usize, usize)>
    decreases es.len(),
{
    if es.len() == 0 {
        Multiset::empty()
    } else {
        let e = es.last();
        let rest = incident(es.drop_last(), v);
        let a = if e.0 == v { rest.insert((e.1, e.2)) } else { rest };
        if e.1 == v { a.insert((e.0, e.2)) } else { a }
    }
}

/// The node count that a graph built from `es` has: its largest endpoint plus
/// one, and one node for no edges at all.
pub open spec fn built_node_count(es: Seq<(usize, usize, usize)>) -> nat
    decreases es.len(),
{
    if es.len() == 0 {
        1
    } else {
        let e = es.last();
        let m = if e.0 >= e.1 { e.0 as nat } else { e.1 as nat };
        let r = built_node_count(es.drop_last());
        if m + 1 > r { m + 1 } else { r }
    }
}

/// The sum of the adjacency list lengths of the first `k` nodes.
pub open spec fn total_ends(adj: Seq<Seq<(usize, usize)>>, k: int) -> nat
    decreases k,
{
    if k <= 0 {
        0
    } else {
        total_ends(adj, k - 1) + adj[k - 1].len()
    }
}

/// Each end `(t, w)` listed at `v` is matched by an end `(v, w)` listed at
/// `t`, counted with multiplicity: the lists describe undirected edges.
pub open spec fn symmetric(adj: Seq<Seq<(usize, usize)>>) -> bool {
    forall|v: usize, t: usize, w: usize|
        v < adj.len() && t < adj.len() ==> #[trigger] adj[v as int].to_multiset().count((t, w))
            == adj[t as int].to_multiset().count((v, w))
}

/// Whether an edge end points to `t`.
pub open spec fn to_node(t: usize) -> spec_fn((usize, usize)) -> bool {
    |e: (usize, usize)| e.0 == t
}

/// How many ends of a list point to `t`.
pub open spec fn count_to(s: Seq<(usize, usize)>, t: usize) -> nat
    decreases s.len(),
{
    if s.len() == 0 {
        0
    } else {
        count_to(s.drop_last(), t) + if s.last().0 == t { 1nat } else { 0nat }
    }
}

/// Node `v` lists as many ends towards `t` as `t` lists towards `v`, and each
/// node's own loop ends come in pairs.
pub open spec fn paired_ends(adj: Seq<Seq<(usize, usize)>>) -> bool {
    &&& forall|v: usize, t: usize|
        v < adj.len() && t < adj.len() ==> #[trigger] count_to(adj[v as int], t) == count_to(adj[t as int], v)
    &&& forall|v: usize| v < adj.len() ==> #[trigger] count_to(adj[v as int], v) % 2 == 0
}

pub proof fn lemma_count_to_push(s: Seq<(usize, usize)>, x: (usize, usize), t: usize)
    ensures
        count_to(s.push(x), t) == count_to(s, t) + if x.0 == t { 1nat } else { 0nat },
{
    assert(s.push(x).drop_last() =~= s);
}

proof fn lemma_filter_insert(m: Multiset<(usize, usize)>, x: (usize, usize), t: usize)
    ensures
        m.insert(x).filter(to_node(t)).len() == m.filter(to_node(t)).len() + if x.0 == t { 1nat } else { 0nat },
{
    broadcast use vstd::multiset::group_multiset_axioms, vstd::multiset::lemma_insert_len;
    if x.0 == t {
        assert(m.insert(x).filter(to_node(t)) =~= m.filter(to_node(t)).insert(x));
    } else {
        assert(m.insert(x).filter(to_node(t)) =~= m.filter(to_node(t)));
    }
}

proof fn lemma_count_to_multiset(s: Seq<(usize, usize)>, t: usize)
    ensures
        count_to(s, t) == s.to_multiset().filter(to_node(t)).len(),
    decreases s.len(),
{
    broadcast use vstd::multiset::group_multiset_axioms;
    if s.len() == 0 {
        s.to_multiset_ensures();
        assert(s.to_multiset() =~= Multiset::empty());
        assert(Multiset::<(usize, usize)>::empty().filter(to_node(t)) =~= Multiset::empty());
    } else {
        lemma_count_to_multiset(s.drop_last(), t);
        s.drop_last().to_multiset_ensures();
        assert(s.drop_last().push(s.last()) =~= s);
        lemma_filter_insert(s.drop_last().to_multiset(), s.last(), t);
    }
}

/// How many ends towards `t` the edges of `es` give node `v`.
pub open spec fn incident_to(es: Seq<(usize, usize, usize)>, v: usize, t: usize) -> nat
    decreases es.len(),
{
    if es.len() == 0 {
        0
    } else {
        let e = es.last();
        incident_to(es.drop_last(), v, t) + (if e.0 == v && e.1 == t { 1nat } else { 0nat }) + (if e.1 == v && e.0
            == t { 1nat } else { 0nat })
    }
}

proof fn lemma_incident_to(es: Seq<(usize, usize, usize)>, v: usize, t: usize)
    ensures
        incident(es, v).filter(to_node(t)).len() == incident_to(es, v, t),
        incident_to(es, v, t) == incident_to(es, t, v),
        incident_to(es, v, v) % 2 == 0,
    decreases es.len(),
{
    broadcast use vstd::multiset::group_multiset_axioms;
    if es.len() == 0 {
        assert(Multiset::<(usize, usize)>::empty().filter(to_node(t)) =~= Multiset::empty());
    } else {
        let e = es.last();
        let rest = incident(es.drop_last(), v);
        lemma_incident_to(es.drop_last(), v, t);
        let a = if e.0 == v { rest.insert((e.1, e.2)) } else { rest };
        lemma_filter_insert(rest, (e.1, e.2), t);
        lemma_filter_insert(a, (e.0, e.2), t);
    }
}

/// Every edge has two ends, so a graph's adjacency lists hold an even number
/// of entries, every listed target is a node of the graph, and the lists are
/// symmetric.
pub open spec fn well_formed(adj: Seq<Seq<(usize, usize)>>) -> bool {
    &&& symmetric(adj)
    &&& paired_ends(adj)
    &&& total_ends(adj, adj.len() as int) % 2 == 0
    &&& forall|v: int, k: int|
        0 <= v < adj.len() && 0 <= k < adj[v].len() ==> (#[trigger] adj[v][k]).0 < adj.len()
}

/// `new` keeps every edge end of `old`, at the same place in its list.
pub open spec fn extends(old: Seq<Seq<(usize, usize)>>, new: Seq<Seq<(usize, usize)>>) -> bool {
    &&& new.len() == old.len()
    &&& forall|v: int, k: int| 0 <= v < old.len() && 0 <= k < old[v].len() ==> k < new[v].len() && #[trigger] new[v][k] == old[v][k]
}

/// The adjacency lists after one more edge `(a, b, w)`.
pub open spec fn with_edge(adj: Seq<Seq<(usize, usize)>>, a: usize, b: usize, w: usize) -> Seq<
    Seq<(usize, usize)>,
> {
    let adj1 = adj.update(a as int, adj[a as int].push((b, w)));
    adj1.update(b as int, adj1[b as int].push((a, w)))
}

/// The adjacency lists after the edges of `es`, added in order.
pub open spec fn with_edges(adj: Seq<Seq<(usize, usize)>>, es: Seq<(usize, usize, usize)>) -> Seq<
    Seq<(usize, usize)>,
>
    decreases es.len(),
{
    if es.len() == 0 {
        adj
    } else {
        let e = es.last();
        with_edge(with_edges(adj, es.drop_last()), e.0, e.1, e.2)
    }
}

/// The adjacency lists of a graph built from `es`: one node past the largest
/// endpoint, each list holding that node's edge ends in some order, and two
/// ends per edge in all.
pub open spec fn built_from(adj: Seq<Seq<(usize, usize)>>, es: Seq<(usize, usize, usize)>) -> bool {
    &&& adj.len() == built_node_count(es)
    &&& forall|v: int| 0 <= v < adj.len() ==> (#[trigger] adj[v]).to_multiset() == incident(es, v as usize)
    &&& total_ends(adj, adj.len() as int) == 2 * es.len()
}

proof fn lemma_incident_in_range(es: Seq<(usize, usize, usize)>, v: usize, x: (usize, usize))
    requires
        incident(es, v).count(x) > 0,
    ensures
        x.0 < built_node_count(es),
    decreases es.len(),
{
    if es.len() > 0 {
        let e = es.last();
        let rest = incident(es.drop_last(), v);
        if rest.count(x) > 0 {
            lemma_incident_in_range(es.drop_last(), v, x);
        }
    }
}

proof fn lemma_incident_symmetric(es: Seq<(usize, usize, usize)>, v: usize, t: usize, w: usize)
    ensures
        incident(es, v).count((t, w)) == incident(es, t).count((v, w)),
    decreases es.len(),
{
    if es.len() > 0 {
        lemma_incident_symmetric(es.drop_last(), v, t, w);
    }
}

/// A graph built from an edge list is well formed.
pub proof fn lemma_built_well_formed(adj: Seq<Seq<(usize, usize)>>, es: Seq<(usize, usize, usize)>)
    requires
        built_from(adj, es),
    ensures
        well_formed(adj),
{
    assert forall|v: int, k: int| 0 <= v < adj.len() && 0 <= k < adj[v].len() implies (#[trigger] adj[v][k]).0 < adj.len() by {
        adj[v].to_multiset_ensures();
        assert(adj[v].contains(adj[v][k]));
        lemma_incident_in_range(es, v as usize, adj[v][k]);
    }
    assert forall|v: usize, t: usize, w: usize| v < adj.len() && t < adj.len() implies #[trigger] adj[v as int].to_multiset().count((t, w))
        == adj[t as int].to_multiset().count((v, w)) by {
        lemma_incident_symmetric(es, v, t, w);
    }
    assert forall|v: usize, t: usize| v < adj.len() && t < adj.len() implies #[trigger] count_to(adj[v as int], t)
        == count_to(adj[t as int], v) by {
        lemma_count_to_multiset(adj[v as int], t);
        lemma_count_to_multiset(adj[t as int], v);
        lemma_incident_to(es, v, t);
        lemma_incident_to(es, t, v);
    }
    assert forall|v: usize| v < adj.len() implies #[trigger] count_to(adj[v as int], v) % 2 == 0 by {
        lemma_count_to_multiset(adj[v as int], v);
        lemma_incident_to(es, v, v);
    }
}

/// Relies on `GraphBuilder::edges_with_values(..).build()` of graph_builder,
/// in its default unsorted layout: the node count is the largest endpoint
/// plus one (one node for no edges), and each edge `(s, t, w)` is pushed as
/// `(t, w)` onto the list of `s` and as `(s, w)` onto the list of `t`. The
/// lists are filled in parallel, so only their contents are fixed, not their
/// order. Its node tables are allocated up front with one entry per node,
/// and `Vec::with_capacity` panics past `isize::MAX` bytes, so endpoints are
/// kept within the `u32` range.
#[verifier::external_body]
pub(crate) fn build_from_edges(edges: Vec<(usize, usize, usize)>) -> (g: RoadGraph)
    requires
        forall|i: int| 0 <= i < edges.len() ==> (#[trigger] edges[i]).0 <= u32::MAX && edges[i].1
            <= u32::MAX,
    ensures
        built_from(adjacency(g), edges@),
{
    RoadGraph { inner: GraphBuilder::new().edges_with_values(edges).build() }
}

/// Relies on `Graph::node_count` of graph_builder: the number of adjacency
/// lists.
#[verifier::external_body]
pub fn node_count(g: &RoadGraph) -> (r: usize)
    ensures
        r == adjacency(*g).len(),
{
    g.inner.node_count()
}

/// Relies on `UndirectedDegrees::degree` of graph_builder: the length of the
/// node's adjacency list (it indexes the lists, so `v` must be a node).
#[verifier::external_body]
pub fn degree(g: &RoadGraph, v: usize) -> (r: usize)
    requires
        v < adjacency(*g).len(),
    ensures
        r == adjacency(*g)[v as int].len(),
{
    g.inner.degree(v)
}

/// Relies on `UndirectedNeighborsWithValues::neighbors_with_values` of
/// graph_builder: it walks the node's adjacency list in order.
#[verifier::external_body]
pub fn neighbors(g: &RoadGraph, v: usize) -> (r: Vec<(usize, usize)>)
    requires
        v < adjacency(*g).len(),
    ensures
        r@ == adjacency(*g)[v as int],
{
    g.inner.neighbors_with_values(v).map(|t| (t.target, t.value)).collect()
}

/// Relies on `EdgeMutationWithValues::add_edge_with_value_mut` of
/// graph_builder: with both endpoints in range, and in the unsorted layout
/// that every `RoadGraph` is built with, it pushes `(b, w)` onto the list of
/// `a`, then `(a, w)` onto the list of `b`, and returns `Ok`.
#[verifier::external_body]
pub fn add_edge(g: &mut RoadGraph, a: usize, b: usize, w: usize)
    requires
        a < adjacency(*old(g)).len(),
        b < adjacency(*old(g)).len(),
    ensures
        adjacency(*final(g)) == with_edge(adjacency(*old(g)), a, b, w),
{
    let _ = g.inner.add_edge_with_value_mut(a, b, w);
}

} // verus!
