//! Euler circuits by Hierholzer's algorithm.
use crate::degrees::{all_even, edges_in_range, ind, is_walk};
use crate::paths::{connected, has_edge, listed, reaches, total_weight};
use crate::graph::{adjacency, count_to, paired_ends, neighbors, node_count, well_formed, RoadGraph};
use vstd::multiset::Multiset;
use vstd::prelude::*;

verus! {

/// The number of entries among the first `k` of node `i`'s list that are
/// loops back to `i`.
pub open spec fn loop_ends(adj: Seq<Seq<(usize, usize)>>, i: int, k: int) -> nat
    decreases k,
{
    if k <= 0 {
        0
    } else {
        loop_ends(adj, i, k - 1) + if adj[i][k - 1].0 == i { 1nat } else { 0nat }
    }
}

/// Whether the `k`-th entry of node `i`'s list stands for its edge in the
/// pair list: an edge to a larger node is taken from the smaller end, and
/// a loop, whose two ends both lie in `i`'s list, from its second end.
pub open spec fn takes_entry(adj: Seq<Seq<(usize, usize)>>, i: int, k: int) -> bool {
    adj[i][k].0 > i || (adj[i][k].0 == i && loop_ends(adj, i, k) % 2 == 1)
}

/// The endpoint pairs gathered from the adjacency lists of nodes before `i`
/// and the first `k` entries of node `i`'s list, one per edge.
pub open spec fn pairs_at(adj: Seq<Seq<(usize, usize)>>, i: int, k: int) -> Seq<(usize, usize)>
    decreases i, k,
{
    if i <= 0 && k <= 0 {
        Seq::empty()
    } else if k <= 0 {
        pairs_at(adj, i - 1, adj[i - 1].len() as int)
    } else {
        let acc = pairs_at(adj, i, k - 1);
        if takes_entry(adj, i, k - 1) {
            acc.push((i as usize, adj[i][k - 1].0))
        } else {
            acc
        }
    }
}

/// The edges of a graph as endpoint pairs, one per edge (loops counted by
/// multiplicity), in node order.
pub open spec fn graph_pairs(adj: Seq<Seq<(usize, usize)>>) -> Seq<(usize, usize)> {
    pairs_at(adj, adj.len() as int, 0)
}

/// Gathers the edges of a graph as endpoint pairs, node by node: node `i`
/// contributes `(i, t)` for each listed neighbor `t > i`, and `(i, i)` for
/// every second loop end in its list.
pub fn edge_pairs(g: &RoadGraph) -> (r: Vec<(usize, usize)>)
    requires
        well_formed(adjacency(*g)),
    ensures
        r@ == graph_pairs(adjacency(*g)),
        adjacency(*g).len() <= usize::MAX,
{
    let ghost adj = adjacency(*g);
    let n = node_count(g);
    let mut edges: Vec<(usize, usize)> = Vec::new();
    let mut i: usize = 0;
    while i < n
        invariant
            adj == adjacency(*g),
            n == adj.len(),
            i <= n,
            edges@ == pairs_at(adj, i as int, 0),
        decreases n - i,
    {
        let nbs = neighbors(g, i);
        let mut loops: usize = 0;
        let mut k: usize = 0;
        while k < nbs.len()
            invariant
                adj == adjacency(*g),
                n == adj.len(),
                i < n,
                nbs@ == adj[i as int],
                k <= nbs.len(),
                loops == loop_ends(adj, i as int, k as int),
                loops <= k,
                edges@ == pairs_at(adj, i as int, k as int),
            decreases nbs.len() - k,
        {
            let t = nbs[k].0;
            if t > i || (t == i && loops % 2 == 1) {
                edges.push((i, t));
            }
            if t == i {
                loops = loops + 1;
            }
            k = k + 1;
        }
        assert(pairs_at(adj, i + 1, 0) == pairs_at(adj, i as int, adj[i as int].len() as int));
        i = i + 1;
    }
    edges
}

/// How many ends of edge `e` lie at `v` (two for a loop at `v`).
pub open spec fn ends_at(e: (usize, usize), v: usize) -> nat {
    (if e.0 == v { 1nat } else { 0nat }) + (if e.1 == v { 1nat } else { 0nat })
}

/// The degree of `v` in an edge list.
pub open spec fn list_degree(es: Seq<(usize, usize)>, v: usize) -> nat
    decreases es.len(),
{
    if es.len() == 0 {
        0
    } else {
        list_degree(es.drop_last(), v) + ends_at(es.last(), v)
    }
}

proof fn lemma_degree_update(es: Seq<(usize, usize)>, f: int, x: (usize, usize), v: usize)
    requires
        0 <= f < es.len(),
    ensures
        list_degree(es.update(f, x), v) + ends_at(es[f], v) == list_degree(es, v) + ends_at(x, v),
    decreases es.len(),
{
    if f < es.len() - 1 {
        lemma_degree_update(es.drop_last(), f, x, v);
        assert(es.update(f, x).drop_last() =~= es.drop_last().update(f, x));
    } else {
        assert(es.update(f, x).drop_last() =~= es.drop_last());
    }
}

proof fn lemma_degree_swap_remove(es: Seq<(usize, usize)>, f: int, v: usize)
    requires
        0 <= f < es.len(),
    ensures
        list_degree(es.update(f, es.last()).drop_last(), v) + ends_at(es[f], v) == list_degree(es, v),
{
    lemma_degree_update(es, f, es.last(), v);
    assert(es.update(f, es.last()).last() == es.last());
}

proof fn lemma_degree_untouched(es: Seq<(usize, usize)>, v: usize)
    requires
        forall|j: int| 0 <= j < es.len() ==> (#[trigger] es[j]).0 != v && es[j].1 != v,
    ensures
        list_degree(es, v) == 0,
    decreases es.len(),
{
    if es.len() > 0 {
        lemma_degree_untouched(es.drop_last(), v);
    }
}

/// Some edge of the list joins `a` and `b`, in either direction.
pub open spec fn joined(es: Seq<(usize, usize)>, a: usize, b: usize) -> bool {
    es.contains((a, b)) || es.contains((b, a))
}

/// An edge with its smaller end first, so that both directions compare equal.
pub open spec fn norm(a: usize, b: usize) -> (usize, usize) {
    if a <= b { (a, b) } else { (b, a) }
}

/// The edges of a list, each with its smaller end first.
pub open spec fn norms(es: Seq<(usize, usize)>) -> Multiset<(usize, usize)>
    decreases es.len(),
{
    if es.len() == 0 {
        Multiset::empty()
    } else {
        norms(es.drop_last()).insert(norm(es.last().0, es.last().1))
    }
}

/// The edges that a walk steps along, each with its smaller end first.
pub open spec fn steps(w: Seq<usize>) -> Multiset<(usize, usize)>
    decreases w.len(),
{
    if w.len() < 2 {
        Multiset::empty()
    } else {
        steps(w.drop_last()).insert(norm(w[w.len() - 2], w.last()))
    }
}

proof fn lemma_norms_update(es: Seq<(usize, usize)>, f: int, x: (usize, usize))
    requires
        0 <= f < es.len(),
    ensures
        norms(es.update(f, x)).insert(norm(es[f].0, es[f].1)) =~= norms(es).insert(norm(x.0, x.1)),
    decreases es.len(),
{
    let nf = norm(es[f].0, es[f].1);
    let nx = norm(x.0, x.1);
    let nl = norm(es.last().0, es.last().1);
    if f < es.len() - 1 {
        lemma_norms_update(es.drop_last(), f, x);
        assert(es.update(f, x).drop_last() =~= es.drop_last().update(f, x));
        assert(es.update(f, x).last() == es.last());
        let m = norms(es.drop_last().update(f, x));
        assert(norms(es.update(f, x)) == m.insert(nl));
        assert(m.insert(nf) =~= norms(es.drop_last()).insert(nx));
        assert(m.insert(nl).insert(nf) =~= m.insert(nf).insert(nl));
        assert(norms(es.drop_last()).insert(nx).insert(nl) =~= norms(es.drop_last()).insert(nl).insert(nx));
    } else {
        assert(es.update(f, x).drop_last() =~= es.drop_last());
        assert(es.update(f, x).last() == x);
        let m = norms(es.drop_last());
        assert(m.insert(nx).insert(nf) =~= m.insert(nf).insert(nx));
    }
}

proof fn lemma_norms_swap_remove(es: Seq<(usize, usize)>, f: int)
    requires
        0 <= f < es.len(),
    ensures
        norms(es.update(f, es.last()).drop_last()).insert(norm(es[f].0, es[f].1)) =~= norms(es),
{
    let e2 = es.update(f, es.last());
    let nf = norm(es[f].0, es[f].1);
    let nl = norm(es.last().0, es.last().1);
    lemma_norms_update(es, f, es.last());
    assert(e2.last() == es.last());
    assert(norms(e2) == norms(e2.drop_last()).insert(nl));
    let a = norms(e2.drop_last()).insert(nf);
    assert(a.insert(nl) =~= norms(es).insert(nl));
    assert forall|y: (usize, usize)| a.count(y) == norms(es).count(y) by {
        assert(a.insert(nl).count(y) == norms(es).insert(nl).count(y));
    }
}

/// The edges that the frontier stack and the finished walk account for: the
/// steps of each, and the step that links the walk's last node to the stack
/// node at `anchor`.
pub open spec fn ledger(stack: Seq<usize>, path: Seq<usize>, anchor: int) -> Multiset<(usize, usize)> {
    steps(stack).add(steps(path)).add(
        if path.len() > 0 && stack.len() > 0 {
            Multiset::singleton(norm(path.last(), stack[anchor]))
        } else {
            Multiset::empty()
        },
    )
}

proof fn lemma_ledger_pop(s0: Seq<usize>, p0: Seq<usize>, anchor: int)
    requires
        0 <= anchor < s0.len(),
        p0.len() > 0 ==> s0.last() == s0[anchor],
    ensures
        ledger(s0.drop_last(), p0.push(s0.last()), s0.len() - 2) =~= ledger(s0, p0, anchor),
{
    let top = s0.last();
    let s1 = s0.drop_last();
    let p1 = p0.push(top);
    if p0.len() > 0 {
        assert(p1.drop_last() =~= p0);
        assert(steps(p1) == steps(p0).insert(norm(p0.last(), top)));
    } else {
        assert(steps(p1) =~= Multiset::empty());
    }
    if s1.len() > 0 {
        assert(s0.drop_last() =~= s1);
        assert(steps(s0) == steps(s1).insert(norm(s1.last(), top)));
        assert(norm(s1.last(), top) == norm(top, s1.last()));
    } else {
        assert(steps(s0) =~= Multiset::empty());
    }
}

proof fn lemma_ledger_push(s0: Seq<usize>, p: Seq<usize>, anchor: int, x: usize)
    requires
        0 <= anchor < s0.len(),
    ensures
        ledger(s0.push(x), p, anchor) =~= ledger(s0, p, anchor).insert(norm(s0.last(), x)),
{
    assert(s0.push(x).drop_last() =~= s0);
    assert(s0.push(x)[anchor] == s0[anchor]);
}

/// A sequence of nodes from `s` to `t`, each joined to the next by an edge
/// of the list.
pub open spec fn list_walk(es: Seq<(usize, usize)>, p: Seq<usize>, s: usize, t: usize) -> bool {
    &&& p.len() >= 1
    &&& p[0] == s
    &&& p.last() == t
    &&& forall|i: int| 0 <= i < p.len() - 1 ==> joined(es, #[trigger] p[i], p[i + 1])
}

/// Some walk along edges of the list leads from `s` to `t`.
pub open spec fn list_reaches(es: Seq<(usize, usize)>, s: usize, t: usize) -> bool {
    exists|p: Seq<usize>| #[trigger] list_walk(es, p, s, t)
}

/// Every edge of the list can be reached from `s` along edges of the list.
pub open spec fn list_connected(es: Seq<(usize, usize)>, s: usize) -> bool {
    forall|j: int| 0 <= j < es.len() ==> #[trigger] list_reaches(es, s, es[j].0)
}

proof fn lemma_walk_visited(
    es: Seq<(usize, usize)>,
    work: Seq<(usize, usize)>,
    path: Seq<usize>,
    p: Seq<usize>,
    s: usize,
    t: usize,
    n: int,
)
    requires
        list_walk(es, p, s, t),
        1 <= n <= p.len(),
        path.contains(s),
        forall|x: usize| #[trigger] path.contains(x) ==> forall|j: int| 0 <= j < work.len() ==> (#[trigger] work[j]).0 != x && work[j].1 != x,
        forall|j: int| 0 <= j < es.len() ==> work.contains(#[trigger] es[j]) || (path.contains(es[j].0) && path.contains(es[j].1)),
    ensures
        path.contains(p[n - 1]),
    decreases n,
{
    if n > 1 {
        lemma_walk_visited(es, work, path, p, s, t, n - 1);
        let a = p[n - 2];
        let b = p[n - 1];
        assert(joined(es, p[n - 2], p[n - 1]));
        let d = if es.contains((a, b)) { (a, b) } else { (b, a) };
        assert(es.contains(d));
        let j = choose|j: int| 0 <= j < es.len() && es[j] == d;
        if work.contains(es[j]) {
            let i = choose|i: int| 0 <= i < work.len() && work[i] == es[j];
            assert(work[i].0 != a && work[i].1 != a);
        }
    }
}

/// The first index at or after `j` whose edge has an end at `v`.
pub open spec fn first_touch(work: Seq<(usize, usize)>, v: usize, j: int) -> Option<int>
    decreases work.len() - j,
{
    if j < 0 || j >= work.len() {
        None
    } else if work[j].0 == v || work[j].1 == v {
        Some(j)
    } else {
        first_touch(work, v, j + 1)
    }
}

/// The walk that Hierholzer's algorithm produces from the state (unused
/// edges, frontier stack, finished walk): the top node takes its first unused
/// edge in list order (the last edge fills its place) and pushes the other
/// end, or, with none left, moves to the walk.
pub open spec fn hierholzer_run(work: Seq<(usize, usize)>, stack: Seq<usize>, path: Seq<usize>) -> Seq<usize>
    decreases 2 * work.len() + stack.len(),
{
    if stack.len() == 0 {
        path
    } else {
        let v = stack.last();
        match first_touch(work, v, 0) {
            None => hierholzer_run(work, stack.drop_last(), path.push(v)),
            Some(f) => if 0 <= f < work.len() {
                let e = work[f];
                let x = if e.0 == v { e.1 } else { e.0 };
                hierholzer_run(work.update(f, work.last()).drop_last(), stack.push(x), path)
            } else {
                path
            },
        }
    }
}

proof fn lemma_first_touch_skip(work: Seq<(usize, usize)>, v: usize, j: int)
    requires
        0 <= j <= work.len(),
        forall|i: int| 0 <= i < j ==> (#[trigger] work[i]).0 != v && work[i].1 != v,
    ensures
        first_touch(work, v, 0) == first_touch(work, v, j),
    decreases j,
{
    if j > 0 {
        lemma_first_touch_skip(work, v, j - 1);
    }
}

proof fn lemma_norms_witness(es: Seq<(usize, usize)>, x: (usize, usize))
    requires
        norms(es).count(x) > 0,
    ensures
        exists|i: int| 0 <= i < es.len() && norm((#[trigger] es[i]).0, es[i].1) == x,
    decreases es.len(),
{
    if es.len() > 0 && norm(es.last().0, es.last().1) != x {
        lemma_norms_witness(es.drop_last(), x);
        let i = choose|i: int| 0 <= i < es.drop_last().len() && norm((#[trigger] es.drop_last()[i]).0, es.drop_last()[i].1) == x;
        assert(es[i] == es.drop_last()[i]);
    } else if es.len() > 0 {
        assert(norm(es[es.len() - 1].0, es[es.len() - 1].1) == x);
    }
}

/// Runs Hierholzer's algorithm on `edges` from `start`: while the frontier
/// stack is not empty, its top node either has an unused edge (the first in
/// the working list), which is taken out of the list (its place filled by
/// the last edge) and whose other end is pushed, or has none and moves to the
/// walk. The walk ends at `start` and holds one node more than the edges it
/// used.
#[verifier::rlimit(80)]
pub fn hierholzer(edges: Vec<(usize, usize)>, start: usize) -> (r: Vec<usize>)
    ensures
        1 <= r.len() <= edges.len() + 1,
        r[r.len() - 1] == start,
        (forall|j: int| 0 <= j < edges.len() ==> (#[trigger] edges[j]).0 != start && edges[j].1 != start) ==> r@
            == seq![start],
        (forall|v: usize| #[trigger] list_degree(edges@, v) % 2 == 0) ==> r[0] == start,
        (forall|v: usize| #[trigger] list_degree(edges@, v) % 2 == 0) ==> forall|i: int|
            0 <= i < r.len() - 1 ==> joined(edges@, #[trigger] r[i], r[i + 1]),
        (forall|v: usize| #[trigger] list_degree(edges@, v) % 2 == 0) ==> steps(r@).subset_of(norms(edges@)),
        (forall|v: usize| #[trigger] list_degree(edges@, v) % 2 == 0) && r.len() == edges.len() + 1 ==> steps(r@)
            =~= norms(edges@),
        list_connected(edges@, start) ==> r.len() == edges.len() + 1,
        (forall|v: usize| #[trigger] list_degree(edges@, v) % 2 == 0) ==> forall|k: int|
            0 <= k < edges.len() && #[trigger] list_reaches(edges@, start, edges@[k].0) ==> steps(r@).count(
                norm(edges@[k].0, edges@[k].1),
            ) == norms(edges@).count(norm(edges@[k].0, edges@[k].1)),
        r@ == hierholzer_run(edges@, seq![start], Seq::empty()),
{
    let ghost total = edges.len();
    let ghost isolated = forall|j: int| 0 <= j < edges.len() ==> (#[trigger] edges[j]).0 != start && edges[j].1 != start;
    let ghost even = forall|v: usize| #[trigger] list_degree(edges@, v) % 2 == 0;
    let ghost mut anchor: int = 0;
    let ghost mut used: Multiset<(usize, usize)> = Multiset::empty();
    let mut work = edges;
    let mut path: Vec<usize> = Vec::new();
    let mut stack: Vec<usize> = Vec::new();
    stack.push(start);
    assert(stack@ =~= seq![start]);
    assert(path@ =~= Seq::<usize>::empty());
    while stack.len() > 0
        invariant
            work.len() <= total,
            path.len() + stack.len() == 1 + total - work.len(),
            stack.len() > 0 ==> stack[0] == start,
            stack.len() == 0 ==> path.len() > 0 && path[path.len() - 1] == start,
            isolated ==> work.len() == total && (forall|j: int| 0 <= j < work.len() ==> (#[trigger] work[j]).0 != start && work[j].1 != start),
            isolated ==> path.len() == 0 && stack@ == seq![start] || path@ == seq![start] && stack.len() == 0,
            forall|j: int| 0 <= j < work.len() ==> edges@.contains(#[trigger] work@[j]),
            forall|i: int| 0 <= i < stack.len() - 1 ==> joined(edges@, #[trigger] stack@[i], stack@[i + 1]),
            path.len() == 0 ==> anchor == 0,
            even && stack.len() > 0 ==> 0 <= anchor < stack.len() && forall|v: usize| (#[trigger] list_degree(work@, v)) % 2 == (ind(
                v == stack@[anchor],
            ) + ind(v == stack@[stack.len() - 1])) % 2,
            even && path.len() > 0 && stack.len() > 0 ==> joined(edges@, path@[path.len() - 1], stack@[anchor]),
            even && path.len() > 0 ==> path[0] == start,
            even ==> forall|i: int| 0 <= i < path.len() - 1 ==> joined(edges@, #[trigger] path@[i], path@[i + 1]),
            norms(work@).add(used) == norms(edges@),
            hierholzer_run(work@, stack@, path@) == hierholzer_run(edges@, seq![start], Seq::empty()),
            forall|x: usize| #[trigger] path@.contains(x) ==> forall|j: int| 0 <= j < work.len() ==> (#[trigger] work@[j]).0 != x && work@[j].1 != x,
            forall|j: int| 0 <= j < edges.len() ==> work@.contains(#[trigger] edges@[j]) || ((stack@.contains(edges@[j].0) || path@.contains(edges@[j].0)) && (stack@.contains(edges@[j].1) || path@.contains(edges@[j].1))),
            even ==> ledger(stack@, path@, anchor) == used,
        decreases 2 * work.len() + stack.len(),
    {
        let v = stack[stack.len() - 1];
        let mut found: Option<usize> = None;
        let mut j: usize = 0;
        while j < work.len()
            invariant
                j <= work.len(),
                found matches Some(f) ==> f < work.len() && (work[f as int].0 == v || work[f as int].1 == v),
                found is None ==> forall|i: int| 0 <= i < j ==> (#[trigger] work[i]).0 != v && work[i].1 != v,
                found matches Some(f) ==> first_touch(work@, v, 0) == Some(f as int),
            decreases work.len() - j,
        {
            if found.is_none() && (work[j].0 == v || work[j].1 == v) {
                proof {
                    lemma_first_touch_skip(work@, v, j as int);
                }
                found = Some(j);
            }
            j = j + 1;
        }
        match found {
            None => {
                proof {
                    lemma_degree_untouched(work@, v);
                    lemma_first_touch_skip(work@, v, work.len() as int);
                    assert(stack@.last() == v);
                }
                let ghost s0 = stack@;
                let ghost p0 = path@;
                let top = stack.pop().unwrap();
                path.push(top);
                proof {
                    assert(stack@ =~= s0.drop_last());
                    assert(path@ =~= p0.push(top));
                    if even {
                        assert(top == s0[anchor]);
                        lemma_ledger_pop(s0, p0, anchor);
                    }
                    anchor = stack.len() - 1;
                    assert forall|x: usize| #[trigger] path@.contains(x) implies forall|j: int| 0 <= j < work.len() ==> (#[trigger] work@[j]).0 != x && work@[j].1 != x by {
                        if x != top {
                            let i = choose|i: int| 0 <= i < path@.len() && path@[i] == x;
                            assert(p0[i] == x);
                            assert(p0.contains(x));
                        }
                    }
                    assert forall|y: usize| #[trigger] s0.contains(y) implies stack@.contains(y) || path@.contains(y) by {
                        let i = choose|i: int| 0 <= i < s0.len() && s0[i] == y;
                        if i == s0.len() - 1 {
                            assert(path@[path@.len() - 1] == y);
                        } else {
                            assert(stack@[i] == y);
                        }
                    }
                    assert forall|y: usize| #[trigger] p0.contains(y) implies path@.contains(y) by {
                        let i = choose|i: int| 0 <= i < p0.len() && p0[i] == y;
                        assert(path@[i] == y);
                    }
                }
            },
            Some(f) => {
                let ghost before = work@;
                proof {
                    assert forall|x: usize| #[trigger] list_degree(before.update(f as int, before.last()).drop_last(), x) + ends_at(before[f as int], x) == list_degree(before, x) by {
                        lemma_degree_swap_remove(before, f as int, x);
                    }
                }
                let ghost s0 = stack@;
                let ghost p0 = path@;
                let e = work.swap_remove(f);
                assert(work@ =~= before.update(f as int, before.last()).drop_last());
                proof {
                    lemma_norms_swap_remove(before, f as int);
                    used = used.insert(norm(e.0, e.1));
                }
                assert(before.contains(e));
                assert(edges@.contains(e));
                if e.0 == v {
                    stack.push(e.1);
                } else {
                    stack.push(e.0);
                }
                assert(stack@ =~= s0.push(stack@[stack.len() - 1]));
                assert(hierholzer_run(work@, stack@, path@) == hierholzer_run(before, s0, p0)) by {
                    assert(s0.last() == v);
                    assert(before[f as int] == e);
                }
                proof {
                    assert(norm(v, stack@[stack.len() - 1]) == norm(e.0, e.1));
                    if even {
                        lemma_ledger_push(s0, path@, anchor, stack@[stack.len() - 1]);
                    }
                }
                proof {
                    assert forall|y: (usize, usize)| #[trigger] work@.contains(y) implies before.contains(y) by {
                        let i = choose|i: int| 0 <= i < work@.len() && work@[i] == y;
                        if i == f {
                            assert(before[before.len() - 1] == y);
                        } else {
                            assert(before[i] == y);
                        }
                    }
                    assert forall|y: (usize, usize)| #[trigger] before.contains(y) && !work@.contains(y) implies y == e by {
                        let i = choose|i: int| 0 <= i < before.len() && before[i] == y;
                        if i != f {
                            if i == before.len() - 1 {
                                assert(work@[f as int] == y);
                            } else {
                                assert(work@[i] == y);
                            }
                        }
                    }
                    assert forall|y: usize| #[trigger] s0.contains(y) implies stack@.contains(y) by {
                        let i = choose|i: int| 0 <= i < s0.len() && s0[i] == y;
                        assert(stack@[i] == y);
                    }
                    assert(s0.contains(v));
                    assert(stack@[stack.len() - 1] == e.0 || stack@[stack.len() - 1] == e.1);
                    assert(stack@.contains(stack@[stack.len() - 1]));
                }
                assert forall|j: int| 0 <= j < work.len() implies edges@.contains(#[trigger] work@[j]) by {
                    if j == f {
                        assert(before.contains(before.last()));
                    } else {
                        assert(before.contains(before[j]));
                    }
                }
            },
        }
    }
    proof {
        assert(path@[path.len() - 1] == start);
        assert(path@.contains(start));
        assert forall|k: int| 0 <= k < edges.len() implies work@.contains(#[trigger] edges@[k]) || (path@.contains(edges@[k].0) && path@.contains(edges@[k].1)) by {
            if !work@.contains(edges@[k]) {
                assert(!stack@.contains(edges@[k].0));
                assert(!stack@.contains(edges@[k].1));
            }
        }
        assert forall|k: int| 0 <= k < edges.len() && #[trigger] list_reaches(edges@, start, edges@[k].0) implies norms(work@).count(norm(edges@[k].0, edges@[k].1)) == 0 by {
            let p = choose|p: Seq<usize>| #[trigger] list_walk(edges@, p, start, edges@[k].0);
            lemma_walk_visited(edges@, work@, path@, p, start, edges@[k].0, p.len() as int);
            if norms(work@).count(norm(edges@[k].0, edges@[k].1)) > 0 {
                lemma_norms_witness(work@, norm(edges@[k].0, edges@[k].1));
                let i = choose|i: int| 0 <= i < work.len() && norm((#[trigger] work@[i]).0, work@[i].1) == norm(edges@[k].0, edges@[k].1);
                assert(work@[i].0 == edges@[k].0 || work@[i].1 == edges@[k].0);
            }
        }
        if list_connected(edges@, start) && work.len() > 0 {
            let e = work@[0];
            assert(edges@.contains(e));
            let j = choose|j: int| 0 <= j < edges.len() && edges@[j] == e;
            assert(list_reaches(edges@, start, edges@[j].0));
            let p = choose|p: Seq<usize>| #[trigger] list_walk(edges@, p, start, edges@[j].0);
            assert(path@[path.len() - 1] == start);
            assert(path@.contains(start));
            assert forall|k: int| 0 <= k < edges.len() implies work@.contains(#[trigger] edges@[k]) || (path@.contains(edges@[k].0) && path@.contains(edges@[k].1)) by {
                if !work@.contains(edges@[k]) {
                    assert(!stack@.contains(edges@[k].0));
                    assert(!stack@.contains(edges@[k].1));
                }
            }
            lemma_walk_visited(edges@, work@, path@, p, start, edges@[j].0, p.len() as int);
            assert(path@.contains(e.0));
            assert(work@[0].0 != e.0);
        }
        if even {
            assert(steps(stack@) =~= Multiset::empty());
            assert(ledger(stack@, path@, anchor) =~= steps(path@));
            if path.len() == total + 1 {
                assert(work.len() == 0);
                assert(norms(work@) =~= Multiset::empty());
            }
        }
    }
    path
}

/// The circuit of an eulerized graph, from node 0: the walk of Hierholzer's
/// algorithm over its edges, one pair per edge.
pub fn find_cycle(g: &RoadGraph) -> (r: Vec<usize>)
    requires
        well_formed(adjacency(*g)),
    ensures
        1 <= r.len() <= graph_pairs(adjacency(*g)).len() + 1,
        r[r.len() - 1] == 0,
        (forall|v: usize| #[trigger] list_degree(graph_pairs(adjacency(*g)), v) % 2 == 0) ==> {
            &&& r[0] == 0
            &&& forall|i: int| 0 <= i < r.len() - 1 ==> joined(graph_pairs(adjacency(*g)), #[trigger] r[i], r[i + 1])
            &&& steps(r@).subset_of(norms(graph_pairs(adjacency(*g))))
            &&& r.len() == graph_pairs(adjacency(*g)).len() + 1 ==> steps(r@) =~= norms(graph_pairs(adjacency(*g)))
        },
        list_connected(graph_pairs(adjacency(*g)), 0) ==> r.len() == graph_pairs(adjacency(*g)).len() + 1,
        r@ == hierholzer_run(graph_pairs(adjacency(*g)), seq![0usize], Seq::empty()),
        all_even(adjacency(*g)) ==> {
            &&& r[0] == 0
            &&& forall|i: int| 0 <= i < r.len() - 1 ==> joined(graph_pairs(adjacency(*g)), #[trigger] r[i], r[i + 1])
            &&& steps(r@).subset_of(norms(graph_pairs(adjacency(*g))))
            &&& forall|k: int|
                0 <= k < graph_pairs(adjacency(*g)).len() && #[trigger] list_reaches(
                    graph_pairs(adjacency(*g)),
                    0,
                    graph_pairs(adjacency(*g))[k].0,
                ) ==> steps(r@).count(norm(graph_pairs(adjacency(*g))[k].0, graph_pairs(adjacency(*g))[k].1))
                    == norms(graph_pairs(adjacency(*g))).count(
                    norm(graph_pairs(adjacency(*g))[k].0, graph_pairs(adjacency(*g))[k].1),
                )
        },
        all_even(adjacency(*g)) && connected(adjacency(*g)) ==> {
            &&& r.len() == graph_pairs(adjacency(*g)).len() + 1
            &&& r[0] == 0
            &&& r[r.len() - 1] == 0
            &&& forall|i: int| 0 <= i < r.len() - 1 ==> joined(graph_pairs(adjacency(*g)), #[trigger] r[i], r[i + 1])
            &&& steps(r@) =~= norms(graph_pairs(adjacency(*g)))
        },
{
    let edges = edge_pairs(g);
    let r = hierholzer(edges, 0);
    proof {
        let adj = adjacency(*g);
        if all_even(adj) {
            lemma_pairs_even(adj);
        }
        if all_even(adj) && connected(adj) {
            if adj.len() >= 1 {
                lemma_connected_pairs(adj);
            } else {
                assert(graph_pairs(adj).len() == 0);
            }
        }
    }
    r
}

/// How many ends of a list point below `v`.
pub open spec fn count_below(s: Seq<(usize, usize)>, v: usize) -> nat
    decreases s.len(),
{
    if s.len() == 0 {
        0
    } else {
        count_below(s.drop_last(), v) + if s.last().0 < v { 1nat } else { 0nat }
    }
}

/// How many ends of a list point above `v`.
pub open spec fn count_above(s: Seq<(usize, usize)>, v: usize) -> nat
    decreases s.len(),
{
    if s.len() == 0 {
        0
    } else {
        count_above(s.drop_last(), v) + if s.last().0 > v { 1nat } else { 0nat }
    }
}

/// How many ends towards `v` the lists of the first `i` nodes hold.
pub open spec fn ends_from_below(adj: Seq<Seq<(usize, usize)>>, v: usize, i: int) -> nat
    decreases i,
{
    if i <= 0 {
        0
    } else {
        ends_from_below(adj, v, i - 1) + count_to(adj[i - 1], v)
    }
}

proof fn lemma_count_partition(s: Seq<(usize, usize)>, v: usize)
    ensures
        count_below(s, v) + count_to(s, v) + count_above(s, v) == s.len(),
        count_below(s, (v + 1) as usize) == count_below(s, v) + count_to(s, v) || v == usize::MAX,
    decreases s.len(),
{
    if s.len() > 0 {
        lemma_count_partition(s.drop_last(), v);
    }
}

proof fn lemma_ends_from_below(adj: Seq<Seq<(usize, usize)>>, v: usize, i: int)
    requires
        paired_ends(adj),
        v < adj.len(),
        0 <= i <= v,
    ensures
        ends_from_below(adj, v, i) == count_below(adj[v as int], i as usize),
    decreases i,
{
    if i > 0 {
        lemma_ends_from_below(adj, v, i - 1);
        lemma_count_partition(adj[v as int], (i - 1) as usize);
        assert(count_to(adj[i - 1], v) == count_to(adj[v as int], (i - 1) as usize));
    } else {
        lemma_count_partition(adj[v as int], 0);
        assert(count_below(adj[v as int], 0) == 0) by {
            lemma_count_below_zero(adj[v as int]);
        }
    }
}

proof fn lemma_count_below_zero(s: Seq<(usize, usize)>)
    ensures
        count_below(s, 0) == 0,
    decreases s.len(),
{
    if s.len() > 0 {
        lemma_count_below_zero(s.drop_last());
    }
}

proof fn lemma_loop_ends(adj: Seq<Seq<(usize, usize)>>, i: int, k: int)
    requires
        0 <= i < adj.len(),
        i <= usize::MAX,
        0 <= k <= adj[i].len(),
    ensures
        loop_ends(adj, i, k) == count_to(adj[i].take(k), i as usize),
    decreases k,
{
    if k == 0 {
        assert(adj[i].take(0) =~= Seq::<(usize, usize)>::empty());
    } else {
        lemma_loop_ends(adj, i, k - 1);
        assert(adj[i].take(k).drop_last() =~= adj[i].take(k - 1));
    }
}

/// What the pair list gathered up to node `i`, entry `k`, gives node `v`.
pub open spec fn pairs_degree(adj: Seq<Seq<(usize, usize)>>, v: usize, i: int, k: int) -> nat {
    if i < v {
        ends_from_below(adj, v, i) + count_to(adj[i].take(k), v)
    } else if i == v {
        ends_from_below(adj, v, v as int) + count_above(adj[i].take(k), v) + 2 * (loop_ends(adj, i, k) / 2)
    } else {
        ends_from_below(adj, v, v as int) + count_above(adj[v as int], v) + 2 * (loop_ends(
            adj,
            v as int,
            adj[v as int].len() as int,
        ) / 2)
    }
}

proof fn lemma_list_degree_push(s: Seq<(usize, usize)>, x: (usize, usize), v: usize)
    ensures
        list_degree(s.push(x), v) == list_degree(s, v) + ends_at(x, v),
{
    assert(s.push(x).drop_last() =~= s);
}

proof fn lemma_pairs_degree(adj: Seq<Seq<(usize, usize)>>, v: usize, i: int, k: int)
    requires
        well_formed(adj),
        v < adj.len(),
        0 <= i <= adj.len(),
        i < adj.len() ==> 0 <= k <= adj[i].len(),
        i == adj.len() ==> k == 0,
    ensures
        list_degree(pairs_at(adj, i, k), v) == pairs_degree(adj, v, i, k),
    decreases i, k,
{
    if i <= 0 && k <= 0 {
    } else if k <= 0 {
        lemma_pairs_degree(adj, v, i - 1, adj[i - 1].len() as int);
        assert(adj[i - 1].take(adj[i - 1].len() as int) =~= adj[i - 1]);
        assert(adj[i].take(0) =~= Seq::<(usize, usize)>::empty());
    } else {
        lemma_pairs_degree(adj, v, i, k - 1);
        let acc = pairs_at(adj, i, k - 1);
        let t = adj[i][k - 1].0;
        assert(adj[i].take(k).drop_last() =~= adj[i].take(k - 1));
        assert(adj[i].take(k).last() == adj[i][k - 1]);
        lemma_list_degree_push(acc, (i as usize, t), v);
        assert(t < adj.len());
    }
}

/// In a well-formed graph the pair list gives every node exactly its
/// degree: each edge is one pair, loops included.
pub proof fn lemma_pairs_degree_exact(adj: Seq<Seq<(usize, usize)>>, v: usize)
    requires
        well_formed(adj),
        v < adj.len(),
    ensures
        list_degree(graph_pairs(adj), v) == adj[v as int].len(),
{
    lemma_pairs_degree(adj, v, adj.len() as int, 0);
    lemma_ends_from_below(adj, v, v as int);
    lemma_loop_ends(adj, v as int, adj[v as int].len() as int);
    assert(adj[v as int].take(adj[v as int].len() as int) =~= adj[v as int]);
    lemma_count_partition(adj[v as int], v);
}

proof fn lemma_pairs_in_range(adj: Seq<Seq<(usize, usize)>>, i: int, k: int)
    requires
        well_formed(adj),
        0 <= i <= adj.len(),
        i < adj.len() ==> 0 <= k <= adj[i].len(),
        i == adj.len() ==> k == 0,
        adj.len() <= usize::MAX,
    ensures
        forall|j: int| 0 <= j < pairs_at(adj, i, k).len() ==> (#[trigger] pairs_at(adj, i, k)[j]).0 < adj.len()
            && pairs_at(adj, i, k)[j].1 < adj.len(),
    decreases i, k,
{
    if i <= 0 && k <= 0 {
        assert(pairs_at(adj, i, k).len() == 0);
    } else if k <= 0 {
        lemma_pairs_in_range(adj, i - 1, adj[i - 1].len() as int);
        assert(pairs_at(adj, i, k) == pairs_at(adj, i - 1, adj[i - 1].len() as int));
    } else {
        lemma_pairs_in_range(adj, i, k - 1);
        assert(adj[i][k - 1].0 < adj.len());
        let acc = pairs_at(adj, i, k - 1);
        let now = pairs_at(adj, i, k);
        assert forall|j: int| 0 <= j < now.len() implies (#[trigger] now[j]).0 < adj.len() && now[j].1 < adj.len() by {
            if j < acc.len() {
                assert(now[j] == acc[j]);
            }
        }
    }
}

proof fn lemma_pairs_grow(adj: Seq<Seq<(usize, usize)>>, i: int, k: int, i2: int, k2: int, p: (usize, usize))
    requires
        0 <= i <= i2 <= adj.len(),
        i < adj.len() ==> 0 <= k <= adj[i].len(),
        i == adj.len() ==> k == 0,
        i2 < adj.len() ==> 0 <= k2 <= adj[i2].len(),
        i2 == adj.len() ==> k2 == 0,
        i == i2 ==> k <= k2,
        pairs_at(adj, i, k).contains(p),
    ensures
        pairs_at(adj, i2, k2).contains(p),
    decreases i2, k2,
{
    if i == i2 && k == k2 {
    } else if k2 > 0 {
        lemma_pairs_grow(adj, i, k, i2, k2 - 1, p);
        let acc = pairs_at(adj, i2, k2 - 1);
        if takes_entry(adj, i2, k2 - 1) {
            let j = choose|j: int| 0 <= j < acc.len() && acc[j] == p;
            assert(acc.push((i2 as usize, adj[i2][k2 - 1].0))[j] == p);
        }
    } else {
        lemma_pairs_grow(adj, i, k, i2 - 1, adj[i2 - 1].len() as int, p);
    }
}

proof fn lemma_taken_in_pairs(adj: Seq<Seq<(usize, usize)>>, i: int, k: int)
    requires
        0 <= i < adj.len(),
        0 <= k < adj[i].len(),
        takes_entry(adj, i, k),
    ensures
        graph_pairs(adj).contains((i as usize, adj[i][k].0)),
{
    let acc = pairs_at(adj, i, k);
    assert(pairs_at(adj, i, k + 1)[acc.len() as int] == (i as usize, adj[i][k].0));
    lemma_pairs_grow(adj, i, k + 1, adj.len() as int, 0, (i as usize, adj[i][k].0));
}

proof fn lemma_count_to_index(s: Seq<(usize, usize)>, t: usize)
    requires
        count_to(s, t) > 0,
    ensures
        exists|k: int| 0 <= k < s.len() && (#[trigger] s[k]).0 == t,
    decreases s.len(),
{
    if s.last().0 != t {
        lemma_count_to_index(s.drop_last(), t);
        let k = choose|k: int| 0 <= k < s.drop_last().len() && (#[trigger] s.drop_last()[k]).0 == t;
        assert(s[k] == s.drop_last()[k]);
    } else {
        assert(s[s.len() - 1].0 == t);
    }
}

proof fn lemma_count_to_of_index(s: Seq<(usize, usize)>, k: int)
    requires
        0 <= k < s.len(),
    ensures
        count_to(s, s[k].0) > 0,
    decreases s.len(),
{
    if k < s.len() - 1 {
        lemma_count_to_of_index(s.drop_last(), k);
    }
}

proof fn lemma_second_loop(adj: Seq<Seq<(usize, usize)>>, i: int, m: int)
    requires
        0 <= i < adj.len(),
        0 <= m <= adj[i].len(),
        loop_ends(adj, i, m) >= 2,
    ensures
        exists|k: int| 0 <= k < m && adj[i][k].0 == i && #[trigger] loop_ends(adj, i, k) == 1,
    decreases m,
{
    if loop_ends(adj, i, m - 1) >= 2 {
        lemma_second_loop(adj, i, m - 1);
        let k = choose|k: int| 0 <= k < m - 1 && adj[i][k].0 == i && #[trigger] loop_ends(adj, i, k) == 1;
        assert(loop_ends(adj, i, k) == 1);
    } else {
        assert(loop_ends(adj, i, m - 1) == 1);
    }
}

/// Every edge that a node lists appears in the pair list, in one direction
/// or the other.
pub proof fn lemma_listed_edge_joined(adj: Seq<Seq<(usize, usize)>>, x: usize, y: usize, w: usize)
    requires
        well_formed(adj),
        adj.len() <= usize::MAX,
        x < adj.len(),
        has_edge(adj, x, y, w),
    ensures
        joined(graph_pairs(adj), x, y),
{
    let k = choose|k: int| 0 <= k < adj[x as int].len() && adj[x as int][k] == (y, w);
    assert(adj[x as int][k].0 < adj.len());
    if x < y {
        lemma_taken_in_pairs(adj, x as int, k);
    } else if x > y {
        lemma_count_to_of_index(adj[x as int], k);
        assert(count_to(adj[x as int], y) == count_to(adj[y as int], x));
        lemma_count_to_index(adj[y as int], x);
        let k2 = choose|k2: int| 0 <= k2 < adj[y as int].len() && (#[trigger] adj[y as int][k2]).0 == x;
        lemma_taken_in_pairs(adj, y as int, k2);
    } else {
        lemma_count_to_of_index(adj[x as int], k);
        lemma_loop_ends(adj, x as int, adj[x as int].len() as int);
        assert(adj[x as int].take(adj[x as int].len() as int) =~= adj[x as int]);
        assert(count_to(adj[x as int], x) % 2 == 0);
        lemma_second_loop(adj, x as int, adj[x as int].len() as int);
        let k2 = choose|k2: int| 0 <= k2 < adj[x as int].len() && adj[x as int][k2].0 == x && #[trigger] loop_ends(adj, x as int, k2) == 1;
        lemma_taken_in_pairs(adj, x as int, k2);
    }
}

/// The nodes that a walk passes, from `s`.
pub open spec fn walk_nodes(es: Seq<(usize, usize, usize)>, s: usize) -> Seq<usize>
    decreases es.len(),
{
    if es.len() == 0 {
        seq![s]
    } else {
        walk_nodes(es.drop_last(), s).push(es.last().1)
    }
}

proof fn lemma_walk_to_list(adj: Seq<Seq<(usize, usize)>>, es: Seq<(usize, usize, usize)>, s: usize, t: usize)
    requires
        well_formed(adj),
        adj.len() <= usize::MAX,
        is_walk(es, s, t),
        edges_in_range(adj, es),
        listed(adj, es),
    ensures
        list_walk(graph_pairs(adj), walk_nodes(es, s), s, t),
    decreases es.len(),
{
    if es.len() > 0 {
        let e = es.last();
        assert(edges_in_range(adj, es.drop_last()));
        assert(listed(adj, es.drop_last())) by {
            assert forall|i: int| 0 <= i < es.drop_last().len() implies has_edge(adj, (#[trigger] es.drop_last()[i]).0, es.drop_last()[i].1, es.drop_last()[i].2) by {
                assert(es.drop_last()[i] == es[i]);
            }
        }
        lemma_walk_to_list(adj, es.drop_last(), s, e.0);
        assert(has_edge(adj, es[es.len() - 1].0, es[es.len() - 1].1, es[es.len() - 1].2));
        lemma_listed_edge_joined(adj, e.0, e.1, e.2);
        let p = walk_nodes(es.drop_last(), s);
        let q = walk_nodes(es, s);
        assert forall|i: int| 0 <= i < q.len() - 1 implies joined(graph_pairs(adj), #[trigger] q[i], q[i + 1]) by {
            if i < p.len() - 1 {
                assert(q[i] == p[i] && q[i + 1] == p[i + 1]);
            } else {
                assert(q[i] == p.last());
            }
        }
    }
}

/// A connected graph's pair list is connected from node 0.
pub proof fn lemma_connected_pairs(adj: Seq<Seq<(usize, usize)>>)
    requires
        well_formed(adj),
        adj.len() <= usize::MAX,
        adj.len() >= 1,
        connected(adj),
    ensures
        list_connected(graph_pairs(adj), 0),
{
    let ps = graph_pairs(adj);
    lemma_pairs_in_range(adj, adj.len() as int, 0);
    assert forall|j: int| 0 <= j < ps.len() implies #[trigger] list_reaches(ps, 0, ps[j].0) by {
        let t = ps[j].0;
        assert(reaches(adj, 0, t));
        let es = choose|es: Seq<(usize, usize, usize)>|
            #[trigger] is_walk(es, 0, t) && edges_in_range(adj, es) && listed(adj, es) && total_weight(es) <= usize::MAX;
        lemma_walk_to_list(adj, es, 0, t);
    }
}

/// Even degrees in the graph are even degrees in its pair list.
pub proof fn lemma_pairs_even(adj: Seq<Seq<(usize, usize)>>)
    requires
        well_formed(adj),
        adj.len() <= usize::MAX,
        all_even(adj),
    ensures
        forall|v: usize| #[trigger] list_degree(graph_pairs(adj), v) % 2 == 0,
{
    lemma_pairs_in_range(adj, adj.len() as int, 0);
    assert forall|v: usize| #[trigger] list_degree(graph_pairs(adj), v) % 2 == 0 by {
        if v < adj.len() {
            lemma_pairs_degree_exact(adj, v);
        } else {
            lemma_degree_untouched(graph_pairs(adj), v);
        }
    }
}

} // verus!
