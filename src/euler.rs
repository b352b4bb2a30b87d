//! Eulerization: odd-degree nodes are paired greedily, each with its nearest
//! unpaired odd node, and the edges of a shortest walk between the two are
//! doubled.
use crate::degrees::{all_even, edges_in_range, ind, is_odd, lemma_odd_partner, is_walk, lemma_walk_parity, lemma_with_edge, lemma_with_edges};
use crate::graph::{add_edge, extends, adjacency, degree, node_count, well_formed, with_edge, with_edges, RoadGraph};
use crate::paths::{connected, dijkstra, has_edge, lemma_distances_shortest, listed, ranked, reaches, relaxed, search_tree, total_weight};
use vstd::prelude::*;

verus! {

/// Why a graph could not be eulerized.
#[derive(Debug, Clone, Copy, PartialEq, Eq, Structural)]
pub enum EulerizeError {
    /// An odd-degree node for which no unpaired odd-degree node was reached:
    /// the search drops a walk whose length does not fit in `usize`, so this
    /// comes only from distance sums that overflow.
    Unpaired,
}

proof fn lemma_pair_step(
    before: Seq<Seq<(usize, usize)>>,
    after: Seq<Seq<(usize, usize)>>,
    odd: Seq<bool>,
    pre: Seq<bool>,
    post: Seq<bool>,
    u: int,
    b: int,
)
    requires
        before.len() == after.len(),
        odd.len() == before.len(),
        pre.len() == before.len(),
        0 <= u < before.len(),
        0 <= b < before.len(),
        u != b,
        odd[u] && !pre[u],
        odd[b] && !pre[b],
        post == pre.update(u, true).update(b, true),
        forall|x: int| #![trigger pre[x]] 0 <= x < before.len() ==> (is_odd(before, x) <==> (odd[x] && !pre[x])),
        forall|x: int| #![trigger pre[x]] 0 <= x < u ==> !(odd[x] && !pre[x]),
        forall|x: int|
            0 <= x < before.len() ==> (#[trigger] after[x].len()) % 2 == (before[x].len() + ind(x == b) + ind(x == u)) % 2,
    ensures
        forall|x: int| 0 <= x < before.len() ==> (is_odd(after, x) <==> (odd[x] && !post[x])),
        forall|x: int| #![trigger post[x]] 0 <= x < u + 1 ==> !(odd[x] && !post[x]),
{
    assert forall|x: int| 0 <= x < before.len() implies (is_odd(after, x) <==> (odd[x] && !post[x])) by {
        let px = pre[x];
        let qx = post[x];
        let da = after[x].len();
        let db = before[x].len();
        assert(is_odd(before, x) <==> (odd[x] && !px));
        assert(da % 2 == (db + ind(x == b) + ind(x == u)) % 2);
        if x != u && x != b {
            assert(qx == px);
            assert(da % 2 == db % 2);
        } else {
            assert(qx);
            assert(db % 2 == 1);
            assert(da % 2 == 0);
        }
        assert(is_odd(after, x) == (da % 2 == 1));
    }
    assert forall|x: int| #![trigger post[x]] 0 <= x < u + 1 implies !(odd[x] && !post[x]) by {
        let px = pre[x];
        let qx = post[x];
        if x < u {
            assert(!(odd[x] && !px));
            if x != b {
                assert(qx == px);
            }
        } else {
            assert(qx);
        }
    }
}

/// Node `v` can be paired with `u`: another odd-degree node, not yet paired,
/// that the search from `u` reached.
pub open spec fn partner_candidate(odd: Seq<bool>, paired: Seq<bool>, dist: Seq<Option<usize>>, u: int, v: int) -> bool {
    v != u && odd[v] && !paired[v] && dist[v] is Some
}

/// The nearest candidate partner of `u` by distance, the lowest index among
/// equally near ones; `None` when there is no candidate.
pub fn nearest_partner(odd: &Vec<bool>, paired: &Vec<bool>, dist: &Vec<Option<usize>>, u: usize) -> (r: Option<usize>)
    requires
        paired.len() == odd.len(),
        dist.len() == odd.len(),
    ensures
        r is None <==> forall|v: int| 0 <= v < odd.len() ==> !#[trigger] partner_candidate(odd@, paired@, dist@, u as int, v),
        r matches Some(b) ==> {
            &&& b < odd.len()
            &&& partner_candidate(odd@, paired@, dist@, u as int, b as int)
            &&& forall|v: int| 0 <= v < odd.len() && #[trigger] partner_candidate(odd@, paired@, dist@, u as int, v)
                ==> dist@[b as int]->Some_0 <= dist@[v]->Some_0
            &&& forall|v: int| 0 <= v < b && #[trigger] partner_candidate(odd@, paired@, dist@, u as int, v)
                ==> dist@[b as int]->Some_0 < dist@[v]->Some_0
        },
{
    let n = odd.len();
    let mut best: Option<usize> = None;
    let mut v: usize = 0;
    while v < n
        invariant
            n == odd.len(),
            paired.len() == n,
            dist.len() == n,
            v <= n,
            best is None ==> forall|x: int| 0 <= x < v ==> !#[trigger] partner_candidate(odd@, paired@, dist@, u as int, x),
            best matches Some(b) ==> {
                &&& b < v
                &&& partner_candidate(odd@, paired@, dist@, u as int, b as int)
                &&& forall|x: int| 0 <= x < v && #[trigger] partner_candidate(odd@, paired@, dist@, u as int, x)
                    ==> dist@[b as int]->Some_0 <= dist@[x]->Some_0
                &&& forall|x: int| 0 <= x < b && #[trigger] partner_candidate(odd@, paired@, dist@, u as int, x)
                    ==> dist@[b as int]->Some_0 < dist@[x]->Some_0
            },
        decreases n - v,
    {
        if v != u && odd[v] && !paired[v] {
            match dist[v] {
                Some(d) => {
                    match best {
                        None => {
                            best = Some(v);
                        },
                        Some(b) => {
                            match dist[b] {
                                Some(db) => if d < db {
                                    best = Some(v);
                                },
                                None => {},
                            }
                        },
                    }
                },
                None => {},
            }
        }
        v = v + 1;
    }
    best
}

/// Every edge end listed in `cur` is also listed, at the same node, in `old`:
/// `cur` holds copies of `old`'s edges only.
pub open spec fn copies_of(old: Seq<Seq<(usize, usize)>>, cur: Seq<Seq<(usize, usize)>>) -> bool {
    &&& cur.len() == old.len()
    &&& forall|v: int, k: int| 0 <= v < cur.len() && 0 <= k < cur[v].len() ==> old[v].contains(#[trigger] cur[v][k])
}

proof fn lemma_copy_step(old: Seq<Seq<(usize, usize)>>, cur: Seq<Seq<(usize, usize)>>, a: usize, b: usize, w: usize)
    requires
        copies_of(old, cur),
        well_formed(cur),
        a < cur.len(),
        b < cur.len(),
        cur[b as int].contains((a, w)),
    ensures
        copies_of(old, with_edge(cur, a, b, w)),
{
    lemma_with_edge(cur, a, b, w);
    let nxt = with_edge(cur, a, b, w);
    cur[b as int].to_multiset_ensures();
    cur[a as int].to_multiset_ensures();
    assert(cur[a as int].to_multiset().count((b, w)) == cur[b as int].to_multiset().count((a, w)));
    assert(cur[a as int].contains((b, w)));
    let i = choose|i: int| 0 <= i < cur[a as int].len() && cur[a as int][i] == (b, w);
    let j = choose|j: int| 0 <= j < cur[b as int].len() && cur[b as int][j] == (a, w);
    assert(old[a as int].contains(cur[a as int][i]));
    assert(old[b as int].contains(cur[b as int][j]));
    assert forall|v: int, k: int| 0 <= v < nxt.len() && 0 <= k < nxt[v].len() implies old[v].contains(#[trigger] nxt[v][k]) by {
        if k < cur[v].len() {
            assert(nxt[v][k] == cur[v][k]);
        }
    }
}

/// Node `x` is an end of one of the pairs.
pub open spec fn in_pairs(pairs: Seq<(usize, usize)>, x: usize) -> bool {
    exists|j: int| 0 <= j < pairs.len() && (#[trigger] pairs[j].0 == x || pairs[j].1 == x)
}

/// Each edge of the list is listed in the graph at its second end.
pub open spec fn listed_back(adj: Seq<Seq<(usize, usize)>>, es: Seq<(usize, usize, usize)>) -> bool {
    forall|i: int| 0 <= i < es.len() ==> has_edge(adj, (#[trigger] es[i]).1, es[i].0, es[i].2)
}

/// The walks one after another.
pub open spec fn concat(walks: Seq<Seq<(usize, usize, usize)>>) -> Seq<(usize, usize, usize)>
    decreases walks.len(),
{
    if walks.len() == 0 {
        Seq::empty()
    } else {
        concat(walks.drop_last()) + walks.last()
    }
}

/// One step of the greedy pairing, after the pairs `prior`: `p.0` is the
/// lowest odd node not yet paired, `p.1` an unpaired odd node nearest to it
/// (the lowest index among equally near ones), and `walk` is a walk of the
/// graph's edges from `p.1` to `p.0` no longer than any other walk between
/// them.
pub open spec fn greedy_step(
    adj: Seq<Seq<(usize, usize)>>,
    prior: Seq<(usize, usize)>,
    p: (usize, usize),
    walk: Seq<(usize, usize, usize)>,
) -> bool {
    &&& p.0 < adj.len() && p.1 < adj.len() && p.0 != p.1
    &&& is_odd(adj, p.0 as int) && is_odd(adj, p.1 as int)
    &&& !in_pairs(prior, p.0) && !in_pairs(prior, p.1)
    &&& forall|x: usize| x < p.0 && #[trigger] is_odd(adj, x as int) ==> in_pairs(prior, x)
    &&& is_walk(walk, p.1, p.0) && edges_in_range(adj, walk) && listed_back(adj, walk)
    &&& forall|c: usize, w: Seq<(usize, usize, usize)>|
        c < adj.len() && c != p.0 && is_odd(adj, c as int) && !in_pairs(prior, c) && #[trigger] is_walk(w, p.0, c)
            && edges_in_range(adj, w) && listed(adj, w) && total_weight(w) <= usize::MAX ==> total_weight(walk)
            <= total_weight(w) && (c < p.1 ==> total_weight(walk) < total_weight(w))
}

proof fn lemma_greedy_step(
    adj0: Seq<Seq<(usize, usize)>>,
    cur: Seq<Seq<(usize, usize)>>,
    odd: Seq<bool>,
    paired: Seq<bool>,
    pairs: Seq<(usize, usize)>,
    dist: Seq<Option<usize>>,
    pred: Seq<Option<(usize, usize, usize)>>,
    u: usize,
    b: usize,
    walk: Seq<(usize, usize, usize)>,
)
    requires
        well_formed(adj0),
        well_formed(cur),
        extends(adj0, cur),
        copies_of(adj0, cur),
        odd.len() == adj0.len(),
        paired.len() == adj0.len(),
        forall|j: int| 0 <= j < adj0.len() ==> (#[trigger] odd[j]) == is_odd(adj0, j),
        forall|x: usize| x < adj0.len() ==> (paired[x as int] <==> #[trigger] in_pairs(pairs, x)),
        forall|j: int| 0 <= j < u ==> !(odd[j] && !(#[trigger] paired[j])),
        u < adj0.len(),
        odd[u as int] && !paired[u as int],
        search_tree(cur, u, dist, pred),
        forall|x: int| 0 <= x < cur.len() && #[trigger] dist[x] is Some ==> relaxed(cur, dist, x),
        b < adj0.len(),
        partner_candidate(odd, paired, dist, u as int, b as int),
        forall|v: int| 0 <= v < odd.len() && #[trigger] partner_candidate(odd, paired, dist, u as int, v)
            ==> dist[b as int]->Some_0 <= dist[v]->Some_0,
        forall|v: int| 0 <= v < b && #[trigger] partner_candidate(odd, paired, dist, u as int, v)
            ==> dist[b as int]->Some_0 < dist[v]->Some_0,
        is_walk(walk, b, u),
        edges_in_range(cur, walk),
        forall|i: int| 0 <= i < walk.len() ==> has_edge(cur, (#[trigger] walk[i]).1, walk[i].0, walk[i].2),
        total_weight(walk) == dist[b as int]->Some_0,
    ensures
        greedy_step(adj0, pairs, (u, b), walk),
{
    assert forall|x: usize| x < u && #[trigger] is_odd(adj0, x as int) implies in_pairs(pairs, x) by {
        assert(odd[x as int]);
        assert(paired[x as int]);
    }
    assert(!in_pairs(pairs, u));
    assert(!in_pairs(pairs, b)) by {
        assert(!paired[b as int]);
    }
    assert(is_odd(adj0, b as int)) by {
        assert(odd[b as int]);
    }
    assert forall|i: int| 0 <= i < walk.len() implies has_edge(adj0, (#[trigger] walk[i]).1, walk[i].0, walk[i].2) by {
        assert(has_edge(cur, walk[i].1, walk[i].0, walk[i].2));
        let k = choose|k: int| 0 <= k < cur[walk[i].1 as int].len() && cur[walk[i].1 as int][k] == (walk[i].0, walk[i].2);
        assert(adj0[walk[i].1 as int].contains(cur[walk[i].1 as int][k]));
    }
    assert forall|c: usize, w: Seq<(usize, usize, usize)>|
        c < adj0.len() && c != u && is_odd(adj0, c as int) && !in_pairs(pairs, c) && #[trigger] is_walk(w, u, c)
            && edges_in_range(adj0, w) && listed(adj0, w) && total_weight(w) <= usize::MAX implies total_weight(walk)
            <= total_weight(w) && (c < b ==> total_weight(walk) < total_weight(w)) by {
        assert forall|i: int| 0 <= i < w.len() implies has_edge(cur, (#[trigger] w[i]).0, w[i].1, w[i].2) by {
            assert(has_edge(adj0, w[i].0, w[i].1, w[i].2));
            let k = choose|k: int| 0 <= k < adj0[w[i].0 as int].len() && adj0[w[i].0 as int][k] == (w[i].1, w[i].2);
            assert(cur[w[i].0 as int][k] == adj0[w[i].0 as int][k]);
        }
        lemma_distances_shortest(cur, u, dist, pred, w, c);
        assert(odd[c as int]);
        assert(!paired[c as int]);
        assert(partner_candidate(odd, paired, dist, u as int, c as int));
    }
}

/// The greedy pairing of all odd nodes: the pairs, in order, are greedy
/// steps, every odd node is an end of a pair, and `walks[i]` is the walk
/// doubled for pair `i`.
pub open spec fn greedy_pairing(
    adj: Seq<Seq<(usize, usize)>>,
    pairs: Seq<(usize, usize)>,
    walks: Seq<Seq<(usize, usize, usize)>>,
) -> bool {
    &&& walks.len() == pairs.len()
    &&& forall|i: int| 0 <= i < pairs.len() ==> #[trigger] greedy_step(adj, pairs.take(i), pairs[i], walks[i])
    &&& forall|x: usize| x < adj.len() ==> (is_odd(adj, x as int) <==> #[trigger] in_pairs(pairs, x))
}

proof fn lemma_in_pairs_push(pairs: Seq<(usize, usize)>, p: (usize, usize), x: usize)
    ensures
        in_pairs(pairs.push(p), x) <==> (in_pairs(pairs, x) || x == p.0 || x == p.1),
{
    let q = pairs.push(p);
    if in_pairs(pairs, x) {
        let j = choose|j: int| 0 <= j < pairs.len() && (#[trigger] pairs[j].0 == x || pairs[j].1 == x);
        assert(q[j] == pairs[j]);
    }
    if x == p.0 || x == p.1 {
        assert(q[pairs.len() as int] == p);
    }
    if in_pairs(q, x) {
        let j = choose|j: int| 0 <= j < q.len() && (#[trigger] q[j].0 == x || q[j].1 == x);
        if j < pairs.len() {
            assert(q[j] == pairs[j]);
        }
    }
}

/// Follows the recorded edges back from `b` to the search's source `a`, and
/// returns them as a walk from `b` to `a`; `None` when `b` was not reached.
fn walk_back(
    g: &RoadGraph,
    dist: &Vec<Option<usize>>,
    pred: &Vec<Option<(usize, usize, usize)>>,
    a: usize,
    b: usize,
) -> (r: Option<Vec<(usize, usize, usize)>>)
    requires
        well_formed(adjacency(*g)),
        search_tree(adjacency(*g), a, dist@, pred@),
        exists|rank: Seq<nat>| ranked(adjacency(*g), pred@, rank),
        b < adjacency(*g).len(),
    ensures
        dist@[b as int] is Some ==> r is Some,
        r matches Some(es) ==> {
            &&& is_walk(es@, b, a)
            &&& edges_in_range(adjacency(*g), es@)
            &&& forall|i: int| 0 <= i < es.len() ==> has_edge(adjacency(*g), (#[trigger] es[i]).1, es[i].0, es[i].2)
            &&& dist@[b as int] is Some ==> total_weight(es@) == dist@[b as int]->Some_0
        },
{
    let ghost adj = adjacency(*g);
    let n = pred.len();
    let mut es: Vec<(usize, usize, usize)> = Vec::new();
    let mut cur: usize = b;
    let mut steps: usize = 0;
    let ghost rank = choose|rank: Seq<nat>| ranked(adj, pred@, rank);
    while cur != a && steps < n
        invariant
            ranked(adj, pred@, rank),
            dist@[b as int] is Some ==> dist@[cur as int] is Some && rank[cur as int] + steps < n
                && total_weight(es@) + dist@[cur as int]->Some_0 == dist@[b as int]->Some_0,
            n == adj.len(),
            search_tree(adj, a, dist@, pred@),
            cur < n,
            is_walk(es@, b, cur),
            edges_in_range(adj, es@),
            forall|i: int| 0 <= i < es.len() ==> has_edge(adj, (#[trigger] es[i]).1, es[i].0, es[i].2),
        decreases n - steps,
    {
        match pred[cur] {
            None => {
                return None;
            },
            Some((u, k, w)) => {
                assert(pred@[cur as int] is Some);
                assert(adj[u as int][k as int] == (cur, w));
                let ghost before = es@;
                es.push((cur, u, w));
                assert(es@.drop_last() =~= before);
                cur = u;
            },
        }
        steps = steps + 1;
    }
    if cur == a {
        Some(es)
    } else {
        None
    }
}

/// Makes every degree even: for each odd-degree node in index order that is
/// not yet paired, finds its nearest unpaired odd-degree node by shortest
/// distance (the lowest index among equals) and doubles every edge of a
/// shortest walk between them. A graph with no odd-degree node is left as it
/// is.
#[verifier::rlimit(80)]
pub fn eulerize(g: &mut RoadGraph) -> (r: Result<(), EulerizeError>)
    requires
        well_formed(adjacency(*old(g))),
    ensures
        well_formed(adjacency(*final(g))),
        adjacency(*final(g)).len() == adjacency(*old(g)).len(),
        extends(adjacency(*old(g)), adjacency(*final(g))),
        r is Ok ==> all_even(adjacency(*final(g))),
        all_even(adjacency(*old(g))) ==> r is Ok && adjacency(*final(g)) == adjacency(*old(g)),
        copies_of(adjacency(*old(g)), adjacency(*final(g))),
        connected(adjacency(*old(g))) ==> r is Ok,
        r is Ok ==> exists|pairs: Seq<(usize, usize)>, walks: Seq<Seq<(usize, usize, usize)>>|
            #[trigger] greedy_pairing(adjacency(*old(g)), pairs, walks) && adjacency(*final(g)) == with_edges(
                adjacency(*old(g)),
                concat(walks),
            ),
{
    let ghost adj0 = adjacency(*g);
    let n = node_count(g);
    let mut odd: Vec<bool> = Vec::new();
    let mut paired: Vec<bool> = Vec::new();
    let mut i: usize = 0;
    while i < n
        invariant
            adj0 == adjacency(*old(g)),
            adjacency(*g) == adj0,
            n == adj0.len(),
            i <= n,
            odd.len() == i,
            paired.len() == i,
            forall|j: int| 0 <= j < i ==> (#[trigger] odd@[j]) == is_odd(adj0, j),
            forall|j: int| 0 <= j < i ==> !(#[trigger] paired@[j]),
        decreases n - i,
    {
        odd.push(degree(g, i) % 2 == 1);
        paired.push(false);
        i = i + 1;
    }
    let ghost mut added: Seq<(usize, usize, usize)> = Seq::empty();
    let ghost mut pairs: Seq<(usize, usize)> = Seq::empty();
    let ghost mut walks: Seq<Seq<(usize, usize, usize)>> = Seq::empty();
    let mut u: usize = 0;
    while u < n
        invariant
            adj0 == adjacency(*old(g)),
            n == adj0.len(),
            well_formed(adj0),
            u <= n,
            odd.len() == n,
            paired.len() == n,
            adjacency(*g) == with_edges(adj0, added),
            edges_in_range(adj0, added),
            copies_of(adj0, adjacency(*g)),
            forall|j: int| 0 <= j < n ==> (#[trigger] odd@[j]) == is_odd(adj0, j),
            forall|j: int| 0 <= j < n ==> (is_odd(adjacency(*g), j) <==> (odd@[j] && !paired@[j])),
            forall|j: int| 0 <= j < u ==> !(odd@[j] && !(#[trigger] paired@[j])),
            all_even(adj0) ==> added.len() == 0,
            walks.len() == pairs.len(),
            forall|i: int| 0 <= i < pairs.len() ==> #[trigger] greedy_step(adj0, pairs.take(i), pairs[i], walks[i]),
            forall|x: usize| x < n ==> (paired@[x as int] <==> #[trigger] in_pairs(pairs, x)),
            forall|j: int| 0 <= j < n && #[trigger] paired@[j] ==> odd@[j],
            added == concat(walks),
        decreases n - u,
    {
        proof {
            lemma_with_edges(adj0, added);
        }
        if odd[u] && !paired[u] {
            let (dist, pred) = dijkstra(g, u);
            let best = nearest_partner(&odd, &paired, &dist, u);
            proof {
                if connected(adj0) {
                    let cur = adjacency(*g);
                    lemma_odd_partner(cur, u as int);
                    let b = choose|b: int| 0 <= b < cur.len() && b != u && #[trigger] is_odd(cur, b);
                    assert(reaches(adj0, u, b as usize));
                    let es = choose|es: Seq<(usize, usize, usize)>|
                        #[trigger] is_walk(es, u, b as usize) && edges_in_range(adj0, es) && listed(adj0, es) && total_weight(es) <= usize::MAX;
                    assert forall|i: int| 0 <= i < es.len() implies has_edge(cur, (#[trigger] es[i]).0, es[i].1, es[i].2) by {
                        assert(has_edge(adj0, es[i].0, es[i].1, es[i].2));
                        let k = choose|k: int| 0 <= k < adj0[es[i].0 as int].len() && adj0[es[i].0 as int][k] == (es[i].1, es[i].2);
                        assert(cur[es[i].0 as int][k] == adj0[es[i].0 as int][k]);
                    }
                    lemma_distances_shortest(cur, u, dist@, pred@, es, b as usize);
                    assert(partner_candidate(odd@, paired@, dist@, u as int, b));
                }
            }
            let b = match best {
                None => {
                    return Err(EulerizeError::Unpaired);
                },
                Some(b) => b,
            };
            let path = match walk_back(g, &dist, &pred, u, b) {
                None => {
                    return Err(EulerizeError::Unpaired);
                },
                Some(es) => es,
            };
            let ghost adj_b = adjacency(*g);
            let ghost pre = paired@;
            let ghost added_b = added;
            proof {
                lemma_with_edges(adj0, added);
                lemma_greedy_step(adj0, adj_b, odd@, paired@, pairs, dist@, pred@, u, b, path@);
            }
            assert(forall|j: int| 0 <= j < n ==> (is_odd(adj_b, j) <==> (odd@[j] && !(#[trigger] pre[j]))));
            let mut j: usize = 0;
            while j < path.len()
                invariant
                    adj0 == adjacency(*old(g)),
                    n == adj0.len(),
                    well_formed(adj0),
                    well_formed(adj_b),
                    adj_b.len() == n,
                    edges_in_range(adj_b, path@),
                    j <= path.len(),
                    adjacency(*g) == with_edges(adj_b, path@.take(j as int)),
                    adjacency(*g) == with_edges(adj0, added),
                    edges_in_range(adj0, added),
                    copies_of(adj0, adjacency(*g)),
                    forall|i: int| 0 <= i < path.len() ==> has_edge(adj_b, (#[trigger] path[i]).1, path[i].0, path[i].2),
                    added == added_b + path@.take(j as int),
                decreases path.len() - j,
            {
                let e = path[j];
                proof {
                    assert(edges_in_range(adj_b, path@.take(j as int)));
                    lemma_with_edges(adj_b, path@.take(j as int));
                    lemma_with_edges(adj0, added);
                    assert(has_edge(adj_b, path[j as int].1, path[j as int].0, path[j as int].2));
                    let kk = choose|kk: int| 0 <= kk < adj_b[e.1 as int].len() && adj_b[e.1 as int][kk] == (e.0, e.2);
                    assert(adjacency(*g)[e.1 as int][kk] == (e.0, e.2));
                    assert(adjacency(*g)[e.1 as int].contains((e.0, e.2)));
                    lemma_copy_step(adj0, adjacency(*g), e.0, e.1, e.2);
                    assert(path@.take(j + 1).drop_last() =~= path@.take(j as int));
                    assert(added.push(e).drop_last() =~= added);
                    assert(added_b + path@.take(j + 1) =~= added.push(e));
                    added = added.push(e);
                }
                add_edge(g, e.0, e.1, e.2);
                j = j + 1;
            }
            proof {
                assert(path@.take(path.len() as int) =~= path@);
                lemma_walk_parity(adj_b, path@, b, u);
            }
            let ghost pairs0 = pairs;
            let ghost walks0 = walks;
            paired.set(u, true);
            paired.set(b, true);
            proof {
                assert(path@.take(path.len() as int) =~= path@);
                pairs = pairs.push((u, b));
                walks = walks.push(path@);
                assert(walks.drop_last() =~= walks0);
                assert(added == concat(walks));
                assert forall|i: int| 0 <= i < pairs.len() implies #[trigger] greedy_step(adj0, pairs.take(i), pairs[i], walks[i]) by {
                    assert(pairs.take(i) =~= pairs0.take(i) || i == pairs0.len());
                    if i == pairs0.len() {
                        assert(pairs.take(i) =~= pairs0);
                    } else {
                        assert(pairs.take(i) =~= pairs0.take(i));
                        assert(greedy_step(adj0, pairs0.take(i), pairs0[i], walks0[i]));
                    }
                }
                assert forall|x: usize| x < n implies (paired@[x as int] <==> #[trigger] in_pairs(pairs, x)) by {
                    lemma_in_pairs_push(pairs0, (u, b), x);
                    assert(pre[x as int] <==> in_pairs(pairs0, x));
                }
                lemma_with_edges(adj_b, path@);
                lemma_pair_step(adj_b, adjacency(*g), odd@, pre, paired@, u as int, b as int);
            }
        }
        u = u + 1;
    }
    proof {
        lemma_with_edges(adj0, added);
        assert forall|v: int| 0 <= v < n implies #[trigger] adjacency(*g)[v].len() % 2 == 0 by {
            assert(!(odd@[v] && !paired@[v]));
            assert(!is_odd(adjacency(*g), v));
        }
        assert forall|x: usize| x < adj0.len() implies (is_odd(adj0, x as int) <==> #[trigger] in_pairs(pairs, x)) by {
            assert(!(odd@[x as int] && !paired@[x as int]));
            assert(paired@[x as int] ==> odd@[x as int]);
        }
        assert(greedy_pairing(adj0, pairs, walks));
    }
    Ok(())
}

} // verus!
