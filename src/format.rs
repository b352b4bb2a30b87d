//! Readable output: node letters and the route's length in miles.
use crate::graph::{adjacency, neighbors, well_formed, RoadGraph};
use vstd::arithmetic::div_mod::{lemma_div_is_ordered, lemma_fundamental_div_mod};
use vstd::prelude::*;
use vstd::string::StringExecFns;

verus! {

/// The letters that name the first twenty-six nodes.
pub open spec fn letters() -> Seq<char> {
    seq!['A', 'B', 'C', 'D', 'E', 'F', 'G', 'H', 'I', 'J', 'K', 'L', 'M', 'N', 'O', 'P', 'Q', 'R', 'S', 'T', 'U', 'V', 'W', 'X', 'Y', 'Z']
}

/// The separator between node letters.
pub open spec fn separator() -> Seq<char> {
    seq![' ', '-', '-', ' ']
}

/// The letters of a walk's nodes, joined by ` -- `.
pub open spec fn alphabetize_spec(path: Seq<usize>) -> Seq<char>
    decreases path.len(),
{
    if path.len() == 0 {
        Seq::empty()
    } else if path.len() == 1 {
        seq![letters()[path[0] as int]]
    } else {
        alphabetize_spec(path.drop_last()) + separator() + seq![letters()[path.last() as int]]
    }
}

fn letter(n: usize) -> (r: &'static str)
    requires
        n < 26,
    ensures
        r@ == seq![letters()[n as int]],
{
    let alphabet: [&'static str; 26] = ["A", "B", "C", "D", "E", "F", "G", "H", "I", "J", "K", "L", "M", "N", "O", "P", "Q", "R", "S", "T", "U", "V", "W", "X", "Y", "Z"];
    proof {
        reveal_strlit("A");
        reveal_strlit("B");
        reveal_strlit("C");
        reveal_strlit("D");
        reveal_strlit("E");
        reveal_strlit("F");
        reveal_strlit("G");
        reveal_strlit("H");
        reveal_strlit("I");
        reveal_strlit("J");
        reveal_strlit("K");
        reveal_strlit("L");
        reveal_strlit("M");
        reveal_strlit("N");
        reveal_strlit("O");
        reveal_strlit("P");
        reveal_strlit("Q");
        reveal_strlit("R");
        reveal_strlit("S");
        reveal_strlit("T");
        reveal_strlit("U");
        reveal_strlit("V");
        reveal_strlit("W");
        reveal_strlit("X");
        reveal_strlit("Y");
        reveal_strlit("Z");
    }
    alphabet[n]
}

/// Names each node of a walk by its letter (node 0 is `A`), joined by
/// ` -- `. Only the first twenty-six nodes have letters.
pub fn alphabetize(path: &Vec<usize>) -> (r: String)
    requires
        forall|i: int| 0 <= i < path.len() ==> #[trigger] path[i] < 26,
    ensures
        r@ == alphabetize_spec(path@),
{
    let mut out = String::from_str("");
    proof {
        reveal_strlit("");
    }
    let mut i: usize = 0;
    while i < path.len()
        invariant
            i <= path.len(),
            forall|j: int| 0 <= j < path.len() ==> #[trigger] path[j] < 26,
            out@ == alphabetize_spec(path@.take(i as int)),
        decreases path.len() - i,
    {
        proof {
            reveal_strlit(" -- ");
        }
        assert(path@.take(i + 1).drop_last() =~= path@.take(i as int));
        assert(path@.take(i + 1).last() == path[i as int]);
        if i > 0 {
            out.append(" -- ");
        }
        out.append(letter(path[i]));
        i = i + 1;
    }
    assert(path@.take(path.len() as int) =~= path@);
    out
}

/// Feet in a mile.
pub const FEET_PER_MILE: usize = 5280;

/// The weight of the first edge end `(b, w)` in a list, if there is one.
pub open spec fn first_weight(s: Seq<(usize, usize)>, b: usize) -> Option<usize>
    decreases s.len(),
{
    if s.len() == 0 {
        None
    } else if s[0].0 == b {
        Some(s[0].1)
    } else {
        first_weight(s.drop_first(), b)
    }
}

/// The length in feet of the first `k` steps of a walk, each step weighed by
/// the first edge listed between its nodes; `None` when a step has no edge.
pub open spec fn walk_feet(adj: Seq<Seq<(usize, usize)>>, path: Seq<usize>, k: int) -> Option<nat>
    decreases k,
{
    if k <= 0 {
        Some(0)
    } else {
        match (walk_feet(adj, path, k - 1), first_weight(adj[path[k - 1] as int], path[k])) {
            (Some(t), Some(w)) => Some(t + w as nat),
            _ => None,
        }
    }
}

/// A distance in feet as hundredths of a mile, truncated.
pub open spec fn hundredths_spec(feet: nat) -> nat {
    feet * 100 / 5280
}

/// More feet never make fewer miles.
pub proof fn lemma_hundredths_monotonic(a: nat, b: nat)
    requires
        a <= b,
    ensures
        hundredths_spec(a) <= hundredths_spec(b),
{
    assert(a * 100 <= b * 100) by (nonlinear_arith)
        requires
            a <= b,
    ;
    lemma_div_is_ordered((a * 100) as int, (b * 100) as int, 5280);
}

/// A distance in feet as hundredths of a mile, truncated (not rounded):
/// 10560 feet are 200, 10559 feet are 199.
pub fn hundredths_of_mile(feet: usize) -> (r: usize)
    ensures
        r == hundredths_spec(feet as nat),
{
    let q = feet / FEET_PER_MILE;
    let m = feet % FEET_PER_MILE;
    proof {
        lemma_fundamental_div_mod(feet as int, 5280);
        assert(feet as int * 100 == 5280 * (q as int * 100) + m as int * 100) by (nonlinear_arith)
            requires
                feet as int == 5280 * q as int + m as int,
        ;
        assert(q * 100 <= usize::MAX) by (nonlinear_arith)
            requires
                q as int == feet as int / 5280,
                feet <= usize::MAX,
        ;
        assert((5280 * (q as int * 100) + m as int * 100) / 5280 == q as int * 100 + (m as int * 100) / 5280) by (nonlinear_arith)
            requires
                0 <= m < 5280,
                q >= 0,
        ;
    }
    q * 100 + m * 100 / FEET_PER_MILE
}

fn first_weight_of(s: &Vec<(usize, usize)>, b: usize) -> (r: Option<usize>)
    ensures
        r == first_weight(s@, b),
{
    let mut i: usize = 0;
    assert(s@.skip(0) =~= s@);
    while i < s.len()
        invariant
            i <= s.len(),
            first_weight(s@, b) == first_weight(s@.skip(i as int), b),
        decreases s.len() - i,
    {
        assert(s@.skip(i as int).drop_first() =~= s@.skip(i + 1));
        if s[i].0 == b {
            return Some(s[i].1);
        }
        i = i + 1;
    }
    None
}

/// The length in feet of a walk, each step weighed by the first edge listed
/// from its first node to its second; `None` when a step has no edge or the
/// sum does not fit in `usize`.
pub fn length_feet(path: &Vec<usize>, g: &RoadGraph) -> (r: Option<usize>)
    requires
        well_formed(adjacency(*g)),
        forall|i: int| 0 <= i < path.len() ==> #[trigger] path[i] < adjacency(*g).len(),
    ensures
        path.len() == 0 ==> r == Some(0usize),
        path.len() > 0 ==> match r {
            Some(v) => walk_feet(adjacency(*g), path@, path.len() - 1) == Some(v as nat),
            None => walk_feet(adjacency(*g), path@, path.len() - 1) matches None
                || walk_feet(adjacency(*g), path@, path.len() - 1)->Some_0 > usize::MAX,
        },
{
    if path.len() == 0 {
        return Some(0);
    }
    let ghost adj = adjacency(*g);
    let mut total: usize = 0;
    let mut i: usize = 0;
    while i + 1 < path.len()
        invariant
            adj == adjacency(*g),
            path.len() > 0,
            i + 1 <= path.len(),
            forall|j: int| 0 <= j < path.len() ==> #[trigger] path[j] < adj.len(),
            walk_feet(adj, path@, i as int) == Some(total as nat),
        decreases path.len() - i,
    {
        let nbs = neighbors(g, path[i]);
        match first_weight_of(&nbs, path[i + 1]) {
            Some(w) => {
                match total.checked_add(w) {
                    Some(t) => { total = t; },
                    None => {
                        proof { lemma_walk_feet_grows(adj, path@, i + 1, path.len() - 1); }
                        return None;
                    },
                }
            },
            None => {
                proof { lemma_walk_feet_grows(adj, path@, i + 1, path.len() - 1); }
                return None;
            },
        }
        i = i + 1;
    }
    Some(total)
}

proof fn lemma_walk_feet_grows(adj: Seq<Seq<(usize, usize)>>, path: Seq<usize>, k: int, m: int)
    requires
        0 < k <= m,
    ensures
        walk_feet(adj, path, k) matches None ==> walk_feet(adj, path, m) matches None,
        walk_feet(adj, path, k) matches Some(a) ==> (walk_feet(adj, path, m) matches None || walk_feet(adj, path, m)->Some_0 >= a),
    decreases m - k,
{
    if m > k {
        lemma_walk_feet_grows(adj, path, k, m - 1);
    }
}

} // verus!
