//! Route inspection on a weighted road network: dead ends are doubled, odd
//! nodes are paired along shortest paths, and an Euler circuit is read off.
use vstd::prelude::*;
use vstd::string::StringSliceAdditionalSpecFns;

pub mod augment;
pub mod circuit;
pub mod degrees;
pub mod euler;
pub mod format;
pub mod graph;
pub mod parse;
pub mod paths;

use crate::augment::fix_culdesacs;
use crate::circuit::{find_cycle, graph_pairs, joined, norms, steps};
use crate::degrees::all_even;
use crate::euler::eulerize;
use crate::graph::{adjacency, built_from, well_formed, RoadGraph};
use crate::paths::{connected, lemma_connected_grows};
use crate::parse::{build_graph, edges_spec};

verus! {

/// Why no route could be planned.
#[derive(Debug, Clone, Copy, PartialEq, Eq, Structural)]
pub enum RouteError {
    /// A token's numbers do not parse.
    Format,
    /// Some odd-degree node found no partner, because the distances involved
    /// do not fit in `usize`.
    Unpaired,
}

/// A planned route: the augmented network and a closed walk over it.
pub struct Route {
    pub graph: RoadGraph,
    pub circuit: Vec<usize>,
}

/// Plans a route over the network that `contents` describes: parses it,
/// doubles dead ends, eulerizes it, and reads an Euler circuit from node 0.
pub fn run(contents: &str) -> (r: Result<Route, RouteError>)
    ensures
        r matches Err(RouteError::Format) <==> edges_spec(contents.spec_bytes()) is Err,
        edges_spec(contents.spec_bytes()) is Ok && (forall|adj: Seq<Seq<(usize, usize)>>|
            #[trigger] built_from(adj, edges_spec(contents.spec_bytes())->Ok_0) ==> connected(adj)) ==> r is Ok,
        r matches Ok(route) ==> {
            &&& well_formed(adjacency(route.graph))
            &&& all_even(adjacency(route.graph))
            &&& 1 <= route.circuit.len() <= graph_pairs(adjacency(route.graph)).len() + 1
            &&& route.circuit[route.circuit.len() - 1] == 0
        },
        r matches Ok(route) ==> (forall|adj: Seq<Seq<(usize, usize)>>|
            #[trigger] built_from(adj, edges_spec(contents.spec_bytes())->Ok_0) ==> connected(adj)) ==> {
            &&& route.circuit.len() == graph_pairs(adjacency(route.graph)).len() + 1
            &&& route.circuit[0] == 0
            &&& forall|i: int|
                0 <= i < route.circuit.len() - 1 ==> joined(
                    graph_pairs(adjacency(route.graph)),
                    #[trigger] route.circuit[i],
                    route.circuit[i + 1],
                )
            &&& steps(route.circuit@) =~= norms(graph_pairs(adjacency(route.graph)))
        },
{
    let mut graph = match build_graph(contents) {
        Ok(g) => g,
        Err(_) => {
            return Err(RouteError::Format);
        },
    };
    let ghost built = adjacency(graph);
    fix_culdesacs(&mut graph);
    proof {
        if edges_spec(contents.spec_bytes()) is Ok && (forall|adj: Seq<Seq<(usize, usize)>>|
            #[trigger] built_from(adj, edges_spec(contents.spec_bytes())->Ok_0) ==> connected(adj)) {
            assert(built_from(built, edges_spec(contents.spec_bytes())->Ok_0));
            lemma_connected_grows(built, adjacency(graph));
        }
    }
    let ghost fixed = adjacency(graph);
    match eulerize(&mut graph) {
        Ok(()) => {},
        Err(_) => {
            return Err(RouteError::Unpaired);
        },
    }
    proof {
        if edges_spec(contents.spec_bytes()) is Ok && (forall|adj: Seq<Seq<(usize, usize)>>|
            #[trigger] built_from(adj, edges_spec(contents.spec_bytes())->Ok_0) ==> connected(adj)) {
            lemma_connected_grows(fixed, adjacency(graph));
        }
    }
    let circuit = find_cycle(&graph);
    Ok(Route { graph, circuit })
}

} // verus!
