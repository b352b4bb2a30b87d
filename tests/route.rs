use pacsam_optimization::augment::fix_culdesacs;
use pacsam_optimization::circuit::{edge_pairs, find_cycle, hierholzer};
use pacsam_optimization::euler::{eulerize, nearest_partner};
use pacsam_optimization::format::{alphabetize, hundredths_of_mile, length_feet};
use pacsam_optimization::graph::{degree, neighbors, node_count, RoadGraph};
use pacsam_optimization::parse::{build_graph, parse_edges, parse_usize, split_bytes, ParseError};
use pacsam_optimization::paths::dijkstra;
use pacsam_optimization::{run, RouteError};

fn degrees(g: &RoadGraph) -> Vec<usize> {
    (0..node_count(g)).map(|v| degree(g, v)).collect()
}

fn odd_count(g: &RoadGraph) -> usize {
    degrees(g).iter().filter(|d| *d % 2 == 1).count()
}

/// Checks that consecutive nodes of `walk` use each edge of `edges` once.
fn uses_each_edge_once(walk: &[usize], edges: &[(usize, usize)]) -> bool {
    let mut left: Vec<(usize, usize)> = edges.to_vec();
    for w in walk.windows(2) {
        match left
            .iter()
            .position(|e| (e.0 == w[0] && e.1 == w[1]) || (e.0 == w[1] && e.1 == w[0]))
        {
            Some(i) => {
                left.remove(i);
            }
            None => return false,
        }
    }
    left.is_empty()
}

#[test]
fn alphabetize_three_nodes() {
    assert_eq!(alphabetize(&vec![0, 1, 2]), "A -- B -- C");
}

#[test]
fn alphabetize_single_and_empty() {
    assert_eq!(alphabetize(&vec![25]), "Z");
    assert_eq!(alphabetize(&vec![]), "");
}

#[test]
fn miles_are_truncated() {
    assert_eq!(hundredths_of_mile(10560), 200);
    assert_eq!(hundredths_of_mile(10559), 199);
    assert_eq!(hundredths_of_mile(0), 0);
    assert_eq!(hundredths_of_mile(52), 0);
    assert_eq!(hundredths_of_mile(53), 1);
}

#[test]
fn miles_grow_with_feet() {
    let mut last = 0;
    for feet in (0..20000).step_by(37) {
        let h = hundredths_of_mile(feet);
        assert!(h >= last);
        last = h;
    }
    assert_eq!(hundredths_of_mile(usize::MAX), ((usize::MAX as u128) * 100 / 5280) as usize);
}

#[test]
fn numbers_parse_like_std() {
    assert_eq!(parse_usize(b"42"), Ok(42));
    assert_eq!(parse_usize(b"+7"), Ok(7));
    assert_eq!(parse_usize(b"007"), Ok(7));
    assert_eq!(parse_usize(b""), Err(ParseError::FormatError));
    assert_eq!(parse_usize(b"+"), Err(ParseError::FormatError));
    assert_eq!(parse_usize(b"-1"), Err(ParseError::FormatError));
    assert_eq!(parse_usize(b"1 "), Err(ParseError::FormatError));
    assert_eq!(parse_usize(b"18446744073709551615"), Ok(18446744073709551615));
    assert_eq!(parse_usize(b"18446744073709551616"), Err(ParseError::FormatError));
}

#[test]
fn split_keeps_empty_pieces() {
    let r = split_bytes(b"a,,b,", b',');
    assert_eq!(r, vec![b"a".to_vec(), vec![], b"b".to_vec(), vec![]]);
    assert_eq!(split_bytes(b"", b','), vec![Vec::<u8>::new()]);
}

#[test]
fn parse_square() {
    let es = parse_edges(b"1:10,3:15\n2:10\n3:10\n").unwrap();
    assert_eq!(es, vec![(0, 1, 10), (0, 3, 15), (1, 2, 10), (2, 3, 10)]);
}

#[test]
fn parse_skips_tokens_without_colon_and_strips_cr() {
    let es = parse_edges(b"junk,1:5\r\n\n0:3\r").unwrap_err();
    assert_eq!(es, ParseError::FormatError);
    let es = parse_edges(b"junk,1:5\r\n\n0:3").unwrap();
    assert_eq!(es, vec![(0, 1, 5), (2, 0, 3)]);
    let es = parse_edges(b"1:4:9:9").unwrap();
    assert_eq!(es, vec![(0, 1, 4)]);
}

#[test]
fn parse_rejects_bad_numbers() {
    assert_eq!(parse_edges(b"0:x:1"), Err(ParseError::FormatError));
    assert_eq!(parse_edges(b"1:2\nfoo:3"), Err(ParseError::FormatError));
    assert!(build_graph("1:two").is_err());
    assert_eq!(parse_edges(b"4294967296:1"), Err(ParseError::FormatError));
    assert_eq!(parse_edges(b"4294967295:1"), Ok(vec![(0, 4294967295, 1)]));
}

#[test]
fn built_graph_counts_nodes_and_degrees() {
    let g = build_graph("1:10,3:15\n2:10\n3:10\n").unwrap();
    assert_eq!(node_count(&g), 4);
    assert_eq!(degrees(&g), vec![2, 2, 2, 2]);
    let mut n0 = neighbors(&g, 0);
    n0.sort();
    assert_eq!(n0, vec![(1, 10), (3, 15)]);
    let empty = build_graph("").unwrap();
    assert_eq!(node_count(&empty), 1);
    assert_eq!(degree(&empty, 0), 0);
}

#[test]
fn odd_degree_count_is_even() {
    for text in ["1:1\n2:1\n", "1:1,2:1,3:1\n", "1:1\n2:1\n3:1\n4:1\n", "0:4,1:2"] {
        let mut g = build_graph(text).unwrap();
        assert_eq!(odd_count(&g) % 2, 0);
        fix_culdesacs(&mut g);
        assert_eq!(odd_count(&g) % 2, 0);
        eulerize(&mut g).unwrap();
        assert_eq!(odd_count(&g), 0);
    }
}

#[test]
fn square_round_trip() {
    let mut g = build_graph("1:10,3:15\n2:10\n3:10\n").unwrap();
    fix_culdesacs(&mut g);
    assert_eq!(degrees(&g), vec![2, 2, 2, 2]);
    eulerize(&mut g).unwrap();
    assert_eq!(degrees(&g), vec![2, 2, 2, 2]);
    let walk = find_cycle(&g);
    assert_eq!(walk.len(), 5);
    assert_eq!(walk[0], walk[4]);
    assert_eq!(walk[4], 0);
    assert!(uses_each_edge_once(&walk, &[(0, 1), (0, 3), (1, 2), (2, 3)]));
    assert_eq!(length_feet(&walk, &g), Some(45));
}

#[test]
fn dead_end_path() {
    let mut g = build_graph("1:5\n2:7\n").unwrap();
    assert_eq!(degrees(&g), vec![1, 2, 1]);
    fix_culdesacs(&mut g);
    assert_eq!(degrees(&g), vec![2, 4, 2]);
    let mut n2 = neighbors(&g, 2);
    n2.sort();
    assert_eq!(n2, vec![(1, 7), (1, 7)]);
    eulerize(&mut g).unwrap();
    assert_eq!(degrees(&g), vec![2, 4, 2]);
    let walk = find_cycle(&g);
    assert_eq!(walk.len(), 5);
    assert_eq!(walk[0], 0);
    assert_eq!(walk[4], 0);
    assert_eq!(length_feet(&walk, &g), Some(24));
}

#[test]
fn isolated_dead_end_pair_is_doubled_twice() {
    let mut g = build_graph("1:3\n").unwrap();
    fix_culdesacs(&mut g);
    assert_eq!(degrees(&g), vec![3, 3]);
}

#[test]
fn eulerize_pairs_path_ends() {
    let mut g = build_graph("1:1\n2:2\n3:3\n").unwrap();
    eulerize(&mut g).unwrap();
    assert_eq!(degrees(&g), vec![2, 4, 4, 2]);
    let walk = find_cycle(&g);
    assert_eq!(walk.len(), 7);
    assert_eq!(walk[0], 0);
    assert_eq!(walk[6], 0);
    assert_eq!(length_feet(&walk, &g), Some(12));
}

#[test]
fn eulerize_prefers_nearest_odd_node() {
    // a star with centre 0: leaves 1, 2, 3 and the centre are odd
    let mut g = build_graph("1:1,2:5,3:9\n").unwrap();
    assert_eq!(degrees(&g), vec![3, 1, 1, 1]);
    eulerize(&mut g).unwrap();
    // 0 pairs with 1 (nearest), then 2 with 3 through 0
    assert_eq!(degrees(&g), vec![6, 2, 2, 2]);
}

#[test]
fn eulerize_keeps_even_graph() {
    let mut g = build_graph("1:1,2:1\n2:1\n").unwrap();
    eulerize(&mut g).unwrap();
    assert_eq!(degrees(&g), vec![2, 2, 2]);
}

#[test]
fn dijkstra_finds_short_way_round() {
    let g = build_graph("1:1,2:5\n2:1\n").unwrap();
    let (dist, pred) = dijkstra(&g, 0);
    assert_eq!(dist, vec![Some(0), Some(1), Some(2)]);
    assert!(pred[0].is_none());
    assert_eq!(pred[2].map(|p| p.0), Some(1));
    let g = build_graph("1:1\n\n3:1\n").unwrap();
    let (dist, _) = dijkstra(&g, 0);
    assert_eq!(dist, vec![Some(0), Some(1), None, None]);
}

#[test]
fn hierholzer_on_triangle() {
    let walk = hierholzer(vec![(0, 1), (1, 2), (2, 0)], 0);
    assert_eq!(walk.len(), 4);
    assert_eq!(walk[0], 0);
    assert_eq!(walk[3], 0);
    assert!(uses_each_edge_once(&walk, &[(0, 1), (1, 2), (2, 0)]));
    assert_eq!(hierholzer(vec![(1, 2)], 0), vec![0]);
}

#[test]
fn length_of_missing_step_is_none() {
    let g = build_graph("1:10,3:15\n2:10\n3:10\n").unwrap();
    assert_eq!(length_feet(&vec![0, 2], &g), None);
    assert_eq!(length_feet(&vec![], &g), Some(0));
    assert_eq!(length_feet(&vec![3], &g), Some(0));
}

#[test]
fn run_plans_square() {
    let route = run("1:10,3:15\n2:10\n3:10\n").ok().unwrap();
    assert_eq!(route.circuit.len(), 5);
    assert_eq!(alphabetize(&route.circuit).len(), 21);
    assert_eq!(length_feet(&route.circuit, &route.graph), Some(45));
    assert!(matches!(run("1:x"), Err(RouteError::Format)));
}

#[test]
fn hierholzer_splices_second_loop() {
    let edges = vec![(0, 1), (1, 2), (2, 0), (2, 3), (3, 4), (4, 2)];
    let walk = hierholzer(edges.clone(), 0);
    assert_eq!(walk.len(), 7);
    assert_eq!(walk[0], 0);
    assert_eq!(walk[6], 0);
    assert!(uses_each_edge_once(&walk, &edges));
}

#[test]
fn dijkstra_with_parallel_edges_and_loops() {
    let g = build_graph("0:3,1:9,1:4
2:1
").unwrap();
    let (dist, pred) = dijkstra(&g, 0);
    assert_eq!(dist, vec![Some(0), Some(4), Some(5)]);
    assert_eq!(pred[1].map(|p| (p.0, p.2)), Some((0, 4)));
}

#[test]
fn nearest_partner_breaks_ties_by_index() {
    let odd = vec![true, true, false, true, true];
    let paired = vec![false, false, false, false, true];
    let dist = vec![Some(0), Some(7), Some(1), Some(7), Some(2)];
    assert_eq!(nearest_partner(&odd, &paired, &dist, 0), Some(1));
    let dist = vec![Some(0), None, Some(1), Some(9), Some(2)];
    assert_eq!(nearest_partner(&odd, &paired, &dist, 0), Some(3));
    let dist = vec![Some(0), None, Some(1), None, Some(2)];
    assert_eq!(nearest_partner(&odd, &paired, &dist, 0), None);
}

#[test]
fn loops_are_counted_by_multiplicity() {
    let g = build_graph("0:5,0:5\n").unwrap();
    assert_eq!(degree(&g, 0), 4);
    assert_eq!(edge_pairs(&g), vec![(0, 0), (0, 0)]);
    let walk = find_cycle(&g);
    assert_eq!(walk, vec![0, 0, 0]);
}

#[test]
fn parallel_edges_each_give_a_pair() {
    let g = build_graph("1:2,1:3\n").unwrap();
    let mut pairs = edge_pairs(&g);
    pairs.sort();
    assert_eq!(pairs, vec![(0, 1), (0, 1)]);
    assert_eq!(find_cycle(&g).len(), 3);
}

#[test]
fn eulerize_adds_copies_of_existing_edges_only() {
    let mut g = build_graph("1:1,2:5,3:9\n").unwrap();
    eulerize(&mut g).unwrap();
    let mut n0 = neighbors(&g, 0);
    n0.sort();
    assert_eq!(n0, vec![(1, 1), (1, 1), (2, 5), (2, 5), (3, 9), (3, 9)]);
}

#[test]
fn eulerize_half_doubled_path_pairs_one_with_zero() {
    let mut g = build_graph("1:5\n2:7,2:7\n").unwrap();
    assert_eq!(degrees(&g), vec![1, 3, 2]);
    eulerize(&mut g).unwrap();
    assert_eq!(degrees(&g), vec![2, 4, 2]);
    let mut n0 = neighbors(&g, 0);
    n0.sort();
    assert_eq!(n0, vec![(1, 5), (1, 5)]);
}

#[test]
fn eulerize_plain_path_doubles_shortest_walk_once() {
    let mut g = build_graph("1:5\n2:7\n").unwrap();
    eulerize(&mut g).unwrap();
    assert_eq!(degrees(&g), vec![2, 4, 2]);
    let mut n1 = neighbors(&g, 1);
    n1.sort();
    assert_eq!(n1, vec![(0, 5), (0, 5), (2, 7), (2, 7)]);
}

#[test]
fn circuit_is_repeatable() {
    let g = build_graph("1:1,2:1,3:1,4:1\n2:1\n\n4:1\n").unwrap();
    let a = find_cycle(&g);
    let b = find_cycle(&g);
    assert_eq!(a, b);
    assert_eq!(a.len(), 7);
    assert_eq!(a[0], 0);
    assert_eq!(a[6], 0);
}

#[test]
fn circuit_covers_only_node_zero_component() {
    // a triangle at 0 and a separate triangle at 3
    let g = build_graph("1:1,2:1\n2:1\n\n4:1,5:1\n5:1\n").unwrap();
    let walk = find_cycle(&g);
    assert_eq!(walk.len(), 4);
    assert!(uses_each_edge_once(&walk, &[(0, 1), (0, 2), (1, 2)]));
}

#[test]
fn dead_end_next_to_junction_gets_degree_two() {
    let mut g = build_graph("1:1,2:1,3:1\n").unwrap();
    fix_culdesacs(&mut g);
    assert_eq!(degrees(&g), vec![6, 2, 2, 2]);
}
