use std::collections::{HashMap, HashSet};

use graph_analysis::{
    average_degree, bfs_distances, build_adjacency_list, connected_nodes, dfs, pair_up_nodes,
    parse_edge_line, parse_vertex, read_edge_list, AdjacencyList, DegreeAverage, Edge, GraphError,
    Vertex,
};
use rand::rngs::StdRng;
use rand::SeedableRng;

fn path_edges() -> Vec<Edge> {
    vec![(1, 2), (2, 3), (3, 4), (4, 5), (5, 6)]
}

fn neighbor_set(g: &AdjacencyList, u: Vertex) -> HashSet<Vertex> {
    g.neighbors(u).iter().cloned().collect()
}

fn set_of(items: &[Vertex]) -> HashSet<Vertex> {
    items.iter().cloned().collect()
}

#[test]
fn run_tests2() {
    let adjacency_list = build_adjacency_list(&vec![(1, 2), (2, 3), (3, 4), (4, 5), (5, 6)]);
    let test_edges: Vec<Edge> = path_edges();
    let test_nodes: HashSet<Vertex> = test_edges.iter().flat_map(|&(u, v)| vec![u, v]).collect();
    let mut rng = StdRng::seed_from_u64(1);
    let test_pairs = pair_up_nodes(test_nodes.into_iter().collect(), 5, &mut rng).unwrap();
    let test_adjacency_list = build_adjacency_list(&test_edges);
    assert_eq!(test_pairs.len(), 5);
    assert_eq!(test_adjacency_list.len(), 6);
    for &(start, end) in &test_pairs {
        let distances = bfs_distances(&adjacency_list, start);
        let distance = distances.get(&end).cloned().unwrap_or(usize::MAX);
        assert_eq!(distance, if start > end { start - end } else { end - start });
    }
}

#[test]
fn adjacency_is_symmetric() {
    let edges: Vec<Edge> = vec![(1, 2), (2, 3), (3, 1), (7, 7), (2, 1), (8, 9)];
    let g = build_adjacency_list(&edges);
    let vs = g.vertices();
    for &u in &vs {
        for &v in &vs {
            assert_eq!(neighbor_set(&g, u).contains(&v), neighbor_set(&g, v).contains(&u));
        }
    }
    assert_eq!(neighbor_set(&g, 1), set_of(&[2, 3]));
    assert_eq!(neighbor_set(&g, 7), set_of(&[7]));
    assert_eq!(g.neighbors(2).len(), 2);
}

#[test]
fn adjacency_holds_only_edge_endpoints() {
    let g = build_adjacency_list(&[(4, 10), (10, 20)]);
    assert_eq!(g.vertices(), vec![4, 10, 20]);
    assert!(g.neighbors(5).is_empty());
    let empty = build_adjacency_list(&[]);
    assert_eq!(empty.len(), 0);
    assert!(empty.vertices().is_empty());
}

#[test]
fn bfs_distance_to_self_is_zero() {
    let g = build_adjacency_list(&path_edges());
    for v in 1..=6 {
        assert_eq!(bfs_distances(&g, v).get(&v), Some(&0));
    }
    let lone = bfs_distances(&g, 42);
    assert_eq!(lone.len(), 1);
    assert_eq!(lone.get(&42), Some(&0));
}

#[test]
fn bfs_path_distances() {
    let g = build_adjacency_list(&path_edges());
    let d = bfs_distances(&g, 1);
    let expected: HashMap<Vertex, usize> =
        vec![(1, 0), (2, 1), (3, 2), (4, 3), (5, 4), (6, 5)].into_iter().collect();
    assert_eq!(d, expected);
}

#[test]
fn bfs_shortest_over_cycle() {
    let g = build_adjacency_list(&[(1, 2), (2, 3), (3, 4), (4, 5), (5, 1), (9, 10)]);
    let d = bfs_distances(&g, 1);
    assert_eq!(d.get(&4), Some(&2));
    assert_eq!(d.get(&3), Some(&2));
    assert_eq!(d.get(&5), Some(&1));
    assert_eq!(d.get(&9), None);
    assert_eq!(d.len(), 5);
}

#[test]
fn bfs_distances_are_symmetric() {
    let g = build_adjacency_list(&[(1, 2), (2, 3), (3, 4), (2, 5), (5, 6), (7, 8)]);
    let vs = g.vertices();
    for &u in &vs {
        let du = bfs_distances(&g, u);
        for &v in &vs {
            let dv = bfs_distances(&g, v);
            assert_eq!(du.get(&v), dv.get(&u));
        }
    }
}

#[test]
fn path_is_one_component() {
    let g = build_adjacency_list(&path_edges());
    let comps = connected_nodes(&g);
    assert_eq!(comps.len(), 1);
    assert_eq!(comps[0], set_of(&[1, 2, 3, 4, 5, 6]));
}

#[test]
fn components_partition_vertices() {
    let g = build_adjacency_list(&[(1, 2), (3, 4), (4, 5), (6, 6), (2, 7)]);
    let comps = connected_nodes(&g);
    assert_eq!(comps.len(), 3);
    let mut seen: HashSet<Vertex> = HashSet::new();
    let mut total = 0;
    for c in &comps {
        total += c.len();
        seen.extend(c.iter().cloned());
    }
    assert_eq!(total, 7);
    assert_eq!(seen, set_of(&[1, 2, 3, 4, 5, 6, 7]));
    assert!(comps.contains(&set_of(&[1, 2, 7])));
    assert!(comps.contains(&set_of(&[3, 4, 5])));
    assert!(comps.contains(&set_of(&[6])));
}

#[test]
fn same_component_iff_reached() {
    let g = build_adjacency_list(&[(1, 2), (3, 4), (4, 5), (2, 7)]);
    let comps = connected_nodes(&g);
    let vs = g.vertices();
    for &u in &vs {
        let du = bfs_distances(&g, u);
        let cu = comps.iter().find(|c| c.contains(&u)).unwrap();
        for &v in &vs {
            assert_eq!(cu.contains(&v), du.contains_key(&v));
        }
    }
}

#[test]
fn dfs_collects_reachable_vertices() {
    let g = build_adjacency_list(&[(1, 2), (2, 3), (4, 5)]);
    let mut visited: HashSet<Vertex> = set_of(&[4, 5]);
    let mut component: HashSet<Vertex> = HashSet::new();
    dfs(&g, 3, &mut visited, &mut component);
    assert_eq!(component, set_of(&[1, 2, 3]));
    assert_eq!(visited, set_of(&[1, 2, 3, 4, 5]));
}

#[test]
fn average_degree_of_path() {
    let g = build_adjacency_list(&[(1, 2), (2, 3)]);
    let a = average_degree(&g).unwrap();
    assert_eq!(a, DegreeAverage { total_degree: 4, vertex_count: 3 });
    let mean = a.total_degree as f64 / a.vertex_count as f64;
    assert!((mean - 4.0 / 3.0).abs() < 1e-9);
}

#[test]
fn average_degree_ignores_duplicates_and_counts_self_loops() {
    let g = build_adjacency_list(&[(1, 2), (2, 1), (1, 2), (3, 3)]);
    assert_eq!(average_degree(&g), Ok(DegreeAverage { total_degree: 3, vertex_count: 3 }));
}

#[test]
fn average_degree_of_empty_graph() {
    let g = build_adjacency_list(&[]);
    assert_eq!(average_degree(&g), Err(GraphError::EmptyGraph));
}

#[test]
fn sampler_draws_distinct_pairs() {
    let nodes: Vec<Vertex> = vec![1, 2, 3, 4, 5, 6];
    let mut rng = StdRng::seed_from_u64(2024);
    let pairs = pair_up_nodes(nodes.clone(), 5, &mut rng).unwrap();
    assert_eq!(pairs.len(), 5);
    for &(a, b) in &pairs {
        assert_ne!(a, b);
        assert!(nodes.contains(&a));
        assert!(nodes.contains(&b));
    }
}

#[test]
fn sampler_with_two_vertices() {
    let mut rng = StdRng::seed_from_u64(3);
    let pairs = pair_up_nodes(vec![10, 20], 20, &mut rng).unwrap();
    assert_eq!(pairs.len(), 20);
    for &(a, b) in &pairs {
        assert!((a, b) == (10, 20) || (a, b) == (20, 10));
    }
    assert_eq!(pair_up_nodes(vec![10, 20], 0, &mut rng), Ok(vec![]));
}

#[test]
fn sampler_needs_two_vertices() {
    let mut rng = StdRng::seed_from_u64(5);
    assert_eq!(pair_up_nodes(vec![1], 3, &mut rng), Err(GraphError::InsufficientVertices));
    assert_eq!(pair_up_nodes(vec![], 3, &mut rng), Err(GraphError::InsufficientVertices));
}

#[test]
fn ingestion_trims_and_skips() {
    assert_eq!(parse_edge_line(" 3 , 4 "), Some((3, 4)));
    assert_eq!(parse_edge_line("abc,2"), None);
    assert_eq!(parse_edge_line("\t7,8\r"), Some((7, 8)));
    assert_eq!(parse_edge_line("1,2,3"), Some((1, 2)));
    assert_eq!(parse_edge_line("5"), None);
    assert_eq!(parse_edge_line("5,"), None);
    assert_eq!(parse_edge_line(""), None);
    assert_eq!(parse_edge_line("-1,2"), None);
    assert_eq!(parse_edge_line("+1,2"), Some((1, 2)));
    assert_eq!(parse_edge_line("1 2,3"), None);
}

#[test]
fn ingestion_continues_after_bad_lines() {
    let lines: Vec<String> = vec![" 3 , 4 ", "abc,2", "5,6", "", "x", "7 ,8"]
        .into_iter()
        .map(String::from)
        .collect();
    assert_eq!(read_edge_list(&lines), vec![(3, 4), (5, 6), (7, 8)]);
    assert_eq!(read_edge_list(&vec![]), vec![]);
}

#[test]
fn vertex_parsing() {
    assert_eq!(parse_vertex("0"), Some(0));
    assert_eq!(parse_vertex("12345"), Some(12345));
    assert_eq!(parse_vertex("+9"), Some(9));
    assert_eq!(parse_vertex("+"), None);
    assert_eq!(parse_vertex(""), None);
    assert_eq!(parse_vertex(" 1"), None);
    assert_eq!(parse_vertex("1a"), None);
    assert_eq!(parse_vertex("18446744073709551615"), Some(usize::MAX));
    assert_eq!(parse_vertex("18446744073709551616"), None);
    assert_eq!(parse_vertex("99999999999999999999999x"), None);
}
