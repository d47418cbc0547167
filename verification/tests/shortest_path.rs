use std::collections::HashMap;
use std::iter::FromIterator;

use networkg::graph::Graph;

fn lengths_of(pairs: &[(usize, usize)]) -> HashMap<usize, usize> {
    HashMap::from_iter(pairs.iter().cloned())
}

#[test]
fn test_distance_to_self() {
    let g = Graph::new(1);
    let path_lengths = g.single_source_shortest_path_length(0);
    assert_eq!(Some(&0), path_lengths.get(&0));
}

#[test]
fn test_only_reaches_self_when_disconnected() {
    let g = Graph::new(10);
    let path_lengths = g.single_source_shortest_path_length(0);
    assert!(path_lengths.contains_key(&0));
    assert_eq!(1, path_lengths.len());
}

#[test]
fn test_small() {
    let mut g = Graph::new(4);
    g.add_edge(0, 1).unwrap();
    g.add_edge(1, 2).unwrap();
    g.add_edge(2, 3).unwrap();
    g.add_edge(0, 3).unwrap();

    let path_lengths = g.single_source_shortest_path_length(0);
    let target: HashMap<usize, usize> =
        HashMap::from_iter([(0, 0), (1, 1), (2, 2), (3, 1)].iter().cloned());
    assert_eq!(target, path_lengths);
}

#[test]
fn test_single_node_yields_exactly_itself() {
    let g = Graph::new(1);
    assert_eq!(lengths_of(&[(0, 0)]), g.single_source_shortest_path_length(0));
}

#[test]
fn test_chain_counts_every_hop() {
    let mut g = Graph::new(4);
    g.add_edge(0, 1).unwrap();
    g.add_edge(1, 2).unwrap();
    g.add_edge(2, 3).unwrap();
    let path_lengths = g.single_source_shortest_path_length(0);
    assert_eq!(3, path_lengths[&3]);
    assert_eq!(lengths_of(&[(0, 0), (1, 1), (2, 2), (3, 3)]), path_lengths);
}

#[test]
fn test_edges_are_directed() {
    let mut g = Graph::new(3);
    g.add_edge(0, 1).unwrap();
    g.add_edge(1, 2).unwrap();
    assert_eq!(lengths_of(&[(2, 0)]), g.single_source_shortest_path_length(2));
    assert_eq!(lengths_of(&[(1, 0), (2, 1)]), g.single_source_shortest_path_length(1));
}

#[test]
fn test_unreachable_nodes_are_absent() {
    let mut g = Graph::new(5);
    g.add_edge(0, 1).unwrap();
    g.add_edge(3, 4).unwrap();
    let path_lengths = g.single_source_shortest_path_length(0);
    assert_eq!(lengths_of(&[(0, 0), (1, 1)]), path_lengths);
    assert!(!path_lengths.contains_key(&2));
    assert!(!path_lengths.contains_key(&3));
    assert!(!path_lengths.contains_key(&4));
}

#[test]
fn test_cycle_and_self_loop_keep_first_discovery() {
    let mut g = Graph::new(4);
    g.add_edge(0, 0).unwrap();
    g.add_edge(0, 1).unwrap();
    g.add_edge(1, 2).unwrap();
    g.add_edge(2, 0).unwrap();
    g.add_edge(2, 3).unwrap();
    g.add_edge(1, 3).unwrap();
    assert_eq!(
        lengths_of(&[(0, 0), (1, 1), (2, 2), (3, 2)]),
        g.single_source_shortest_path_length(0)
    );
    assert_eq!(
        lengths_of(&[(2, 0), (0, 1), (3, 1), (1, 2)]),
        g.single_source_shortest_path_length(2)
    );
}

#[test]
fn test_repeated_edges_do_not_change_lengths() {
    let mut g = Graph::new(3);
    g.add_edge(0, 1).unwrap();
    g.add_edge(0, 1).unwrap();
    g.add_edge(1, 2).unwrap();
    g.add_edge(1, 2).unwrap();
    assert_eq!(
        lengths_of(&[(0, 0), (1, 1), (2, 2)]),
        g.single_source_shortest_path_length(0)
    );
}

#[test]
fn test_fully_connected_is_one_hop_from_anywhere() {
    let g = Graph::fully_connected(5);
    for source in 0..5 {
        let path_lengths = g.single_source_shortest_path_length(source);
        assert_eq!(5, path_lengths.len());
        for node in 0..5 {
            let expected = if node == source { 0 } else { 1 };
            assert_eq!(expected, path_lengths[&node]);
        }
    }
}

#[test]
fn test_shorter_late_branch_wins() {
    let mut g = Graph::new(6);
    g.add_edges(vec![(0, 1), (1, 2), (2, 3), (3, 4), (4, 5), (0, 4)].into_iter())
        .unwrap();
    assert_eq!(
        lengths_of(&[(0, 0), (1, 1), (2, 2), (3, 3), (4, 1), (5, 2)]),
        g.single_source_shortest_path_length(0)
    );
}

/// Distances by repeated relaxation over all edges, for comparison.
fn relaxed_lengths(rows: &[Vec<usize>], source: usize) -> HashMap<usize, usize> {
    let mut best: Vec<Option<usize>> = vec![None; rows.len()];
    best[source] = Some(0);
    for _ in 0..rows.len() {
        for from in 0..rows.len() {
            if let Some(hops) = best[from] {
                for &to in &rows[from] {
                    if best[to].map_or(true, |known| known > hops + 1) {
                        best[to] = Some(hops + 1);
                    }
                }
            }
        }
    }
    best.iter()
        .enumerate()
        .filter_map(|(node, hops)| hops.map(|hops| (node, hops)))
        .collect()
}

#[test]
fn test_agrees_with_relaxation_on_scattered_graphs() {
    let mut state: u64 = 0x2545_f491_4f6c_dd1d;
    let mut next = move |bound: usize| {
        state = state
            .wrapping_mul(6364136223846793005)
            .wrapping_add(1442695040888963407);
        ((state >> 33) as usize) % bound
    };
    for size in [1usize, 2, 5, 17, 40] {
        for edges in [0usize, size / 2, size, 3 * size] {
            let mut g = Graph::new(size);
            for _ in 0..edges {
                let from = next(size);
                let to = next(size);
                g.add_edge(from, to).unwrap();
            }
            for source in 0..size {
                assert_eq!(
                    relaxed_lengths(g.nodes(), source),
                    g.single_source_shortest_path_length(source)
                );
            }
        }
    }
}
