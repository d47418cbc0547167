use networkg::error::{BoundsError, ErrorKind};
use networkg::graph::Graph;

fn rows(g: &Graph) -> Vec<Vec<usize>> {
    g.nodes().clone()
}

#[test]
fn test_new_has_empty_rows() {
    let g = Graph::new(10);
    assert_eq!(10, g.size());
    assert_eq!(10, g.nodes().len());
    assert!(g.nodes().iter().all(|row| row.is_empty()));
}

#[test]
fn test_new_of_size_zero_has_no_nodes() {
    let g = Graph::new(0);
    assert_eq!(0, g.size());
    assert!(g.nodes().is_empty());
}

#[test]
fn test_fully_connected_rows() {
    let g = Graph::fully_connected(4);
    assert_eq!(4, g.size());
    assert_eq!(
        vec![vec![1, 2, 3], vec![0, 2, 3], vec![0, 1, 3], vec![0, 1, 2]],
        rows(&g)
    );
}

#[test]
fn test_fully_connected_small_sizes() {
    assert_eq!(Vec::<Vec<usize>>::new(), rows(&Graph::fully_connected(0)));
    assert_eq!(vec![Vec::<usize>::new()], rows(&Graph::fully_connected(1)));
    assert_eq!(vec![vec![1], vec![0]], rows(&Graph::fully_connected(2)));
}

#[test]
fn test_fully_connected_has_no_self_loops() {
    let g = Graph::fully_connected(7);
    for (n, row) in g.nodes().iter().enumerate() {
        assert_eq!(6, row.len());
        assert!(!row.contains(&n));
        for other in 0..7 {
            assert_eq!(other != n, row.contains(&other));
        }
    }
}

#[test]
fn test_add_edge_appends_last() {
    let mut g = Graph::new(10);
    assert_eq!(Ok(()), g.add_edge(0, 9));
    assert_eq!(vec![9], g.nodes()[0]);
    assert_eq!(Ok(()), g.add_edge(0, 3));
    assert_eq!(Ok(()), g.add_edge(0, 0));
    assert_eq!(vec![9, 3, 0], g.nodes()[0]);
    for n in 1..10 {
        assert!(g.nodes()[n].is_empty());
    }
    assert_eq!(10, g.size());
}

#[test]
fn test_add_edge_twice_keeps_both() {
    let mut g = Graph::new(2);
    g.add_edge(0, 1).unwrap();
    g.add_edge(0, 1).unwrap();
    assert_eq!(vec![vec![1, 1], vec![]], rows(&g));
}

#[test]
fn test_add_edge_out_of_bounds_target() {
    let mut g = Graph::new(3);
    g.add_edge(1, 2).unwrap();
    let before = rows(&g);
    assert_eq!(Err(BoundsError { index: 5, size: 3 }), g.add_edge(0, 5));
    assert_eq!(before, rows(&g));
}

#[test]
fn test_add_edge_out_of_bounds_source() {
    let mut g = Graph::new(3);
    assert_eq!(Err(BoundsError { index: 3, size: 3 }), g.add_edge(3, 0));
    assert_eq!(Err(BoundsError { index: 8, size: 3 }), g.add_edge(8, 4));
    assert_eq!(Err(BoundsError { index: 8, size: 3 }), g.add_edge(4, 8));
    assert_eq!(vec![Vec::<usize>::new(); 3], rows(&g));
}

#[test]
fn test_add_edge_largest_index_fits() {
    let mut g = Graph::new(3);
    assert_eq!(Ok(()), g.add_edge(2, 2));
    assert_eq!(vec![vec![], vec![], vec![2]], rows(&g));
}

#[test]
fn test_add_edge_on_empty_graph_fails() {
    let mut g = Graph::new(0);
    assert_eq!(Err(BoundsError { index: 0, size: 0 }), g.add_edge(0, 0));
}

#[test]
fn test_add_edges_in_order() {
    let mut g = Graph::new(3);
    assert_eq!(
        Ok(()),
        g.add_edges(vec![(0, 1), (1, 2), (0, 2), (0, 1)].into_iter())
    );
    assert_eq!(vec![vec![1, 2, 1], vec![2], vec![]], rows(&g));
}

#[test]
fn test_add_edges_of_nothing() {
    let mut g = Graph::new(2);
    assert_eq!(Ok(()), g.add_edges(Vec::new().into_iter()));
    assert_eq!(vec![Vec::<usize>::new(); 2], rows(&g));
}

#[test]
fn test_add_edges_stops_at_first_failure() {
    let mut g = Graph::new(3);
    let result = g.add_edges(vec![(0, 1), (1, 2), (2, 3), (0, 2), (9, 9)].into_iter());
    assert_eq!(Err(BoundsError { index: 3, size: 3 }), result);
    assert_eq!(vec![vec![1], vec![2], vec![]], rows(&g));
}

#[test]
fn test_add_edges_takes_a_single_pass_producer() {
    let mut g = Graph::new(4);
    let result = g.add_edges((0..3).map(|n| (n, n + 1)));
    assert_eq!(Ok(()), result);
    assert_eq!(vec![vec![1], vec![2], vec![3], vec![]], rows(&g));
}

#[test]
fn test_add_falliable_edges_all_good() {
    let mut g = Graph::new(3);
    let items: Vec<Result<(usize, usize), ErrorKind>> = vec![Ok((0, 1)), Ok((1, 2))];
    assert_eq!(Ok(()), g.add_falliable_edges(items.into_iter()));
    assert_eq!(vec![vec![1], vec![2], vec![]], rows(&g));
}

#[test]
fn test_add_falliable_edges_passes_the_item_error_on() {
    let mut g = Graph::new(3);
    let failure = ErrorKind::ParseError { line: 1, cause: String::from("not a pair") };
    let items: Vec<Result<(usize, usize), ErrorKind>> =
        vec![Ok((0, 1)), Err(failure.clone()), Ok((1, 2)), Ok((7, 7))];
    assert_eq!(Err(failure), g.add_falliable_edges(items.into_iter()));
    assert_eq!(vec![vec![1], vec![], vec![]], rows(&g));
}

#[test]
fn test_add_falliable_edges_bounds_failure_comes_first() {
    let mut g = Graph::new(3);
    let items: Vec<Result<(usize, usize), ErrorKind>> = vec![
        Ok((2, 0)),
        Ok((0, 4)),
        Err(ErrorKind::ImportError { cause: String::from("gone") }),
    ];
    assert_eq!(
        Err(ErrorKind::BoundsError(BoundsError { index: 4, size: 3 })),
        g.add_falliable_edges(items.into_iter())
    );
    assert_eq!(vec![vec![], vec![], vec![0]], rows(&g));
}

#[test]
fn test_bounds_message() {
    let mut g = Graph::new(3);
    let error = g.add_edge(0, 5).unwrap_err();
    assert_eq!("Node with id 5 does not fit in Graph of size 3.", error.message());
    assert_eq!(
        "Node with id 1234567890 does not fit in Graph of size 0.",
        BoundsError { index: 1234567890, size: 0 }.message()
    );
    assert_eq!(
        format!("Node with id {} does not fit in Graph of size {}.", usize::MAX, 10),
        BoundsError { index: usize::MAX, size: 10 }.message()
    );
}

#[test]
fn test_error_kind_messages() {
    assert_eq!(
        "Node with id 100 does not fit in Graph of size 99.",
        ErrorKind::BoundsError(BoundsError { index: 100, size: 99 }).message()
    );
    assert_eq!(
        "no such file",
        ErrorKind::ImportError { cause: String::from("no such file") }.message()
    );
    assert_eq!(
        "line 20: expected two fields",
        ErrorKind::ParseError { line: 20, cause: String::from("expected two fields") }.message()
    );
}
