use graph_color::Graph;

#[test]
fn new_graph_is_empty() {
    let g = Graph::new(5);
    assert_eq!(g.num_nodes(), 5);
    for i in 0..5 {
        assert!(g.neighbors(i).is_empty());
    }
}

#[test]
fn add_edge_is_symmetric_and_sorted() {
    let mut g = Graph::new(4);
    g.add_edge(0, 3);
    g.add_edge(0, 1);
    g.add_edge(2, 0);
    assert_eq!(*g.neighbors(0), vec![1, 2, 3]);
    assert_eq!(*g.neighbors(1), vec![0]);
    assert_eq!(*g.neighbors(2), vec![0]);
    assert_eq!(*g.neighbors(3), vec![0]);
}

#[test]
fn check_tells_valid_from_conflicting_colorings() {
    let mut g = Graph::new(3);
    g.add_edge(0, 1);
    g.add_edge(1, 2);
    assert!(g.check(&vec![0, 1, 0]));
    assert!(!g.check(&vec![0, 0, 1]));
    assert!(!g.check(&vec![1, 0, 0]));
}

#[test]
fn check_only_compares_adjacent_entries() {
    let mut g = Graph::new(2);
    g.add_edge(0, 1);
    assert!(g.check(&vec![100, 7]));
    assert!(!g.check(&vec![7, 7]));
    let lone = Graph::new(0);
    assert!(lone.check(&vec![]));
}
