use shortest_path::frontier::Frontier;
use shortest_path::graph::Graph;
use shortest_path::guard::has_negative_edge;

#[test]
fn guard_detects_negative_weight() {
    assert_eq!(has_negative_edge(&vec![(0, 1, 10), (1, 2, -5)]), true);
    assert_eq!(has_negative_edge(&vec![(0, 1, 10), (1, 2, 5)]), false);
    assert_eq!(has_negative_edge(&Vec::new()), false);
}

#[test]
fn graph_from_edge_list() {
    let edges: Vec<(usize, usize, u32)> = vec![(0, 1, 5), (1, 2, 7), (0, 2, 3)];
    let g = Graph::new(3, &edges).unwrap();
    assert_eq!(g.node_count(), 3);
    assert_eq!(g.edges_from(0), &vec![(1, 5), (2, 3)]);
    assert_eq!(g.edges_from(1), &vec![(2, 7)]);
    assert_eq!(g.edges_from(2), &Vec::new());
}

#[test]
fn graph_rejects_out_of_range_endpoint() {
    let bad_target: Vec<(usize, usize, u32)> = vec![(0, 3, 1)];
    assert!(Graph::new(3, &bad_target).is_none());
    let bad_source: Vec<(usize, usize, u32)> = vec![(7, 0, 1)];
    assert!(Graph::new(3, &bad_source).is_none());
}

#[test]
fn adjacency_rejects_out_of_range_target() {
    let rows: Vec<Vec<(usize, u32)>> = vec![vec![(2, 1)], vec![]];
    assert!(Graph::from_adjacency(rows).is_none());
}

#[test]
fn empty_graph_constructs() {
    let g = Graph::new(0, &Vec::new()).unwrap();
    assert_eq!(g.node_count(), 0);
}

#[test]
fn frontier_pops_cheapest_with_node_tie_break() {
    let mut fr = Frontier::new();
    assert!(fr.is_empty());
    fr.push(9, 1);
    fr.push(3, 7);
    fr.push(3, 2);
    fr.push(5, 0);
    assert_eq!(fr.pop_min(), Some((3, 2)));
    assert_eq!(fr.pop_min(), Some((3, 7)));
    assert_eq!(fr.pop_min(), Some((5, 0)));
    assert_eq!(fr.pop_min(), Some((9, 1)));
    assert_eq!(fr.pop_min(), None);
}
