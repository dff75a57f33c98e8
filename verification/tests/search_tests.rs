use shortest_path::dijkstra::count_shortest_paths;
use shortest_path::dijkstra::shortest_distance;
use shortest_path::dijkstra::shortest_distances;
use shortest_path::dijkstra::shortest_distances_with_predecessors;
use shortest_path::graph::Graph;
use shortest_path::hops::shortest_distance_bounded;
use shortest_path::reconstruct::reconstruct_path;

fn city_graph() -> Graph {
    let rows: Vec<Vec<(usize, u32)>> = vec![
        vec![(1, 30), (2, 50)],
        vec![(0, 30), (3, 20)],
        vec![(0, 50), (3, 40), (4, 60)],
        vec![(1, 20), (2, 40), (5, 15)],
        vec![(2, 60), (5, 25)],
        vec![(3, 15), (4, 25)],
    ];
    Graph::from_adjacency(rows).unwrap()
}

fn diamond_graph() -> Graph {
    let rows: Vec<Vec<(usize, u32)>> = vec![
        vec![(1, 10), (2, 10)],
        vec![(3, 10)],
        vec![(3, 10)],
        vec![],
    ];
    Graph::from_adjacency(rows).unwrap()
}

#[test]
fn city_distances() {
    let g = city_graph();
    assert_eq!(shortest_distances(&g, 0), vec![0, 30, 50, 50, 90, 65]);
}

#[test]
fn city_single_pair() {
    let g = city_graph();
    assert_eq!(shortest_distance(&g, 0, 5), Some(65));
}

#[test]
fn diamond_distance_and_count() {
    let g = diamond_graph();
    assert_eq!(shortest_distance(&g, 0, 3), Some(20));
    assert_eq!(count_shortest_paths(&g, 0, 3), 2);
}

#[test]
fn city_two_hops_is_not_enough() {
    let g = city_graph();
    assert_eq!(shortest_distance_bounded(&g, 0, 5, 2), None);
}

#[test]
fn city_three_hops_matches_unbounded() {
    let g = city_graph();
    assert_eq!(shortest_distance_bounded(&g, 0, 5, 3), Some(65));
    assert_eq!(shortest_distance_bounded(&g, 0, 5, 10), Some(65));
}

#[test]
fn repeated_runs_are_identical() {
    let g = city_graph();
    let first = shortest_distances(&g, 0);
    let second = shortest_distances(&g, 0);
    assert_eq!(first, second);
    let (with_preds, _) = shortest_distances_with_predecessors(&g, 0);
    assert_eq!(first, with_preds);
}

#[test]
fn single_pair_matches_table() {
    let g = city_graph();
    let table = shortest_distances(&g, 0);
    let mut d: usize = 0;
    while d < 6 {
        assert_eq!(shortest_distance(&g, 0, d), Some(table[d]));
        d += 1;
    }
}

#[test]
fn reconstructed_route() {
    let g = city_graph();
    let (dist, prev) = shortest_distances_with_predecessors(&g, 0);
    let path = reconstruct_path(&prev, 0, 5);
    assert_eq!(path, vec![0, 1, 3, 5]);
    assert_eq!(path.len(), 3 + 1);
    assert_eq!(30 + 20 + 15, dist[5]);
}

#[test]
fn reconstruct_source_only() {
    let g = city_graph();
    let (_dist, prev) = shortest_distances_with_predecessors(&g, 0);
    assert_eq!(reconstruct_path(&prev, 0, 0), vec![0]);
}

#[test]
fn unreachable_node() {
    let rows: Vec<Vec<(usize, u32)>> = vec![vec![(1, 5)], vec![], vec![]];
    let g = Graph::from_adjacency(rows).unwrap();
    assert_eq!(shortest_distances(&g, 0), vec![0, 5, u32::MAX]);
    assert_eq!(shortest_distance(&g, 0, 2), None);
    assert_eq!(count_shortest_paths(&g, 0, 2), 0);
    assert_eq!(shortest_distance_bounded(&g, 0, 2, 4), None);
    let (_dist, prev) = shortest_distances_with_predecessors(&g, 0);
    assert_eq!(prev, vec![None, Some(0), None]);
    assert_eq!(reconstruct_path(&prev, 0, 2), Vec::<usize>::new());
}

#[test]
fn source_is_destination() {
    let g = diamond_graph();
    assert_eq!(shortest_distance(&g, 0, 0), Some(0));
    assert_eq!(count_shortest_paths(&g, 0, 0), 1);
    assert_eq!(shortest_distance_bounded(&g, 0, 0, 0), Some(0));
}

#[test]
fn huge_weights_hit_the_sentinel() {
    let rows: Vec<Vec<(usize, u32)>> = vec![
        vec![(1, u32::MAX - 1)],
        vec![(2, u32::MAX - 1)],
        vec![],
    ];
    let g = Graph::from_adjacency(rows).unwrap();
    assert_eq!(shortest_distance(&g, 0, 1), Some(u32::MAX - 1));
    // the two-edge route exceeds the sentinel, so node 2 counts as unreached
    assert_eq!(shortest_distance(&g, 0, 2), None);
    let one_max: Vec<Vec<(usize, u32)>> = vec![vec![(1, u32::MAX)], vec![]];
    let g2 = Graph::from_adjacency(one_max).unwrap();
    assert_eq!(shortest_distance(&g2, 0, 1), None);
}

#[test]
fn equal_cost_routes_interleaved() {
    // two cheapest routes into node 4, found around a costlier direct edge
    let rows: Vec<Vec<(usize, u32)>> = vec![
        vec![(1, 1), (2, 1), (4, 9)],
        vec![(3, 1)],
        vec![(3, 1)],
        vec![(4, 1)],
        vec![],
    ];
    let g = Graph::from_adjacency(rows).unwrap();
    assert_eq!(shortest_distance(&g, 0, 4), Some(3));
    assert_eq!(count_shortest_paths(&g, 0, 4), 2);
}

#[test]
fn bounded_prefers_fewer_hops_when_forced() {
    // the cheap route needs three hops; a dear direct edge fits in one
    let rows: Vec<Vec<(usize, u32)>> = vec![
        vec![(1, 1), (3, 50)],
        vec![(2, 1)],
        vec![(3, 1)],
        vec![],
    ];
    let g = Graph::from_adjacency(rows).unwrap();
    assert_eq!(shortest_distance(&g, 0, 3), Some(3));
    assert_eq!(shortest_distance_bounded(&g, 0, 3, 1), Some(50));
    assert_eq!(shortest_distance_bounded(&g, 0, 3, 2), Some(50));
    assert_eq!(shortest_distance_bounded(&g, 0, 3, 3), Some(3));
}

#[test]
fn counts_multiply_across_stages() {
    // two diamonds in a row: two cheapest routes through each stage
    let rows: Vec<Vec<(usize, u32)>> = vec![
        vec![(1, 1), (2, 1)],
        vec![(3, 1)],
        vec![(3, 1)],
        vec![(4, 1), (5, 1)],
        vec![(6, 1)],
        vec![(6, 1)],
        vec![],
    ];
    let g = Graph::from_adjacency(rows).unwrap();
    assert_eq!(shortest_distance(&g, 0, 6), Some(4));
    assert_eq!(count_shortest_paths(&g, 0, 6), 4);
}
