use graph::algo::dijkstra;
use graph::algo::find_mst;
use graph::algo::neighborhood;
use graph::Error;
use graph::Graph;

fn triangle() -> Graph<usize, usize> {
    // nodes {0,1,2}, edges 0->1 (w=1), 1->2 (w=1), 0->2 (w=5)
    let mut g: Graph<usize, usize> = Graph::new();
    g.add_node(100).unwrap();
    g.add_node(200).unwrap();
    g.add_node(300).unwrap();
    g.add_edge(0, 1, 1).unwrap();
    g.add_edge(1, 2, 1).unwrap();
    g.add_edge(0, 2, 5).unwrap();
    g
}

#[test]
fn dijkstra_takes_the_short_way() {
    let g = triangle();
    let dist = dijkstra(g, 0, 2, |w: usize| w).unwrap();
    assert_eq!(dist[&2], 2);
    assert_eq!(dist[&0], 0);
}

#[test]
fn dijkstra_start_is_end() {
    let g = triangle();
    let dist = dijkstra(g, 1, 1, |w: usize| w).unwrap();
    assert_eq!(dist[&1], 0);
}

#[test]
fn dijkstra_prefers_longer_cheaper_path() {
    let mut g: Graph<usize, usize> = Graph::new();
    for p in [10, 20, 30, 40] {
        g.add_node(p).unwrap();
    }
    g.add_edge(0, 1, 5).unwrap();
    g.add_edge(0, 2, 1).unwrap();
    g.add_edge(2, 3, 1).unwrap();
    g.add_edge(3, 1, 1).unwrap();
    let dist = dijkstra(g, 0, 1, |w: usize| w).unwrap();
    assert_eq!(dist[&1], 3);
}

#[test]
fn dijkstra_no_path() {
    let mut g: Graph<usize, usize> = Graph::new();
    g.add_node(10).unwrap();
    g.add_node(20).unwrap();
    g.add_edge(1, 0, 1).unwrap();
    assert_eq!(dijkstra(g, 0, 1, |w: usize| w), Err(Error::NoSuchPath));
}

#[test]
fn dijkstra_bad_start() {
    let g = triangle();
    assert_eq!(dijkstra(g, 9, 0, |w: usize| w), Err(Error::NoSuchNode));
}

#[test]
fn mst_triangle() {
    // triangle 0-1:1, 1-2:1, 0-2:5 taken as undirected pairs
    let mut g: Graph<usize, usize> = Graph::new();
    g.add_node(100).unwrap();
    g.add_node(200).unwrap();
    g.add_node(300).unwrap();
    g.add_edge(0, 1, 1).unwrap();
    g.add_edge(1, 0, 1).unwrap();
    g.add_edge(1, 2, 1).unwrap();
    g.add_edge(2, 1, 1).unwrap();
    g.add_edge(0, 2, 5).unwrap();
    g.add_edge(2, 0, 5).unwrap();
    let mst = find_mst(g, |w: usize| w);
    assert_eq!(mst, vec![(0, 1, 1), (1, 2, 1)]);
    let total: usize = mst.iter().map(|e| e.2).sum();
    assert_eq!(total, 2);
}

#[test]
fn mst_of_empty_graph_is_empty() {
    let g: Graph<usize, usize> = Graph::new();
    assert_eq!(find_mst(g, |w: usize| w), vec![]);
}

#[test]
fn neighborhood_zero_hops_is_start() {
    let g = triangle();
    assert_eq!(neighborhood(g, 1, 0), Ok(vec![1]));
    // zero hops answers even for an identifier that is out of range
    let g = triangle();
    assert_eq!(neighborhood(g, 9, 0), Ok(vec![9]));
}

#[test]
fn neighborhood_one_hop_is_direct_neighbors() {
    let g = triangle();
    assert_eq!(neighborhood(g, 0, 1), Ok(vec![1, 2]));
    let g = triangle();
    assert_eq!(neighborhood(g, 9, 1), Err(Error::NoSuchNode));
}

#[test]
fn neighborhood_two_hops_on_path() {
    // path graph 0-1-2-3
    let mut g: Graph<usize, usize> = Graph::new();
    for p in [10, 20, 30, 40] {
        g.add_node(p).unwrap();
    }
    g.add_edge(0, 1, 1).unwrap();
    g.add_edge(1, 0, 1).unwrap();
    g.add_edge(1, 2, 1).unwrap();
    g.add_edge(2, 1, 1).unwrap();
    g.add_edge(2, 3, 1).unwrap();
    g.add_edge(3, 2, 1).unwrap();
    assert_eq!(neighborhood(g, 0, 2), Ok(vec![2]));
}

#[test]
fn neighborhood_exhausted_frontier_is_empty() {
    let g = triangle();
    assert_eq!(neighborhood(g, 2, 3), Ok(vec![]));
}

#[test]
fn neighborhood_diamond_visits_once() {
    // diamond: 0 -> {1,2} -> 3; node 3 is reported once at two hops
    let mut g: Graph<usize, usize> = Graph::new();
    for p in [10, 20, 30, 40] {
        g.add_node(p).unwrap();
    }
    g.add_edge(0, 1, 1).unwrap();
    g.add_edge(0, 2, 1).unwrap();
    g.add_edge(1, 3, 1).unwrap();
    g.add_edge(2, 3, 1).unwrap();
    assert_eq!(neighborhood(g, 0, 2), Ok(vec![3]));
}

#[test]
fn dijkstra_distance_saturates() {
    let mut g: Graph<usize, usize> = Graph::new();
    for p in [10, 20, 30] {
        g.add_node(p).unwrap();
    }
    g.add_edge(0, 1, usize::MAX).unwrap();
    g.add_edge(1, 2, usize::MAX).unwrap();
    let dist = dijkstra(g, 0, 2, |w: usize| w).unwrap();
    assert_eq!(dist[&2], usize::MAX);
}

#[test]
fn mst_disconnected_graph_is_forest() {
    // two components: 0-1 and 2-3; only two edges can be accepted
    let mut g: Graph<usize, usize> = Graph::new();
    for p in [10, 20, 30, 40] {
        g.add_node(p).unwrap();
    }
    g.add_edge(0, 1, 2).unwrap();
    g.add_edge(1, 0, 2).unwrap();
    g.add_edge(2, 3, 1).unwrap();
    g.add_edge(3, 2, 1).unwrap();
    let mst = find_mst(g, |w: usize| w);
    assert_eq!(mst, vec![(2, 3, 1), (0, 1, 2)]);
}
