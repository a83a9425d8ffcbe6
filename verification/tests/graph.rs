use graph::Error;
use graph::Graph;
use graph::Payload;

#[derive(Clone, PartialEq, Debug)]
struct Node {
    x: usize,
    y: usize,
}

impl Payload for Node {
    fn eq_payload(&self, other: &Self) -> bool {
        self == other
    }

    fn duplicate(&self) -> Self {
        self.clone()
    }
}

#[derive(Clone, PartialEq, Debug)]
struct Edge {
    weight: usize,
}

impl Payload for Edge {
    fn eq_payload(&self, other: &Self) -> bool {
        self == other
    }

    fn duplicate(&self) -> Self {
        self.clone()
    }
}

#[test]
fn crate_graph() {
    let mut graph = Graph::new();

    let id1 = graph.add_node(Node { x: 1, y: 1 }).unwrap();
    let id2 = graph.add_node(Node { x: 2, y: 2 }).unwrap();
    let id3 = graph.add_node(Node { x: 3, y: 3 }).unwrap();

    graph.add_edge(id1, id2, Edge { weight: 1 }).unwrap();
    graph.add_edge(id1, id3, Edge { weight: 1 }).unwrap();
    graph.add_edge(id3, id1, Edge { weight: 1 }).unwrap();
}

#[test]
fn add_node_assigns_dense_ids() {
    let mut g: Graph<usize, usize> = Graph::new();
    assert!(g.is_empty());
    assert_eq!(g.add_node(10).unwrap(), 0);
    assert_eq!(g.add_node(20).unwrap(), 1);
    assert_eq!(g.add_node(30).unwrap(), 2);
    assert_eq!(g.node_len(), 3);
    assert!(!g.is_empty());
    assert_eq!(g.nodes(), vec![10, 20, 30]);
}

#[test]
fn add_node_rejects_duplicate_payload() {
    let mut g: Graph<usize, usize> = Graph::new();
    g.add_node(7).unwrap();
    assert_eq!(g.add_node(7), Err(Error::NodeAlreadyExists));
    assert_eq!(g.node_len(), 1);
}

#[test]
fn node_lookup() {
    let mut g: Graph<usize, usize> = Graph::new();
    g.add_node(10).unwrap();
    g.add_node(20).unwrap();
    assert_eq!(g.node(0), Ok(10));
    assert_eq!(g.node(1), Ok(20));
    assert_eq!(g.node(2), Err(Error::NoSuchNode));
    assert_eq!(g.node_id(&20), Ok(1));
    assert_eq!(g.node_id(&99), Err(Error::NoSuchNode));
    assert!(g.has_node(&10));
    assert!(!g.has_node(&99));
}

#[test]
fn add_edge_validates_endpoints() {
    let mut g: Graph<usize, usize> = Graph::new();
    g.add_node(10).unwrap();
    g.add_node(20).unwrap();
    assert_eq!(g.add_edge(0, 5, 1), Err(Error::NoSuchNode));
    assert_eq!(g.add_edge(5, 0, 1), Err(Error::NoSuchNode));
    assert_eq!(g.add_edge(0, 1, 1), Ok(()));
    assert_eq!(g.add_edge(0, 1, 9), Err(Error::EdgeAlreadyExists));
    assert_eq!(g.edge_len(), 1);
}

#[test]
fn edge_queries() {
    let mut g: Graph<usize, usize> = Graph::new();
    g.add_node(10).unwrap();
    g.add_node(20).unwrap();
    g.add_node(30).unwrap();
    g.add_edge(0, 1, 5).unwrap();
    g.add_edge(0, 2, 6).unwrap();
    g.add_edge(2, 0, 7).unwrap();
    assert_eq!(g.edge(0, 1), Ok(5));
    assert_eq!(g.edge(0, 2), Ok(6));
    assert_eq!(g.edge(1, 2), Err(Error::NoSuchEdge));
    assert_eq!(g.edge(9, 0), Err(Error::NoSuchNode));
    assert_eq!(g.has_edge(0, 1), Ok(true));
    assert_eq!(g.has_edge(1, 0), Ok(false));
    assert_eq!(g.has_edge(0, 9), Err(Error::NoSuchNode));
    assert_eq!(g.degree(0), Ok(2));
    assert_eq!(g.degree(1), Ok(0));
    assert_eq!(g.degree(9), Err(Error::NoSuchNode));
    assert_eq!(g.neighbors(0), Ok(vec![1, 2]));
    assert_eq!(g.neighbors(9), Err(Error::NoSuchNode));
    assert_eq!(g.out_edges(2), Ok(vec![(7, 0)]));
    assert_eq!(g.edges(), vec![(0, 1, 5), (0, 2, 6), (2, 0, 7)]);
    assert_eq!(g.adj_list(), vec![vec![1, 2], vec![], vec![0]]);
    assert_eq!(g.edge_list(), vec![vec![(5, 1), (6, 2)], vec![], vec![(7, 0)]]);
    assert_eq!(g.edge_len(), 3);
}

#[test]
fn remove_edge_removes_first_match() {
    let mut g: Graph<usize, usize> = Graph::new();
    g.add_node(10).unwrap();
    g.add_node(20).unwrap();
    g.add_edge(0, 1, 5).unwrap();
    assert!(!g.remove_edge(0, 1, 99));
    assert!(g.remove_edge(0, 1, 5));
    assert_eq!(g.edge_len(), 0);
    assert!(!g.remove_edge(0, 1, 5));
    assert!(!g.remove_edge(9, 1, 5));
}

#[test]
fn edge_round_trip_restores_adjacency() {
    let mut g: Graph<usize, usize> = Graph::new();
    g.add_node(10).unwrap();
    g.add_node(20).unwrap();
    g.add_node(30).unwrap();
    g.add_edge(0, 1, 5).unwrap();
    g.add_edge(2, 0, 7).unwrap();
    let before = g.edge_list();
    g.add_edge(0, 2, 9).unwrap();
    assert!(g.remove_edge(0, 2, 9));
    assert_eq!(g.edge_list(), before);
}

#[test]
fn remove_node_shifts_targets() {
    let mut g: Graph<usize, usize> = Graph::new();
    g.add_node(10).unwrap();
    g.add_node(20).unwrap();
    g.add_node(30).unwrap();
    g.add_edge(0, 1, 1).unwrap();
    g.add_edge(0, 2, 2).unwrap();
    g.add_edge(1, 2, 3).unwrap();
    g.add_edge(2, 0, 4).unwrap();
    assert_eq!(g.remove_node(5), Err(Error::NoSuchNode));
    g.remove_node(1).unwrap();
    // node 1 is gone: edges touching it vanish, targets above 1 shift down
    assert_eq!(g.node_len(), 2);
    assert_eq!(g.nodes(), vec![10, 30]);
    assert_eq!(g.edges(), vec![(0, 1, 2), (1, 0, 4)]);
}

#[test]
fn roots_and_leafs() {
    let mut g: Graph<usize, usize> = Graph::new();
    g.add_node(10).unwrap();
    g.add_node(20).unwrap();
    g.add_node(30).unwrap();
    g.add_edge(0, 1, 1).unwrap();
    g.add_edge(1, 2, 1).unwrap();
    assert_eq!(g.roots(), vec![0]);
    assert_eq!(g.leafs(), vec![2]);
    assert_eq!(g.inv_adj_list(), vec![vec![], vec![0], vec![1]]);
}

#[test]
fn self_loop_not_dag() {
    let mut g: Graph<usize, usize> = Graph::new();
    g.add_node(10).unwrap();
    g.add_edge(0, 0, 1).unwrap();
    assert!(!g.is_dag());
}

#[test]
fn empty_graph_is_dag() {
    let g: Graph<usize, usize> = Graph::new();
    assert!(g.is_dag());
}

#[test]
fn chain_is_dag_and_cycle_is_not() {
    let mut g: Graph<usize, usize> = Graph::new();
    g.add_node(10).unwrap();
    g.add_node(20).unwrap();
    g.add_node(30).unwrap();
    g.add_edge(0, 1, 1).unwrap();
    g.add_edge(1, 2, 1).unwrap();
    assert!(g.is_dag());
    // close the cycle: 0 -> 1 -> 2 -> 1 revisits node 1
    g.add_edge(2, 1, 1).unwrap();
    assert!(!g.is_dag());
}

#[test]
fn u64_payloads() {
    let mut g: Graph<u64, u64> = Graph::new();
    g.add_node(1_000_000_000_000).unwrap();
    g.add_node(2_000_000_000_000).unwrap();
    g.add_edge(0, 1, 42).unwrap();
    assert_eq!(g.edge(0, 1), Ok(42));
    assert_eq!(g.node(0), Ok(1_000_000_000_000));
}
