use graph::Graph;
use graph::Payload;

#[derive(Clone, PartialEq, Debug)]
struct Coordinates {
    lan: f32,
    lon: f32,
}

impl Coordinates {
    fn new(lan: f32, lon: f32) -> Self {
        Self { lan, lon }
    }
}

impl Payload for Coordinates {
    fn eq_payload(&self, other: &Self) -> bool {
        self == other
    }

    fn duplicate(&self) -> Self {
        self.clone()
    }
}

fn load(lines: Vec<&str>, is_bi: bool) -> Graph<Coordinates, usize> {
    let n: usize = lines[0].parse().unwrap();
    let m: usize = lines[1].parse().unwrap();

    let mut graph = Graph::new();

    for i in 0..n {
        let split: Vec<&str> = lines[i + 2].split(" ").collect();
        graph
            .add_node(Coordinates::new(
                split[0].parse().unwrap(),
                split[1].parse().unwrap(),
            ))
            .unwrap();
    }

    for i in 0..m {
        let split: Vec<&str> = lines[i + n + 2].split(" ").collect();
        graph
            .add_edge(
                split[0].parse().unwrap(),
                split[1].parse().unwrap(),
                split[2].parse().unwrap(),
            )
            .unwrap();
        if is_bi {
            graph
                .add_edge(
                    split[1].parse().unwrap(),
                    split[0].parse().unwrap(),
                    split[2].parse().unwrap(),
                )
                .unwrap();
        }
    }

    graph
}

const GRAPH_SMALL: &str = "4\n4\n0.0 0.5\n1.0 0.5\n2.0 0.5\n3.0 0.5\n0 1 1\n1 2 1\n0 2 5\n2 3 2";

const MST_SMALL: &str = "0 1 1\n1 2 1\n2 3 2";

const GRAPH_BIG: &str = "6\n8\n0.0 0.5\n1.0 0.5\n2.0 0.5\n3.0 0.5\n4.0 0.5\n5.0 0.5\n0 1 4\n0 2 3\n1 2 1\n1 3 2\n2 3 4\n3 4 2\n4 5 6\n3 5 7";

const MST_BIG: &str = "1 2 1\n1 3 2\n3 4 2\n0 2 3\n4 5 6";

fn parse_mst(text: &str) -> Vec<(usize, usize, usize)> {
    text.split("\n")
        .map(|s| -> (usize, usize, usize) {
            let sp: Vec<&str> = s.split(" ").collect();
            (
                sp[0].parse().unwrap(),
                sp[1].parse().unwrap(),
                sp[2].parse().unwrap(),
            )
        })
        .collect()
}

#[test]
fn mst_small() {
    let lines = GRAPH_SMALL.split("\n").collect();
    let graph = load(lines, true);

    let mst = graph::algo::find_mst(graph, |x: usize| x);
    let out = parse_mst(MST_SMALL);

    assert_eq!(out, mst);
}

#[test]
fn mst_big() {
    let lines = GRAPH_BIG.split("\n").collect();
    let graph = load(lines, true);

    let mst = graph::algo::find_mst(graph, |x: usize| x);
    let out = parse_mst(MST_BIG);

    assert_eq!(out, mst);
}
