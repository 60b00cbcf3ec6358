use torchbearer::path::{astar_path, Graph, NodeId};

/// A small hand-built directed graph: edges with unit costs and no heuristic,
/// so the search degenerates to a uniform-cost search.
struct RingWithChord {
    node_count: usize,
    edges: Vec<Vec<NodeId>>,
}

impl RingWithChord {
    fn new() -> Self {
        // 0 -> 1 -> 2 -> 3 -> 4 -> 0, plus a chord 1 -> 4, and 5 isolated
        RingWithChord {
            node_count: 6,
            edges: vec![
                vec![1],
                vec![2, 4],
                vec![3],
                vec![4],
                vec![0],
                vec![],
            ],
        }
    }
}

impl Graph for RingWithChord {
    fn node_count(&self) -> usize {
        self.node_count
    }

    fn cost_between(&self, _a: NodeId, _b: NodeId) -> u64 {
        1000
    }

    fn heuristic(&self, _a: NodeId, _b: NodeId) -> u64 {
        0
    }

    fn neighboors(&self, a: NodeId, into: &mut Vec<NodeId>) {
        for &n in &self.edges[a] {
            into.push(n);
        }
    }
}

#[test]
fn astar_abstract_graph_takes_the_chord() {
    let graph = RingWithChord::new();
    let path = astar_path(&graph, 0, 4).expect("4 is reachable from 0");
    assert_eq!(path, vec![0, 1, 4]);
}

#[test]
fn astar_abstract_graph_follows_direction() {
    let graph = RingWithChord::new();
    // edges are directed: reaching 3 from 4 must go the long way around
    let path = astar_path(&graph, 4, 3).expect("3 is reachable from 4");
    assert_eq!(path, vec![4, 0, 1, 2, 3]);
}

#[test]
fn astar_abstract_graph_no_path_to_isolated_node() {
    let graph = RingWithChord::new();
    assert_eq!(astar_path(&graph, 0, 5), None);
}

#[test]
fn astar_abstract_graph_trivial_path() {
    let graph = RingWithChord::new();
    assert_eq!(astar_path(&graph, 2, 2), Some(vec![2]));
}
