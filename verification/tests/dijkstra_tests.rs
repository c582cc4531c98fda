use vasa::dijkstra::{dijkstra, dijkstra_bidir};
use vasa::graph::{invert, Edge};

// This is the directed graph we're going to use.
// The node numbers correspond to the different states,
// and the edge weights symbolize the cost of moving
// from one node to another.
// Note that the edges are one-way.
//
//                  7
//          +-----------------+
//          |                 |
//          v   1        2    |  2
//          0 -----> 1 -----> 3 ---> 4
//          |        ^        ^      ^
//          |        | 1      |      |
//          |        |        | 3    | 1
//          +------> 2 -------+      |
//           10      |               |
//                   +---------------+
//
// The graph is represented as an adjacency list where each index,
// corresponding to a node value, has a list of outgoing edges.
// Chosen for its efficiency.
fn sample_graph() -> Vec<Vec<Edge>> {
    vec![
        // Node 0
        vec![Edge { node: 2, cost: 10 }, Edge { node: 1, cost: 1 }],
        // Node 1
        vec![Edge { node: 3, cost: 2 }],
        // Node 2
        vec![Edge { node: 1, cost: 1 }, Edge { node: 3, cost: 3 }, Edge { node: 4, cost: 1 }],
        // Node 3
        vec![Edge { node: 0, cost: 7 }, Edge { node: 4, cost: 2 }],
        // Node 4
        vec![],
    ]
}

#[test]
fn test_dijkstra() {
    let graph = sample_graph();

    assert_eq!(dijkstra(&graph, 0, 1), Some(1));
    assert_eq!(dijkstra(&graph, 0, 3), Some(3));
    assert_eq!(dijkstra(&graph, 3, 0), Some(7));
    assert_eq!(dijkstra(&graph, 0, 4), Some(5));
    assert_eq!(dijkstra(&graph, 4, 0), None);
}

#[test]
fn test_dijkstra_bidir() {
    let graph = sample_graph();

    assert_eq!(dijkstra_bidir(&graph, 0, 1), Some(1));
    assert_eq!(dijkstra_bidir(&graph, 0, 3), Some(3));
    assert_eq!(dijkstra_bidir(&graph, 3, 0), Some(7));
    assert_eq!(dijkstra_bidir(&graph, 0, 4), Some(5));
    assert_eq!(dijkstra_bidir(&graph, 4, 0), None);
}

#[test]
fn test_adjency_list_inversion() {
    let graph = sample_graph();
    let res = vec![
        // Node 0
        vec![Edge { node: 3, cost: 7 }],
        // Node 1
        vec![Edge { node: 0, cost: 1 }, Edge { node: 2, cost: 1 }],
        // Node 2
        vec![Edge { node: 0, cost: 10 }],
        // Node 3
        vec![Edge { node: 1, cost: 2 }, Edge { node: 2, cost: 3 }],
        // Node 4
        vec![Edge { node: 2, cost: 1 }, Edge { node: 3, cost: 2 }],
    ];
    assert_eq!(invert(&graph), res);
}

#[test]
fn self_distance_is_zero() {
    let graph = sample_graph();
    for s in 0..graph.len() {
        assert_eq!(dijkstra(&graph, s, s), Some(0));
        assert_eq!(dijkstra_bidir(&graph, s, s), Some(0));
    }
}

#[test]
fn both_strategies_agree_on_every_pair() {
    let graph = sample_graph();
    for s in 0..graph.len() {
        for t in 0..graph.len() {
            assert_eq!(dijkstra(&graph, s, t), dijkstra_bidir(&graph, s, t));
        }
    }
}

#[test]
fn unreachable_in_both_directions() {
    // Two disconnected components: 0 -> 1 and 2 -> 3.
    let graph = vec![
        vec![Edge { node: 1, cost: 4 }],
        vec![],
        vec![Edge { node: 3, cost: 2 }],
        vec![],
    ];
    assert_eq!(dijkstra(&graph, 0, 3), None);
    assert_eq!(dijkstra_bidir(&graph, 0, 3), None);
    assert_eq!(dijkstra(&graph, 2, 1), None);
    assert_eq!(dijkstra_bidir(&graph, 2, 1), None);
}

#[test]
fn identical_input_identical_output() {
    let graph = sample_graph();
    let first = dijkstra(&graph, 0, 4);
    let second = dijkstra(&graph, 0, 4);
    assert_eq!(first, second);
    let first_bidir = dijkstra_bidir(&graph, 0, 4);
    let second_bidir = dijkstra_bidir(&graph, 0, 4);
    assert_eq!(first_bidir, second_bidir);
    assert_eq!(first, first_bidir);
}

fn edge_triples(g: &Vec<Vec<Edge>>) -> Vec<(usize, usize, usize)> {
    let mut out = Vec::new();
    for (u, row) in g.iter().enumerate() {
        for e in row {
            out.push((u, e.node, e.cost));
        }
    }
    out.sort();
    out
}

#[test]
fn double_inversion_restores_edge_multiset() {
    let graph = sample_graph();
    let twice = invert(&invert(&graph));
    assert_eq!(twice.len(), graph.len());
    assert_eq!(edge_triples(&twice), edge_triples(&graph));
}

#[test]
fn triangle_inequality_on_sample() {
    let graph = sample_graph();
    for s in 0..graph.len() {
        for t in 0..graph.len() {
            for m in 0..graph.len() {
                if let (Some(a), Some(b), Some(c)) = (
                    dijkstra(&graph, s, t),
                    dijkstra(&graph, s, m),
                    dijkstra(&graph, m, t),
                ) {
                    assert!(a <= b + c);
                }
            }
        }
    }
}

#[test]
fn multi_edges_self_loops_and_zero_weights() {
    // Parallel edges with different costs, a self-loop, and a zero-cost
    // edge are handled without special-casing.
    let graph = vec![
        vec![
            Edge { node: 1, cost: 9 },
            Edge { node: 1, cost: 3 },
            Edge { node: 0, cost: 1 },
        ],
        vec![Edge { node: 2, cost: 0 }],
        vec![],
    ];
    assert_eq!(dijkstra(&graph, 0, 1), Some(3));
    assert_eq!(dijkstra(&graph, 0, 2), Some(3));
    assert_eq!(dijkstra_bidir(&graph, 0, 2), Some(3));
    // The inverted graph keeps both parallel edges.
    let inv = invert(&graph);
    assert_eq!(inv[1].len(), 2);
}

#[test]
fn single_node_graph() {
    let graph: Vec<Vec<Edge>> = vec![vec![]];
    assert_eq!(dijkstra(&graph, 0, 0), Some(0));
    assert_eq!(dijkstra_bidir(&graph, 0, 0), Some(0));
}
