use amba::graph::{Graph, Node, OfList};
use amba::graph_ipc::{GraphIpc, NodeMetadata};
use std::collections::BTreeMap;

fn n(id: u64, from: &[u64], to: &[u64], of: &[u64]) -> Node {
    Node::from_parts(id, from, to, of)
}

fn sorted(mut v: Vec<u64>) -> Vec<u64> {
    v.sort();
    v
}

#[test]
fn graph_ipc_from_graph_numbers_nodes_by_id() {
    // 0 (stands for 0, 1) → 5 → 9, and 9 → 0
    let mut nodes = BTreeMap::new();
    nodes.insert(0, n(0, &[9], &[5], &[0, 1]));
    nodes.insert(5, n(5, &[0], &[9], &[5]));
    nodes.insert(9, n(9, &[5], &[0], &[9, 12]));
    let graph = Graph::with_nodes(nodes);
    let ipc = GraphIpc::from_graph(&graph);
    let ids: Vec<u64> = ipc.metadata.iter().map(|m| m.id).collect();
    assert_eq!(ids, vec![0, 5, 9]);
    let ofs: Vec<Vec<u64>> = ipc.metadata.iter().map(|m| m.of.to_vec()).collect();
    assert_eq!(ofs, vec![vec![0, 1], vec![5], vec![9, 12]]);
    let mut edges = ipc.edges.clone();
    edges.sort();
    assert_eq!(edges, vec![(0, 1), (1, 2), (2, 0)]);
}

#[test]
fn graph_ipc_from_ipc_builds_nodes_edges_and_merges() {
    let ipc = GraphIpc {
        metadata: vec![
            NodeMetadata { id: 0, of: OfList::from_slice(&[0, 1]) },
            NodeMetadata { id: 2, of: OfList::from_slice(&[2]) },
        ],
        edges: vec![(0, 1), (1, 1)],
    };
    let graph = Graph::from_ipc(&ipc);
    assert_eq!(graph.nodes.keys().copied().collect::<Vec<_>>(), vec![0, 2]);
    assert_eq!(graph.merges.iter().map(|(a, b)| (*a, *b)).collect::<Vec<_>>(), vec![(1, 0)]);
    assert_eq!(sorted(graph.nodes[&0].to.iter()), vec![2]);
    assert_eq!(sorted(graph.nodes[&0].from.iter()), Vec::<u64>::new());
    assert_eq!(sorted(graph.nodes[&2].to.iter()), vec![2]);
    assert_eq!(sorted(graph.nodes[&2].from.iter()), vec![0, 2]);
    assert_eq!(graph.nodes[&0].of.to_vec(), vec![0, 1]);
    assert_eq!(graph.nodes[&2].id, 2);
}

#[test]
fn graph_ipc_later_entry_with_same_id_wins() {
    let ipc = GraphIpc {
        metadata: vec![
            NodeMetadata { id: 3, of: OfList::from_slice(&[3, 4]) },
            NodeMetadata { id: 3, of: OfList::from_slice(&[3, 6]) },
            NodeMetadata { id: 1, of: OfList::from_slice(&[1, 4]) },
        ],
        edges: vec![],
    };
    let graph = Graph::from_ipc(&ipc);
    assert_eq!(graph.nodes.keys().copied().collect::<Vec<_>>(), vec![1, 3]);
    assert_eq!(graph.nodes[&3].of.to_vec(), vec![3, 6]);
    assert_eq!(graph.merges.iter().map(|(a, b)| (*a, *b)).collect::<Vec<_>>(), vec![(4, 1), (6, 3)]);
}

#[test]
fn graph_ipc_round_trip_keeps_nodes_and_edges() {
    let mut nodes = BTreeMap::new();
    nodes.insert(2, n(2, &[7], &[4, 7], &[2, 3]));
    nodes.insert(4, n(4, &[2], &[], &[4]));
    nodes.insert(7, n(7, &[2], &[2], &[7, 8, 10]));
    let graph = Graph::with_nodes(nodes);
    let back = Graph::from_ipc(&GraphIpc::from_graph(&graph));
    assert_eq!(back.nodes.keys().copied().collect::<Vec<_>>(), vec![2, 4, 7]);
    for k in [2u64, 4, 7] {
        assert_eq!(back.nodes[&k].of.to_vec(), graph.nodes[&k].of.to_vec());
        assert_eq!(sorted(back.nodes[&k].to.iter()), sorted(graph.nodes[&k].to.iter()));
    }
    assert_eq!(back.edges(), graph.edges());
}
