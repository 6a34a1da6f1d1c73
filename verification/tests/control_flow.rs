use amba::control_flow::{ControlFlowGraph, GraphIpc};
use amba::metadata::{merge_nodes_into_single_metadata, CompressedBasicBlock, NodeMetadata};

fn node(i: u32) -> NodeMetadata {
    NodeMetadata::State { amba_state_id: i }
}

fn block(i: u8) -> NodeMetadata {
    NodeMetadata::BasicBlock {
        symbolic_state_id: 7,
        basic_block_vaddr: Some(0x1000 + i as u64),
        basic_block_generation: None,
        basic_block_elf_vaddr: Some(0x40_0000 + i as u64),
        basic_block_content: vec![i, i + 1],
    }
}

#[test]
fn control_flow_test1() {
    let mut cfg = ControlFlowGraph::new();
    // 0 → 1
    assert!(cfg.update(node(0), node(1)));
    assert_eq!(cfg.graph.len(), 2);
    assert_eq!(cfg.compressed_graph.len(), 1);
    assert!(!cfg.update(node(0), node(1)));

    // 0 → 1 → 2
    assert!(cfg.update(node(1), node(2)));
    assert_eq!(cfg.graph.len(), 3);
    assert_eq!(cfg.compressed_graph.len(), 1);
    assert!(!cfg.update(node(1), node(2)));

    // 0 → 1 → 2
    //     ↓
    //     3
    assert!(cfg.update(node(1), node(3)));
    assert_eq!(cfg.graph.len(), 4);
    assert_eq!(cfg.compressed_graph.len(), 3);
    assert!(!cfg.update(node(1), node(3)));

    // 0 → 1 → 2
    // ↑   ↓
    // 4   3
    assert!(cfg.update(node(4), node(0)));
    assert_eq!(cfg.graph.len(), 5);
    assert_eq!(cfg.compressed_graph.len(), 3);
    assert!(!cfg.update(node(4), node(0)));
}

#[test]
fn control_flow_metadata_indices() {
    let mut cfg = ControlFlowGraph::new();
    assert!(cfg.update(node(100), node(7)));
    assert!(cfg.update(node(7), node(100)));
    assert_eq!(cfg.metadata, vec![node(100), node(7)]);
    assert_eq!(cfg.graph.edges(), vec![(0, 1), (1, 0)]);
    assert_eq!(cfg.updates, 2);
    assert_eq!(cfg.rebuilds, 2);
    assert!(!cfg.update(node(7), node(100)));
    assert_eq!(cfg.updates, 3);
    assert_eq!(cfg.rebuilds, 2);
}

#[test]
fn control_flow_metadata_sharing_a_bucket_stay_apart() {
    // Same address, different content: two distinct blocks.
    let a = block(1);
    let b = NodeMetadata::BasicBlock {
        symbolic_state_id: 7,
        basic_block_vaddr: Some(0x1001),
        basic_block_generation: None,
        basic_block_elf_vaddr: Some(0x40_0001),
        basic_block_content: vec![9],
    };
    // A state whose id equals the address lands in the same bucket too.
    let c = node(0x1001);
    let mut cfg = ControlFlowGraph::new();
    assert!(cfg.update(a.clone(), b.clone()));
    assert!(cfg.update(b.clone(), c.clone()));
    assert!(!cfg.update(a.clone(), b.clone()));
    assert_eq!(cfg.metadata, vec![a, b, c]);
    assert_eq!(cfg.graph.edges(), vec![(0, 1), (1, 2)]);
}

#[test]
fn control_flow_from_edges_and_back() {
    let cfg = ControlFlowGraph::from_edges(&[(node(10), node(20)), (node(20), node(30)), (node(10), node(20)), (node(30), node(10))]);
    assert_eq!(cfg.metadata, vec![node(10), node(20), node(30)]);
    assert_eq!(cfg.updates, 4);
    let ipc = cfg.to_ipc();
    assert_eq!(ipc.metadata, vec![node(10), node(20), node(30)]);
    assert_eq!(ipc.edges, vec![(0, 1), (1, 2), (2, 0)]);
    let back = ControlFlowGraph::from_ipc(&ipc);
    assert_eq!(back.metadata, cfg.metadata);
    assert_eq!(back.graph.edges(), cfg.graph.edges());
}

#[test]
fn control_flow_from_ipc_renumbers_by_first_use() {
    let ipc = GraphIpc { metadata: vec![node(5), node(6), node(7)], edges: vec![(2, 0), (0, 1)] };
    let cfg = ControlFlowGraph::from_ipc(&ipc);
    assert_eq!(cfg.metadata, vec![node(7), node(5), node(6)]);
    assert_eq!(cfg.graph.edges(), vec![(0, 1), (1, 2)]);
}

#[test]
fn control_flow_raw_metadata_and_self_edges() {
    let mut cfg = ControlFlowGraph::new();
    cfg.update(node(3), node(4));
    cfg.update(node(4), node(4));
    let (metadata, self_edges, mut edges) = cfg.get_raw_metadata_and_selfedge_and_sequential_edges();
    assert_eq!(metadata, vec![node(3), node(4)]);
    assert_eq!(self_edges, vec![false, true]);
    edges.sort();
    assert_eq!(edges, vec![(0, 1), (1, 1)]);
}

#[test]
fn merge_nodes_lists_fields_in_order() {
    let (a, b) = (block(1), block(2));
    let merged = merge_nodes_into_single_metadata(&[&a, &b]);
    assert_eq!(
        merged,
        NodeMetadata::CompressedBasicBlock(Box::new(CompressedBasicBlock {
            symbolic_state_ids: vec![7, 7],
            basic_block_vaddrs: vec![Some(0x1001), Some(0x1002)],
            basic_block_generations: vec![None, None],
            basic_block_elf_vaddrs: vec![Some(0x40_0001), Some(0x40_0002)],
            basic_block_contents: vec![vec![1, 2], vec![2, 3]],
        }))
    );
    assert_eq!(
        merge_nodes_into_single_metadata(&[]),
        NodeMetadata::CompressedBasicBlock(Box::new(CompressedBasicBlock {
            symbolic_state_ids: vec![],
            basic_block_vaddrs: vec![],
            basic_block_generations: vec![],
            basic_block_elf_vaddrs: vec![],
            basic_block_contents: vec![],
        }))
    );
}

#[test]
fn control_flow_compressed_metadata_and_edges() {
    // 0 → 1 → 2
    //     ↓
    //     3
    let mut cfg = ControlFlowGraph::new();
    cfg.update(block(0), block(1));
    cfg.update(block(1), block(2));
    cfg.update(block(1), block(3));
    assert_eq!(cfg.compressed_graph.len(), 3);
    let (metadata, self_edges, mut edges) = cfg.get_compressed_metadata_and_selfedge_and_sequential_edges();
    let (b0, b1, b2, b3) = (block(0), block(1), block(2), block(3));
    assert_eq!(
        metadata,
        vec![
            merge_nodes_into_single_metadata(&[&b0, &b1]),
            merge_nodes_into_single_metadata(&[&b2]),
            merge_nodes_into_single_metadata(&[&b3]),
        ]
    );
    assert_eq!(self_edges, vec![false, false, false]);
    edges.sort();
    assert_eq!(edges, vec![(0, 1), (0, 2)]);
}

#[test]
fn control_flow_compressed_self_loop() {
    let mut cfg = ControlFlowGraph::new();
    cfg.update(block(5), block(5));
    let (metadata, self_edges, edges) = cfg.get_compressed_metadata_and_selfedge_and_sequential_edges();
    let b5 = block(5);
    assert_eq!(metadata, vec![merge_nodes_into_single_metadata(&[&b5])]);
    assert_eq!(self_edges, vec![true]);
    assert_eq!(edges, vec![(0, 0)]);
}
