use amba::control_flow::ControlFlowGraph;
use amba::controller::EmbedderMsg;
use amba::embedder::{
    embedder_layout_done, embedder_should_block, embedder_start, embedder_step, embedder_take_batches,
    EmbedderAction,
};
use amba::metadata::NodeMetadata;
use amba::model::{add_block_edges, drawing_data, get_neighbour_states, state_for_drawing};
use amba::session::guest_images_up_to_date;
use amba::uptime::hour_minute_seconds;

fn block(state: u32, i: u8) -> NodeMetadata {
    NodeMetadata::BasicBlock {
        symbolic_state_id: state,
        basic_block_vaddr: Some(0x1000 + i as u64),
        basic_block_generation: None,
        basic_block_elf_vaddr: Some(0x40_0000 + i as u64),
        basic_block_content: vec![i, i + 1],
    }
}

fn update(pairs: &[(u32, u8, u32, u8)]) -> EmbedderMsg {
    EmbedderMsg::UpdateEdges {
        block_edges: pairs.iter().map(|&(s1, a, s2, b)| (block(s1, a), block(s2, b))).collect(),
        state_edges: Vec::new(),
    }
}

#[test]
fn embedder_merges_consecutive_updates() {
    let mut s = embedder_start();
    assert!(embedder_should_block(&s));
    assert!(matches!(embedder_step(&mut s, Some(update(&[(1, 0, 1, 1)]))), EmbedderAction::Continue));
    assert!(matches!(embedder_step(&mut s, Some(update(&[(1, 1, 1, 2), (1, 2, 1, 3)]))), EmbedderAction::Continue));
    assert!(matches!(embedder_step(&mut s, Some(EmbedderMsg::WakeUp)), EmbedderAction::Continue));
    assert!(matches!(embedder_step(&mut s, Some(update(&[(2, 0, 2, 1)]))), EmbedderAction::Continue));
    assert!(!embedder_should_block(&s));
    let batches = embedder_take_batches(&mut s);
    assert_eq!(batches.len(), 2);
    assert_eq!(batches[0].messages, 2);
    assert_eq!(batches[0].block_edges.len(), 3);
    assert_eq!(batches[0].block_edges[2], (block(1, 2), block(1, 3)));
    assert_eq!(batches[1].messages, 1);
    assert_eq!(batches[1].block_edges, vec![(block(2, 0), block(2, 1))]);
    assert!(s.pending.is_empty());
    assert!(!s.blocking);
    // Not converged: keep polling; converged: wait again.
    embedder_layout_done(&mut s, false);
    assert!(!embedder_should_block(&s));
    embedder_layout_done(&mut s, true);
    assert!(embedder_should_block(&s));
}

#[test]
fn embedder_wake_up_only_stops_blocking() {
    let mut s = embedder_start();
    embedder_step(&mut s, Some(EmbedderMsg::WakeUp));
    let batches = embedder_take_batches(&mut s);
    assert!(batches.is_empty());
    assert!(!s.blocking);
}

#[test]
fn embedder_exits_on_hang_up() {
    let mut s = embedder_start();
    assert!(matches!(embedder_step(&mut s, None), EmbedderAction::Exit));
}

#[test]
fn block_edges_reach_both_graphs() {
    let mut b = ControlFlowGraph::new();
    let mut m = ControlFlowGraph::new();
    // One block reached in two states: two nodes in the block graph, one
    // in the merged graph.
    add_block_edges(&mut b, &mut m, &[(block(1, 0), block(1, 1)), (block(2, 0), block(2, 1))]);
    assert_eq!(b.graph.len(), 4);
    assert_eq!(m.graph.len(), 2);
    let mut reset = block(5, 0);
    reset.reset_state();
    assert_eq!(reset, block(0, 0));
    assert_eq!(m.metadata[0], block(0, 0));
    assert_eq!(m.metadata[1], block(0, 1));
    assert_eq!(b.metadata[2], block(2, 0));
}

#[test]
fn drawing_data_of_a_loop() {
    let mut b = ControlFlowGraph::new();
    let mut m = ControlFlowGraph::new();
    add_block_edges(
        &mut b,
        &mut m,
        &[(block(3, 0), block(3, 1)), (block(3, 1), block(3, 0)), (block(4, 2), block(4, 2))],
    );
    let d = drawing_data(&b);
    assert_eq!(d, vec![(3, 0, false), (3, 0, false), (4, 2, true)]);
    assert_eq!(state_for_drawing(&NodeMetadata::State { amba_state_id: 9 }), 0);
}

#[test]
fn uptime_reads_hours_minutes_seconds() {
    assert_eq!(hour_minute_seconds(3661), (1, 1, 1));
    assert_eq!(hour_minute_seconds(7322), (2, 2, 2));
}

#[test]
fn guest_images_version_check() {
    let new = String::from("v2");
    let same = String::from("v2");
    let other = String::from("v1");
    assert!(guest_images_up_to_date(false, Some(&same), &new));
    assert!(!guest_images_up_to_date(true, Some(&same), &new));
    assert!(!guest_images_up_to_date(false, Some(&other), &new));
    assert!(!guest_images_up_to_date(false, None, &new));
}

#[test]
fn compressed_listing_checks_its_input() {
    let mut cfg = ControlFlowGraph::new();
    cfg.update(block(1, 0), block(1, 1));
    cfg.update(block(1, 1), block(1, 2));
    let listing = cfg.checked_compressed_metadata_and_selfedge_and_sequential_edges();
    let (metas, self_edges, edges) = listing.expect("a line of basic blocks can be listed");
    assert_eq!(metas.len(), 1);
    assert_eq!(self_edges, vec![false]);
    assert!(edges.is_empty());

    let mut states = ControlFlowGraph::new();
    states.update(NodeMetadata::State { amba_state_id: 1 }, NodeMetadata::State { amba_state_id: 2 });
    assert!(states.checked_compressed_metadata_and_selfedge_and_sequential_edges().is_none());
}

fn st(i: u32) -> NodeMetadata {
    NodeMetadata::State { amba_state_id: i }
}

#[test]
fn neighbour_states_are_the_reachable_states() {
    let mut cfg = ControlFlowGraph::new();
    cfg.update(st(10), st(11));
    cfg.update(st(10), st(12));
    cfg.update(st(11), st(13));
    cfg.update(st(13), st(14));
    // Indices follow first appearance: 10, 11, 12, 13, 14.
    assert_eq!(get_neighbour_states(&cfg, 0), vec![10, 11, 12, 13, 14]);
    assert_eq!(get_neighbour_states(&cfg, 1), vec![11, 13, 14]);
    assert_eq!(get_neighbour_states(&cfg, 2), vec![12]);
    assert_eq!(get_neighbour_states(&cfg, 4), vec![14]);
}

#[test]
fn neighbour_states_of_a_cycle_are_listed_once() {
    let mut cfg = ControlFlowGraph::new();
    cfg.update(st(7), st(3));
    cfg.update(st(3), st(7));
    cfg.update(st(3), st(5));
    assert_eq!(get_neighbour_states(&cfg, 0), vec![3, 5, 7]);
    assert_eq!(get_neighbour_states(&cfg, 2), vec![5]);
}
