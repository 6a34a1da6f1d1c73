use amba::controller::{controller_step, ControllerAction, ControllerMsg, ControllerState, EmbedderMsg};
use amba::metadata::NodeMetadata;

fn state(has_gui: bool, has_embedder: bool) -> ControllerState {
    ControllerState { has_gui, qemu_pid: None, has_embedder }
}

#[test]
fn controller_stops_when_the_gui_closes() {
    let mut s = state(true, true);
    assert!(matches!(controller_step(&mut s, ControllerMsg::GuiShutdown), ControllerAction::Stop));
}

#[test]
fn controller_outlives_qemu_only_with_a_gui() {
    let mut s = state(true, false);
    assert!(matches!(controller_step(&mut s, ControllerMsg::QemuShutdown), ControllerAction::Continue));
    let mut s = state(false, false);
    assert!(matches!(controller_step(&mut s, ControllerMsg::QemuShutdown), ControllerAction::Stop));
}

#[test]
fn controller_records_the_qemu_pid() {
    let mut s = state(false, false);
    assert!(matches!(controller_step(&mut s, ControllerMsg::TellQemuPid(4242)), ControllerAction::Continue));
    assert_eq!(s.qemu_pid, Some(4242));
}

#[test]
fn controller_forwards_edges_to_the_embedder() {
    let edge = (NodeMetadata::State { amba_state_id: 1 }, NodeMetadata::State { amba_state_id: 2 });
    let mut s = state(true, true);
    match controller_step(&mut s, ControllerMsg::UpdateEdges { block_edges: vec![], state_edges: vec![edge.clone()] }) {
        ControllerAction::SendToEmbedder(EmbedderMsg::UpdateEdges { block_edges, state_edges }) => {
            assert!(block_edges.is_empty());
            assert_eq!(state_edges, vec![edge.clone()]);
        }
        _ => panic!("edges not forwarded"),
    }
    let mut s = state(true, false);
    assert!(matches!(
        controller_step(&mut s, ControllerMsg::UpdateEdges { block_edges: vec![edge], state_edges: vec![] }),
        ControllerAction::Continue
    ));
}

#[test]
fn controller_wakes_the_embedder_and_passes_priorities_on() {
    let mut s = state(true, true);
    assert!(matches!(
        controller_step(&mut s, ControllerMsg::EmbeddingParamsOrViewUpdated),
        ControllerAction::SendToEmbedder(EmbedderMsg::WakeUp)
    ));
    let mut s = state(true, false);
    assert!(matches!(controller_step(&mut s, ControllerMsg::EmbeddingParamsOrViewUpdated), ControllerAction::Continue));
    assert!(matches!(controller_step(&mut s, ControllerMsg::NewPriority(3)), ControllerAction::PrioritiseNeighbours(3)));
}
