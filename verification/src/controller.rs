use crate::metadata::NodeMetadata;
use vstd::prelude::*;

verus! {

/// What the controller of a session hears from its threads.
pub enum ControllerMsg {
    GuiShutdown,
    QemuShutdown,
    TellQemuPid(u32),
    UpdateEdges {
        block_edges: Vec<(NodeMetadata, NodeMetadata)>,
        state_edges: Vec<(NodeMetadata, NodeMetadata)>,
    },
    EmbeddingParamsOrViewUpdated,
    NewPriority(usize),
}

/// What the controller tells the embedder thread.
pub enum EmbedderMsg {
    UpdateEdges {
        block_edges: Vec<(NodeMetadata, NodeMetadata)>,
        state_edges: Vec<(NodeMetadata, NodeMetadata)>,
    },
    WakeUp,
}

/// What the controller knows between messages: whether a GUI runs, the
/// pid that QEMU reported, and whether an embedder thread listens.
pub struct ControllerState {
    pub has_gui: bool,
    pub qemu_pid: Option<u32>,
    pub has_embedder: bool,
}

/// What the controller does after a message.
pub enum ControllerAction {
    /// Leave the loop and shut the session down.
    Stop,
    /// Wait for the next message.
    Continue,
    /// Hand the message to the embedder thread.
    SendToEmbedder(EmbedderMsg),
    /// Send QEMU the states around this one to prioritise.
    PrioritiseNeighbours(usize),
}

/// One turn of the controller loop: how `msg` changes the state and what
/// to do about it. The GUI closing ends the session; QEMU ending ends it
/// only without a GUI; new edges and embedding changes go to the embedder
/// when there is one.
pub fn controller_step(state: &mut ControllerState, msg: ControllerMsg) -> (action: ControllerAction)
    ensures
        final(state).has_gui == old(state).has_gui,
        final(state).has_embedder == old(state).has_embedder,
        final(state).qemu_pid == match msg {
            ControllerMsg::TellQemuPid(pid) => Some(pid),
            _ => old(state).qemu_pid,
        },
        match msg {
            ControllerMsg::GuiShutdown => action is Stop,
            ControllerMsg::QemuShutdown => if old(state).has_gui {
                action is Continue
            } else {
                action is Stop
            },
            ControllerMsg::TellQemuPid(_) => action is Continue,
            ControllerMsg::UpdateEdges { block_edges, state_edges } => if old(state).has_embedder {
                action == ControllerAction::SendToEmbedder(EmbedderMsg::UpdateEdges { block_edges, state_edges })
            } else {
                action is Continue
            },
            ControllerMsg::EmbeddingParamsOrViewUpdated => if old(state).has_embedder {
                action == ControllerAction::SendToEmbedder(EmbedderMsg::WakeUp)
            } else {
                action is Continue
            },
            ControllerMsg::NewPriority(prio) => action == ControllerAction::PrioritiseNeighbours(prio),
        },
{
    match msg {
        ControllerMsg::GuiShutdown => ControllerAction::Stop,
        ControllerMsg::QemuShutdown => {
            if !state.has_gui {
                ControllerAction::Stop
            } else {
                ControllerAction::Continue
            }
        },
        ControllerMsg::TellQemuPid(pid) => {
            state.qemu_pid = Some(pid);
            ControllerAction::Continue
        },
        ControllerMsg::UpdateEdges { block_edges, state_edges } => {
            if state.has_embedder {
                ControllerAction::SendToEmbedder(EmbedderMsg::UpdateEdges { block_edges, state_edges })
            } else {
                ControllerAction::Continue
            }
        },
        ControllerMsg::EmbeddingParamsOrViewUpdated => {
            if state.has_embedder {
                ControllerAction::SendToEmbedder(EmbedderMsg::WakeUp)
            } else {
                ControllerAction::Continue
            }
        },
        ControllerMsg::NewPriority(prio) => ControllerAction::PrioritiseNeighbours(prio),
    }
}

} // verus!
