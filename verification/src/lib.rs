//! Verified core of the amba binary-analysis tool: control-flow graphs and
//! their compression, strongly connected components, union-find, the
//! plugin's bookkeeping of symbolic states, byte queues for QMP, IPC
//! framing, recipe normalisation and source-line lookup.
pub mod disjoint_sets;
pub mod queue;
pub mod recipe;
pub mod layout;
pub mod lod;
pub mod qmp;
pub mod read_until;
pub mod small_set;
pub mod graph;
pub mod compress;
pub mod split;
pub mod metadata;
pub mod control_flow;
pub mod graph_ipc;
pub mod scc;
pub mod tarjan;
pub mod ipc;
pub mod uptime;
pub mod session;
pub mod disasm;
pub mod concrete_inputs;
pub mod controller;
pub mod embedder;
pub mod model;
pub mod plugin;
