# amba (verified core)

The logic of AMBA, a tool for automatic and manual binary analysis built on
S2E, as a library whose behaviour is stated in Verus contracts and proved.

`src/` is the library. Its main parts:

- `graph`, `compress`, `split`: control-flow graphs whose straight-line runs
  of blocks are compressed into single nodes, split again when new edges
  arrive, and kept consistent (every edge recorded at both ends, merges
  pointing at smaller ids).
- `control_flow`, `metadata`, `graph_ipc`: the graph of observed edges with
  the metadata of each node, its compression, and the forms in which graphs
  travel between processes.
- `scc`, `tarjan`: strongly connected components (Kosaraju and Tarjan) and the
  graph of components.
- `plugin`: what the S2E plugin keeps about symbolic states, forks and block
  generations; `controller` and `embedder`: the decisions of a session's
  controller and embedder threads; `model`: new block edges for the model's
  graphs and what each node is drawn with.
- `disjoint_sets`, `small_set`: union-find and a small-size-optimised set.
- `queue`, `read_until`, `qmp`, `ipc`: byte queues and framing for the QMP and
  IPC channels.
- `recipe`, `session`, `disasm`, `lod`, `layout`, `uptime`, `concrete_inputs`:
  recipe normalisation, session configuration, source lines and function
  names for the disassembly view, text levels of detail, and small helpers.

`app/` holds what cannot be verified: command-line handling, sockets, files,
threads, serde and bincode encodings. `tests/` exercises the library.
