use crate::compress::covered;
use crate::control_flow::{added_ends, end_of, indexed_edges, meta_views, ControlFlowGraph};
use crate::graph::{edge_set, of_items, Node};
use crate::metadata::{state_reset, MetadataView, NodeMetadata};
use crate::tarjan::{closed_ids, leads_to, node_partition, parts_fields, scc_parts};
use std::collections::BTreeMap;
use vstd::prelude::*;

verus! {

/// The edges between the indices that `cfg` gives the metadata of `edges`
/// once their states are forgotten.
pub open spec fn reset_indexed_edges(cfg: ControlFlowGraph, edges: Seq<(NodeMetadata, NodeMetadata)>) -> Set<(u64, u64)> {
    Set::new(
        |e: (u64, u64)|
            exists|i: int|
                0 <= i < edges.len() && e == (
                    cfg.index_of(state_reset((#[trigger] edges[i]).0@)) as u64,
                    cfg.index_of(state_reset(edges[i].1@)) as u64,
                ),
    )
}

/// `v` is the metadata of an end of edge `e` of `edges`, its state
/// forgotten.
pub open spec fn reset_end_of(v: MetadataView, edges: Seq<(NodeMetadata, NodeMetadata)>, e: int) -> bool {
    0 <= e < edges.len() && (v == state_reset(edges[e].0@) || v == state_reset(edges[e].1@))
}

/// Every metadata from place `from` on is that of an end of one of
/// `edges`, its state forgotten.
pub open spec fn added_reset_ends(from: int, md: Seq<MetadataView>, edges: Seq<(NodeMetadata, NodeMetadata)>) -> bool {
    forall|i: int| #![trigger md[i]] from <= i < md.len() ==> has_reset_end(md[i], edges)
}

/// `v` is the metadata of an end of one of `edges`, its state forgotten.
pub open spec fn has_reset_end(v: MetadataView, edges: Seq<(NodeMetadata, NodeMetadata)>) -> bool {
    exists|e: int| #[trigger] reset_end_of(v, edges, e)
}

/// New block edges for the model's two block graphs: `block` gains each
/// edge as it is, in order, and `merged` gains it with the symbolic state
/// of both ends forgotten, so that a block met in several states is one
/// node there.
pub fn add_block_edges(
    block: &mut ControlFlowGraph,
    merged: &mut ControlFlowGraph,
    edges: &[(NodeMetadata, NodeMetadata)],
)
    requires
        old(block).wf(),
        old(merged).wf(),
        old(block).metadata@.len() + 2 * edges@.len() + 2 < usize::MAX,
        old(block).updates + edges@.len() < usize::MAX,
        old(block).rebuilds + edges@.len() < usize::MAX,
        old(merged).metadata@.len() + 2 * edges@.len() + 2 < usize::MAX,
        old(merged).updates + edges@.len() < usize::MAX,
        old(merged).rebuilds + edges@.len() < usize::MAX,
    ensures
        final(block).wf(),
        final(merged).wf(),
        edge_set(final(block).graph.nodes@) == edge_set(old(block).graph.nodes@).union(
            indexed_edges(*final(block), edges@),
        ),
        edge_set(final(merged).graph.nodes@) == edge_set(old(merged).graph.nodes@).union(
            reset_indexed_edges(*final(merged), edges@),
        ),
        forall|i: int|
            0 <= i < edges@.len() ==> final(block).registered((#[trigger] edges@[i]).0@) && final(block).registered(
                edges@[i].1@,
            ) && final(merged).registered(state_reset(edges@[i].0@)) && final(merged).registered(
                state_reset(edges@[i].1@),
            ),
        forall|v: MetadataView| #[trigger]
            old(block).registered(v) ==> final(block).registered(v) && final(block).index_of(v) == old(
                block,
            ).index_of(v),
        forall|v: MetadataView| #[trigger]
            old(merged).registered(v) ==> final(merged).registered(v) && final(merged).index_of(v) == old(
                merged,
            ).index_of(v),
        final(block).updates == old(block).updates + edges@.len(),
        final(merged).updates == old(merged).updates + edges@.len(),
        added_ends(old(block).metadata@.len() as int, meta_views(final(block).metadata@), edges@),
        added_reset_ends(old(merged).metadata@.len() as int, meta_views(final(merged).metadata@), edges@),
        final(block).graph.nodes@.dom() == Set::new(|k: u64| k < final(block).metadata@.len()),
        final(merged).graph.nodes@.dom() == Set::new(|k: u64| k < final(merged).metadata@.len()),
{
    let mut resets: Vec<(NodeMetadata, NodeMetadata)> = Vec::new();
    let mut i: usize = 0;
    while i < edges.len()
        invariant
            0 <= i <= edges@.len(),
            resets@.len() == i,
            forall|a: int|
                0 <= a < i ==> (#[trigger] resets@[a]).0@ == state_reset(edges@[a].0@) && resets@[a].1@
                    == state_reset(edges@[a].1@),
        decreases edges@.len() - i,
    {
        let mut f = edges[i].0.clone();
        let mut t = edges[i].1.clone();
        f.reset_state();
        t.reset_state();
        resets.push((f, t));
        i = i + 1;
    }
    block.add_edges(edges);
    merged.add_edges(resets.as_slice());
    proof {
        let m = *merged;
        assert(indexed_edges(m, resets@) =~= reset_indexed_edges(m, edges@)) by {
            assert forall|e: (u64, u64)| indexed_edges(m, resets@).contains(e) implies reset_indexed_edges(
                m,
                edges@,
            ).contains(e) by {
                let a = choose|a: int|
                    0 <= a < resets@.len() && e == (
                        m.index_of((#[trigger] resets@[a]).0@) as u64,
                        m.index_of(resets@[a].1@) as u64,
                    );
                assert(edges@[a] == edges@[a]);
            }
            assert forall|e: (u64, u64)| reset_indexed_edges(m, edges@).contains(e) implies indexed_edges(
                m,
                resets@,
            ).contains(e) by {
                let a = choose|a: int|
                    0 <= a < edges@.len() && e == (
                        m.index_of(state_reset((#[trigger] edges@[a]).0@)) as u64,
                        m.index_of(state_reset(edges@[a].1@)) as u64,
                    );
                assert(resets@[a] == resets@[a]);
            }
        }
        let mv = meta_views(m.metadata@);
        assert forall|i: int| #![trigger mv[i]]
            old(merged).metadata@.len() <= i < mv.len() implies has_reset_end(mv[i], edges@) by {
            assert(added_ends(old(merged).metadata@.len() as int, mv, resets@));
            assert(mv[i] == mv[i]);
            let e = choose|e: int| #[trigger] end_of(mv[i], resets@, e);
            assert(resets@[e] == resets@[e]);
            assert(reset_end_of(mv[i], edges@, e));
        }
        assert forall|a: int| 0 <= a < edges@.len() implies m.registered(state_reset((#[trigger] edges@[a]).0@))
            && m.registered(state_reset(edges@[a].1@)) by {
            assert(m.registered(resets@[a].0@));
            assert(m.registered(resets@[a].1@));
        }
    }
}

/// The state a node is drawn with: a basic block's symbolic state, the
/// first one of a compressed block (0 for none), and 0 for a state node.
pub open spec fn drawing_state(m: MetadataView) -> usize {
    match m {
        MetadataView::BasicBlock { symbolic_state_id, .. } => symbolic_state_id as usize,
        MetadataView::CompressedBasicBlock { symbolic_state_ids, .. } => if symbolic_state_ids.len() > 0 {
            symbolic_state_ids[0] as usize
        } else {
            0
        },
        MetadataView::State { .. } => 0,
    }
}

/// The state that `drawing_state` gives.
pub fn state_for_drawing(m: &NodeMetadata) -> (s: usize)
    ensures
        s == drawing_state(m@),
{
    match m {
        NodeMetadata::BasicBlock { symbolic_state_id, .. } => *symbolic_state_id as usize,
        NodeMetadata::CompressedBasicBlock(b) => if b.symbolic_state_ids.len() > 0 {
            b.symbolic_state_ids[0] as usize
        } else {
            0
        },
        NodeMetadata::State { .. } => 0,
    }
}

/// A run of basic blocks compressed into one node is drawn with the state
/// of its first block, as that block alone is: compressing a run never
/// changes the state its start is drawn with.
pub proof fn law_compressed_drawn_as_first_block(raw: Seq<MetadataView>)
    requires
        raw.len() > 0,
        forall|i: int| 0 <= i < raw.len() ==> crate::metadata::is_basic_block(#[trigger] raw[i]),
    ensures
        drawing_state(crate::metadata::merged_metadata(raw)) == drawing_state(raw[0]),
{
    let ids = raw.map_values(|m: MetadataView| m->symbolic_state_id);
    assert(ids[0] == raw[0]->symbolic_state_id);
    assert(crate::metadata::is_basic_block(raw[0]));
}

/// A compressed block with at least one state is drawn with the state its
/// first block ran in; a basic block with its own state; a state node
/// with 0.
pub proof fn law_drawing_state_is_first_state(m: MetadataView)
    ensures
        m matches MetadataView::CompressedBasicBlock { symbolic_state_ids, .. } ==> (symbolic_state_ids.len() > 0
            ==> drawing_state(m) == symbolic_state_ids[0] as usize) && (symbolic_state_ids.len() == 0
            ==> drawing_state(m) == 0),
        m matches MetadataView::BasicBlock { symbolic_state_id, .. } ==> drawing_state(m) == symbolic_state_id
            as usize,
        m is State ==> drawing_state(m) == 0,
{
}

/// `scc` gives, for each id that the partition `parts` of `nodes` holds,
/// the id of the part that holds it, and has no other keys.
pub open spec fn inverse_with(nodes: Map<u64, Node>, scc: Map<usize, usize>, parts: Map<u64, Node>) -> bool {
    &&& node_partition(nodes, parts)
    &&& scc_parts(nodes, parts)
    &&& parts_fields(nodes, parts)
    &&& forall|k: u64, o: u64|
        #![trigger parts[k], of_items(parts[k].of).contains(o)]
        parts.contains_key(k) && of_items(parts[k].of).contains(o) ==> scc.contains_key(o as usize)
    &&& forall|key: usize| #[trigger]
        scc.contains_key(key) ==> exists|k: u64, o: u64|
            #![trigger parts[k], of_items(parts[k].of).contains(o)]
            parts.contains_key(k) && of_items(parts[k].of).contains(o) && key == o as usize && scc[key]
                == parts[k].id as usize
}

/// Each entry `i` of `d` names, in its second field, the id of a part of
/// `parts` that holds `i`.
pub open spec fn names_parts(parts: Map<u64, Node>, d: Seq<(usize, usize, bool)>) -> bool {
    forall|i: int|
        #![trigger d[i]]
        0 <= i < d.len() ==> part_named(parts, i as u64, d[i].1)
}

/// A part of `parts` holds `x` and has id `g`.
pub open spec fn part_named(parts: Map<u64, Node>, x: u64, g: usize) -> bool {
    exists|k: u64|
        #![trigger parts[k]]
        parts.contains_key(k) && of_items(parts[k].of).contains(x) && g == parts[k].id as usize
}

/// What `inverse_tarjan` promises, with the partition named.
proof fn lemma_inverse_with(nodes: Map<u64, Node>, scc: Map<usize, usize>)
    requires
        exists|parts: Map<u64, Node>|
            #![trigger node_partition(nodes, parts)]
            node_partition(nodes, parts) && scc_parts(nodes, parts) && parts_fields(nodes, parts) && (forall|k: u64, o: u64|
                #![trigger parts[k], of_items(parts[k].of).contains(o)]
                parts.contains_key(k) && of_items(parts[k].of).contains(o) ==> scc.contains_key(o as usize)) && (
            forall|key: usize| #[trigger]
                scc.contains_key(key) ==> exists|k: u64, o: u64|
                    #![trigger parts[k], of_items(parts[k].of).contains(o)]
                    parts.contains_key(k) && of_items(parts[k].of).contains(o) && key == o as usize && scc[key]
                        == parts[k].id as usize),
    ensures
        exists|parts: Map<u64, Node>| #[trigger] inverse_with(nodes, scc, parts),
{
    let parts = choose|parts: Map<u64, Node>|
        #![trigger node_partition(nodes, parts)]
        node_partition(nodes, parts) && scc_parts(nodes, parts) && parts_fields(nodes, parts) && (forall|k: u64, o: u64|
            #![trigger parts[k], of_items(parts[k].of).contains(o)]
            parts.contains_key(k) && of_items(parts[k].of).contains(o) ==> scc.contains_key(o as usize)) && (
        forall|key: usize| #[trigger]
            scc.contains_key(key) ==> exists|k: u64, o: u64|
                #![trigger parts[k], of_items(parts[k].of).contains(o)]
                parts.contains_key(k) && of_items(parts[k].of).contains(o) && key == o as usize && scc[key]
                    == parts[k].id as usize);
    assert(inverse_with(nodes, scc, parts));
}

/// A node id is a key of `scc`, whose value names the part holding it.
proof fn lemma_part_of(nodes: Map<u64, Node>, scc: Map<usize, usize>, parts: Map<u64, Node>, x: u64)
    requires
        inverse_with(nodes, scc, parts),
        nodes.contains_key(x),
        forall|k: u64| #[trigger] nodes.contains_key(k) ==> k <= usize::MAX,
    ensures
        scc.contains_key(x as usize),
        part_named(parts, x, scc[x as usize]),
{
    assert(covered(parts).contains(x));
    let k0 = choose|k: u64| parts.contains_key(k) && #[trigger] of_items(parts[k].of).contains(x);
    assert(parts.contains_key(k0) && of_items(parts[k0].of).contains(x));
    let key = x as usize;
    assert(scc.contains_key(key));
    let (k, o) = choose|k: u64, o: u64|
        #![trigger parts[k], of_items(parts[k].of).contains(o)]
        parts.contains_key(k) && of_items(parts[k].of).contains(o) && key == o as usize && scc[key]
            == parts[k].id as usize;
    assert(covered(parts).contains(o));
    assert(nodes.contains_key(o));
    assert(o == x);
    assert(parts.contains_key(k) && of_items(parts[k].of).contains(x) && scc[key] == parts[k].id as usize);
}

/// What each node of a control-flow graph is drawn with, by index: its
/// state, the id of the strongly connected part of the graph (as Tarjan's
/// search splits it) that holds it, and whether it has an edge to itself.
pub fn drawing_data(cfg: &ControlFlowGraph) -> (d: Vec<(usize, usize, bool)>)
    requires
        cfg.wf(),
    ensures
        d@.len() == cfg.metadata@.len(),
        forall|i: int|
            0 <= i < d@.len() ==> (#[trigger] d@[i]).0 == drawing_state(cfg.metadata@[i]@) && d@[i].2
                == cfg.graph.nodes@[i as u64].to@.contains(i as u64),
        exists|parts: Map<u64, Node>|
            #![trigger node_partition(cfg.graph.nodes@, parts)]
            node_partition(cfg.graph.nodes@, parts) && scc_parts(cfg.graph.nodes@, parts) && parts_fields(
                cfg.graph.nodes@,
                parts,
            ) && names_parts(parts, d@),
{
    proof {
        assert forall|k: u64, x: u64|
            cfg.graph.nodes@.contains_key(k) && (cfg.graph.nodes@[k].to@.contains(x)
                || cfg.graph.nodes@[k].from@.contains(x)) implies cfg.graph.nodes@.contains_key(x) by {
            if cfg.graph.nodes@[k].to@.contains(x) {
                assert(cfg.graph.nodes@[k].to@.contains(x));
            } else {
                assert(cfg.graph.nodes@[k].from@.contains(x));
            }
        }
        assert(cfg.graph.edges_closed());
    }
    let scc = cfg.graph.inverse_tarjan();
    proof {
        lemma_inverse_with(cfg.graph.nodes@, scc@);
    }
    let ghost parts = choose|parts: Map<u64, Node>| #[trigger] inverse_with(cfg.graph.nodes@, scc@, parts);
    let total = cfg.metadata.len();
    proof {
        assert forall|k: u64| #[trigger] cfg.graph.nodes@.contains_key(k) implies k <= usize::MAX by {
            assert(k < total);
        }
    }
    let (metadata, self_edges, _) = cfg.get_raw_metadata_and_selfedge_and_sequential_edges();
    proof {
        assert(meta_views(metadata@).len() == metadata@.len());
        assert(meta_views(cfg.metadata@).len() == cfg.metadata@.len());
        assert forall|a: int| 0 <= a < cfg.metadata@.len() implies (#[trigger] metadata@[a])@ == cfg.metadata@[a]@ by {
            assert(meta_views(metadata@)[a] == meta_views(cfg.metadata@)[a]);
        }
    }
    let mut d: Vec<(usize, usize, bool)> = Vec::new();
    let n = metadata.len();
    let mut i: usize = 0;
    while i < n
        invariant
            cfg.wf(),
            n == cfg.metadata@.len(),
            metadata@.len() == n,
            forall|a: int| 0 <= a < n ==> (#[trigger] metadata@[a])@ == cfg.metadata@[a]@,
            self_edges@.len() == n,
            forall|a: int|
                0 <= a < n ==> #[trigger] self_edges@[a] == cfg.graph.nodes@[a as u64].to@.contains(a as u64),
            inverse_with(cfg.graph.nodes@, scc@, parts),
            forall|k: u64| #[trigger] cfg.graph.nodes@.contains_key(k) ==> k <= usize::MAX,
            0 <= i <= n,
            d@.len() == i,
            forall|a: int|
                0 <= a < i ==> (#[trigger] d@[a]).0 == drawing_state(cfg.metadata@[a]@) && d@[a].2
                    == cfg.graph.nodes@[a as u64].to@.contains(a as u64) && part_named(parts, a as u64, d@[a].1),
        decreases n - i,
    {
        proof {
            assert(cfg.graph.nodes@.contains_key(i as u64));
            lemma_part_of(cfg.graph.nodes@, scc@, parts, i as u64);
        }
        let group = *scc.get(&i).unwrap();
        let st = state_for_drawing(&metadata[i]);
        let ghost before = d@;
        d.push((st, group, self_edges[i]));
        proof {
            assert(group == scc@[i]);
            assert(d@[i as int] == (st, group, self_edges@[i as int]));
            assert forall|a: int| 0 <= a < i + 1 implies (#[trigger] d@[a]).0 == drawing_state(cfg.metadata@[a]@)
                && d@[a].2 == cfg.graph.nodes@[a as u64].to@.contains(a as u64) && part_named(parts, a as u64, d@[a].1) by {
                if a < i {
                    assert(d@[a] == before[a]);
                }
            }
        }
        i = i + 1;
    }
    proof {
        assert(names_parts(parts, d@));
    }
    d
}

/// State `s` is the state of a node that `prio` reaches in the state graph
/// `cfg`, `prio` itself included.
pub open spec fn reached_state(cfg: ControlFlowGraph, prio: u64, s: u32) -> bool {
    exists|i: u64|
        #[trigger] leads_to(cfg.graph.nodes@, prio, i) && cfg.metadata@[i as int]@ == (MetadataView::State { amba_state_id: s })
}

/// The states of the node `prio` of a state graph and of every node it
/// reaches, each once, in ascending order.
pub fn get_neighbour_states(state_cfg: &ControlFlowGraph, prio: usize) -> (r: Vec<u32>)
    requires
        state_cfg.wf(),
        prio < state_cfg.metadata@.len(),
        forall|i: u64| #[trigger]
            leads_to(state_cfg.graph.nodes@, prio as u64, i) ==> state_cfg.metadata@[i as int] is State,
    ensures
        forall|a: int, b: int| 0 <= a < b < r@.len() ==> #[trigger] r@[a] < #[trigger] r@[b],
        forall|s: u32| r@.contains(s) <==> reached_state(*state_cfg, prio as u64, s),
{
    let ghost nodes = state_cfg.graph.nodes@;
    let ghost md = state_cfg.metadata@;
    let start = prio as u64;
    let n_md = state_cfg.metadata.len();
    let mut visited: BTreeMap<u64, bool> = BTreeMap::new();
    let mut ids: BTreeMap<u64, bool> = BTreeMap::new();
    let mut work: Vec<u64> = Vec::new();
    visited.insert(start, true);
    work.push(start);
    proof {
        broadcast use vstd::std_specs::btree::group_btree_axioms;

        crate::tarjan::lemma_leads_to_self(nodes, start);
        assert(nodes.contains_key(start));
        assert(work@[0] == start);
        assert(visited@.dom() =~= set![start]);
        assert(ids@.dom() =~= Set::<u64>::empty());
    }
    while work.len() > 0
        invariant
            state_cfg.wf(),
            nodes == state_cfg.graph.nodes@,
            md == state_cfg.metadata@,
            start == prio as u64,
            prio < md.len(),
            md.len() == n_md,
            forall|i: u64| #[trigger] leads_to(nodes, start, i) ==> md[i as int] is State,
            visited@.dom().subset_of(nodes.dom()),
            visited@.contains_key(start),
            forall|x: u64| #[trigger] visited@.contains_key(x) ==> leads_to(nodes, start, x),
            forall|a: int| 0 <= a < work@.len() ==> visited@.contains_key(#[trigger] work@[a]),
            forall|x: u64, z: u64|
                #![trigger visited@.contains_key(x), nodes[x].to@.contains(z)]
                visited@.contains_key(x) && !work@.contains(x) && nodes[x].to@.contains(z) ==> visited@.contains_key(z),
            forall|x: u64|
                #![trigger visited@.contains_key(x)]
                visited@.contains_key(x) && !work@.contains(x) ==> (md[x as int] matches NodeMetadata::State {
                    amba_state_id,
                } && ids@.contains_key(amba_state_id as u64)),
            forall|k: u64| #[trigger]
                ids@.contains_key(k) ==> exists|x: u64|
                    #[trigger] visited@.contains_key(x) && md[x as int]@ == (MetadataView::State { amba_state_id: k as u32 }) && k < 0x1_0000_0000,
        decreases nodes.dom().difference(visited@.dom()).len(), work@.len(),
    {
        let ghost wb = work@;
        let ghost vb = visited@;
        let x = work.pop().unwrap();
        proof {
            assert(wb[wb.len() - 1] == x);
            assert(visited@.contains_key(x));
            assert(nodes.contains_key(x));
        }
        let tos = state_cfg.graph.nodes.get(&x).unwrap().to.iter();
        let ghost wa = work@;
        let mut j: usize = 0;
        while j < tos.len()
            invariant
                0 <= j <= tos@.len(),
                state_cfg.wf(),
                nodes == state_cfg.graph.nodes@,
                nodes.contains_key(x),
                tos@.to_set() == nodes[x].to@,
                visited@.contains_key(x),
                leads_to(nodes, start, x),
                vb.dom().subset_of(visited@.dom()),
                visited@.dom().subset_of(nodes.dom()),
                forall|y: u64| #[trigger] visited@.contains_key(y) ==> leads_to(nodes, start, y),
                work@.len() >= wa.len(),
                work@.subrange(0, wa.len() as int) == wa,
                forall|a: int| 0 <= a < work@.len() ==> visited@.contains_key(#[trigger] work@[a]),
                forall|a: int| wa.len() <= a < work@.len() ==> !vb.contains_key(#[trigger] work@[a]),
                forall|a: int| 0 <= a < j ==> visited@.contains_key(#[trigger] tos@[a]),
                forall|y: u64| #[trigger] visited@.contains_key(y) && !vb.contains_key(y) ==> work@.contains(y),
                nodes.dom().difference(visited@.dom()).len() + (work@.len() - wa.len()) <= nodes.dom().difference(
                    vb.dom(),
                ).len(),
            decreases tos@.len() - j,
        {
            let w = tos[j];
            proof {
                assert(tos@.to_set().contains(w));
                assert(nodes[x].to@.contains(w));
            }
            if !visited.contains_key(&w) {
                let ghost vc = visited@;
                let ghost wprev = work@;
                visited.insert(w, true);
                work.push(w);
                proof {
                    broadcast use vstd::std_specs::btree::group_btree_axioms;

                    crate::tarjan::lemma_leads_to_self(nodes, w);
                    crate::tarjan::lemma_leads_to_step(nodes, x, w, w);
                    crate::tarjan::lemma_leads_to_trans(nodes, start, x, w);
                    assert(nodes.contains_key(w));
                    assert(nodes.dom().difference(visited@.dom()) =~= nodes.dom().difference(vc.dom()).remove(w));
                    assert(nodes.dom().difference(vc.dom()).contains(w));
                    assert(work@[work@.len() - 1] == w);
                    assert forall|y: u64| #[trigger] visited@.contains_key(y) && !vb.contains_key(y) implies work@.contains(y) by {
                        if y != w {
                            assert(vc.contains_key(y));
                            assert(wprev.contains(y));
                            let a = choose|a: int| 0 <= a < wprev.len() && wprev[a] == y;
                            assert(work@[a] == y);
                        }
                    }
                    assert(work@.subrange(0, wa.len() as int) =~= wa) by {
                        assert forall|a: int| 0 <= a < wa.len() implies work@[a] == wa[a] by {
                            assert(work@[a] == work@.subrange(0, wa.len() as int)[a]);
                        }
                    }
                }
            }
            j = j + 1;
        }
        let ghost ib = ids@;
        proof {
            assert(x < md.len()) by {
                assert(state_cfg.graph.nodes@.contains_key(x));
            }
            assert(md[x as int] is State);
        }
        let ghost id_x: u32 = match md[x as int] {
            NodeMetadata::State { amba_state_id } => amba_state_id,
            _ => 0,
        };
        let xi = x as usize;
        proof {
            assert(xi as int == x as int);
        }
        let md_x = &state_cfg.metadata[xi];
        proof {
            assert(*md_x == state_cfg.metadata@[xi as int]);
        }
        match md_x {
            NodeMetadata::State { amba_state_id } => {
                ids.insert(*amba_state_id as u64, true);
            },
            _ => {},
        }
        proof {
            broadcast use vstd::std_specs::btree::group_btree_axioms;

            assert forall|a: int| 0 <= a < wa.len() implies work@[a] == wa[a] by {
                assert(work@[a] == work@.subrange(0, wa.len() as int)[a]);
            }
            assert forall|y: u64| #![trigger visited@.contains_key(y)]
                visited@.contains_key(y) && !work@.contains(y) && y != x implies vb.contains_key(y) && !wb.contains(y) by {
                if !vb.contains_key(y) {
                    assert(work@.contains(y));
                }
                if wb.contains(y) {
                    let a = choose|a: int| 0 <= a < wb.len() && wb[a] == y;
                    assert(a < wb.len() - 1);
                    assert(wa[a] == y);
                    assert(work@[a] == y);
                }
            }
            assert forall|y: u64, z: u64|
                #![trigger visited@.contains_key(y), nodes[y].to@.contains(z)]
                visited@.contains_key(y) && !work@.contains(y) && nodes[y].to@.contains(z) implies visited@.contains_key(z) by {
                if y == x {
                    assert(tos@.to_set().contains(z));
                    let a = choose|a: int| 0 <= a < tos@.len() && tos@[a] == z;
                    assert(visited@.contains_key(tos@[a]));
                } else {
                    assert(vb.contains_key(y) && !wb.contains(y));
                    assert(vb.contains_key(z));
                }
            }
            assert forall|y: u64|
                #![trigger visited@.contains_key(y)]
                visited@.contains_key(y) && !work@.contains(y) implies (md[y as int] matches NodeMetadata::State {
                    amba_state_id,
                } && ids@.contains_key(amba_state_id as u64)) by {
                if y != x {
                    assert(vb.contains_key(y) && !wb.contains(y));
                    assert(md[y as int] is State);
                    assert(ib.contains_key(md[y as int]->amba_state_id as u64));
                } else {
                    assert(ids@.contains_key(id_x as u64));
                }
            }
            assert forall|k: u64| #[trigger]
                ids@.contains_key(k) implies exists|y: u64|
                    #[trigger] visited@.contains_key(y) && md[y as int]@ == (MetadataView::State { amba_state_id: k as u32 }) && k < 0x1_0000_0000 by {
                if ib.contains_key(k) {
                    let y = choose|y: u64|
                        #[trigger] vb.contains_key(y) && md[y as int]@ == (MetadataView::State { amba_state_id: k as u32 }) && k < 0x1_0000_0000;
                    assert(visited@.contains_key(y));
                } else {
                    assert(visited@.contains_key(x));
                }
            }
        }
    }
    proof {
        assert forall|y: u64| #![trigger visited@.contains_key(y)] visited@.contains_key(y) implies !work@.contains(y) by {
        }
        assert(closed_ids(nodes, visited@.dom())) by {
            assert forall|y: u64, z: u64| #![trigger visited@.dom().contains(y), nodes[y].to@.contains(z)]
                visited@.dom().contains(y) && nodes[y].to@.contains(z) implies visited@.dom().contains(z) by {
                assert(visited@.contains_key(y) && !work@.contains(y));
            }
        }
    }
    let keys = crate::graph::sorted_keys(&ids);
    proof {
        assert forall|a: int| 0 <= a < keys@.len() implies #[trigger] keys@[a] < 0x1_0000_0000 by {
            assert(keys@.to_set().contains(keys@[a]));
            assert(ids@.contains_key(keys@[a]));
        }
    }
    let mut r: Vec<u32> = Vec::new();
    let mut i: usize = 0;
    while i < keys.len()
        invariant
            0 <= i <= keys@.len(),
            r@.len() == i,
            forall|a: int| 0 <= a < i ==> r@[a] as u64 == #[trigger] keys@[a],
            forall|a: int| 0 <= a < keys@.len() ==> #[trigger] keys@[a] < 0x1_0000_0000,
        decreases keys@.len() - i,
    {
        r.push(keys[i] as u32);
        i = i + 1;
    }
    proof {
        assert forall|a: int, b: int| 0 <= a < b < r@.len() implies #[trigger] r@[a] < #[trigger] r@[b] by {
            assert(keys@[a] < keys@[b]);
        }
        assert forall|s: u32| r@.contains(s) <==> reached_state(*state_cfg, prio as u64, s) by {
            if r@.contains(s) {
                let a = choose|a: int| 0 <= a < r@.len() && r@[a] == s;
                assert(keys@[a] == s as u64);
                assert(keys@.to_set().contains(keys@[a]));
                assert(ids@.contains_key(s as u64));
                let y = choose|y: u64|
                    #[trigger] visited@.contains_key(y) && md[y as int]@ == (MetadataView::State { amba_state_id: (s as u64) as u32 }) && (s as u64) < 0x1_0000_0000;
                assert(leads_to(nodes, start, y));
            }
            if reached_state(*state_cfg, prio as u64, s) {
                let y = choose|y: u64|
                    #[trigger] leads_to(nodes, start, y) && md[y as int]@ == (MetadataView::State { amba_state_id: s });
                crate::tarjan::lemma_closed_reach(nodes, visited@.dom(), start, y);
                assert(visited@.contains_key(y));
                assert(ids@.contains_key(s as u64));
                assert(keys@.to_set().contains(s as u64));
                let a = choose|a: int| 0 <= a < keys@.len() && keys@[a] == s as u64;
                assert(r@[a] as u64 == keys@[a]);
            }
        }
    }
    r
}

} // verus!
