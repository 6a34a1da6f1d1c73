use crate::graph::{
    edge_set, edges_symmetric, known, law_update_keeps_symmetry, lemma_update_edge_set, update_result,
    Graph,
};
use crate::graph::{lemma_rank_of_sorted, of_items, rank, renamed_edge_set, sorted_keys};
use crate::metadata::{
    digest, is_basic_block, merge_nodes_into_single_metadata, merged_metadata, metadata_digest, same_metadata, views,
    MetadataView, NodeMetadata,
};
use crate::compress::hint_merged;
use crate::split::reverted;
use std::collections::HashMap;
use vstd::prelude::*;

verus! {

/// The views of a list of metadata.
pub open spec fn meta_views(s: Seq<NodeMetadata>) -> Seq<MetadataView> {
    s.map_values(|m: NodeMetadata| m@)
}

/// `n` is the compressed graph `o` after a new edge from `f` to `t`: the
/// nodes around the edge are split and the edge added, as `reverted`
/// states, and where both ends are then known the graph is compressed
/// around them.
pub open spec fn recompressed(o: Graph, n: Graph, f: u64, t: u64) -> bool {
    exists|mid: Graph|
        #[trigger] reverted(o, mid, f, t) && if known(mid.nodes@, mid.merges@, f) && known(
            mid.nodes@,
            mid.merges@,
            t,
        ) {
            hint_merged(mid.nodes@, mid.merges@, n.nodes@, n.merges@)
        } else {
            n == mid
        }
}

/// A control-flow graph: the graph of the edges seen so far, between
/// sequential node indices, its compression, and the metadata of each
/// index.
pub struct ControlFlowGraph {
    pub graph: Graph,
    pub compressed_graph: Graph,
    pub updates: usize,
    pub rebuilds: usize,
    pub metadata: Vec<NodeMetadata>,
    /// The indices of the metadata, filed by `digest`.
    pub meta_mapping_unique_id_to_index: HashMap<u64, Vec<usize>>,
}

impl ControlFlowGraph {
    /// The graph and its compression are consistent, the metadata are
    /// distinct, and every index names a node.
    pub open spec fn wf(&self) -> bool {
        &&& self.wf_metadata()
        &&& forall|i: u64| i < self.metadata@.len() ==> #[trigger] self.graph.nodes@.contains_key(i)
    }

    /// `wf`, but for metadata that have no node yet.
    pub open spec fn wf_metadata(&self) -> bool {
        &&& self.graph.wf()
        &&& self.graph.merges@ == Map::<u64, u64>::empty()
        &&& edges_symmetric(self.graph.nodes@)
        &&& self.compressed_graph.wf()
        &&& forall|k: u64| #[trigger] self.graph.nodes@.contains_key(k) ==> k < self.metadata@.len()
        &&& forall|i: int, j: int|
            0 <= i < j < self.metadata@.len() ==> #[trigger] self.metadata@[i]@ != #[trigger] self.metadata@[j]@
        &&& self.index_wf()
    }

    /// Each metadata is filed under its digest, and each filed index is
    /// that of a metadata with that digest.
    pub closed spec fn index_wf(&self) -> bool {
        let idx = self.meta_mapping_unique_id_to_index@;
        let md = self.metadata@;
        &&& forall|i: int|
            0 <= i < md.len() ==> idx.contains_key(digest(#[trigger] md[i]@)) && idx[digest(md[i]@)]@.contains(
                i as usize,
            )
        &&& forall|d: u64, p: int|
            #![trigger idx[d]@[p]]
            idx.contains_key(d) && 0 <= p < idx[d]@.len() ==> idx[d]@[p] < md.len() && digest(md[idx[d]@[p] as int]@)
                == d
    }

    /// Some index holds metadata `v`.
    pub open spec fn registered(&self, v: MetadataView) -> bool {
        exists|i: int| 0 <= i < self.metadata@.len() && #[trigger] self.metadata@[i]@ == v
    }

    /// The index of metadata `v`, or the next free index if none holds it.
    pub open spec fn index_of(&self, v: MetadataView) -> int {
        if self.registered(v) {
            choose|i: int| 0 <= i < self.metadata@.len() && #[trigger] self.metadata@[i]@ == v
        } else {
            self.metadata@.len() as int
        }
    }

    /// The metadata at index `i` has index `i`.
    pub proof fn lemma_index_of(&self, i: int)
        requires
            self.wf_metadata(),
            0 <= i < self.metadata@.len(),
        ensures
            self.registered(self.metadata@[i]@),
            self.index_of(self.metadata@[i]@) == i,
    {
        let v = self.metadata@[i]@;
        assert(self.registered(v));
        let j = choose|j: int| 0 <= j < self.metadata@.len() && #[trigger] self.metadata@[j]@ == v;
        if j < i {
            assert(self.metadata@[j]@ != self.metadata@[i]@);
        } else if i < j {
            assert(self.metadata@[i]@ != self.metadata@[j]@);
        }
    }

    pub fn new() -> (cfg: Self)
        ensures
            cfg.wf(),
            cfg.graph.nodes@ == Map::<u64, crate::graph::Node>::empty(),
            cfg.compressed_graph.nodes@ == Map::<u64, crate::graph::Node>::empty(),
            cfg.metadata@ == Seq::<NodeMetadata>::empty(),
            cfg.updates == 0,
            cfg.rebuilds == 0,
    {
        ControlFlowGraph {
            graph: Graph::new(),
            compressed_graph: Graph::new(),
            updates: 0,
            rebuilds: 0,
            metadata: Vec::new(),
            meta_mapping_unique_id_to_index: HashMap::new(),
        }
    }

    /// The index that holds metadata `node`, filed under `d`, if any.
    fn find_registered(&self, node: &NodeMetadata, d: u64) -> (r: Option<usize>)
        requires
            self.wf_metadata(),
            d == digest(node@),
        ensures
            match r {
                Some(i) => i < self.metadata@.len() && self.metadata@[i as int]@ == node@,
                None => !self.registered(node@),
            },
    {
        let n: usize = self.metadata.len();
        match self.meta_mapping_unique_id_to_index.get(&d) {
            None => {
                proof {
                    if self.registered(node@) {
                        let i = choose|i: int| 0 <= i < self.metadata@.len() && #[trigger] self.metadata@[i]@ == node@;
                        assert(self.meta_mapping_unique_id_to_index@.contains_key(digest(self.metadata@[i]@)));
                    }
                }
                None
            },
            Some(bucket) => {
                let ghost idx = self.meta_mapping_unique_id_to_index@;
                let mut p: usize = 0;
                while p < bucket.len()
                    invariant
                        self.wf_metadata(),
                        idx == self.meta_mapping_unique_id_to_index@,
                        n == self.metadata@.len(),
                        idx.contains_key(d),
                        bucket@ == idx[d]@,
                        d == digest(node@),
                        0 <= p <= bucket@.len(),
                        forall|q: int| 0 <= q < p ==> self.metadata@[#[trigger] bucket@[q] as int]@ != node@,
                    decreases bucket@.len() - p,
                {
                    let j = bucket[p];
                    proof {
                        assert(idx[d]@[p as int] == j);
                        assert(self.index_wf());
                        assert(j < self.metadata@.len());
                    }
                    if same_metadata(&self.metadata[j], node) {
                        return Some(j);
                    }
                    p = p + 1;
                }
                proof {
                    if self.registered(node@) {
                        let i = choose|i: int| 0 <= i < self.metadata@.len() && #[trigger] self.metadata@[i]@ == node@;
                        assert(idx[digest(self.metadata@[i]@)]@.contains(i as usize));
                        let q = choose|q: int| 0 <= q < bucket@.len() && bucket@[q] == i as usize;
                        assert(self.metadata@[bucket@[q] as int]@ != node@);
                    }
                }
                None
            },
        }
    }

    /// The sequential index of `node`, registering it if it is new.
    fn update_metadata(&mut self, node: NodeMetadata) -> (idx: u64)
        requires
            old(self).wf_metadata(),
            old(self).metadata@.len() < usize::MAX,
        ensures
            final(self).wf_metadata(),
            final(self).graph == old(self).graph,
            final(self).compressed_graph == old(self).compressed_graph,
            final(self).updates == old(self).updates,
            final(self).rebuilds == old(self).rebuilds,
            idx == old(self).index_of(node@),
            final(self).metadata@ == if old(self).registered(node@) {
                old(self).metadata@
            } else {
                old(self).metadata@.push(node)
            },
            final(self).registered(node@),
            final(self).index_of(node@) == idx,
    {
        let d = metadata_digest(&node);
        match self.find_registered(&node, d) {
            Some(i) => {
                proof {
                    self.lemma_index_of(i as int);
                }
                i as u64
            },
            None => {
                let ghost o = *self;
                let seq_index = self.metadata.len();
                self.metadata.push(node);
                let mut bucket: Vec<usize> = match self.meta_mapping_unique_id_to_index.remove(&d) {
                    Some(b) => b,
                    None => Vec::new(),
                };
                let ghost ob = bucket@;
                bucket.push(seq_index);
                self.meta_mapping_unique_id_to_index.insert(d, bucket);
                proof {
                    let idx0 = o.meta_mapping_unique_id_to_index@;
                    let idx = self.meta_mapping_unique_id_to_index@;
                    let md = self.metadata@;
                    assert(idx == idx0.insert(d, idx[d]));
                    assert(ob == if idx0.contains_key(d) { idx0[d]@ } else { Seq::<usize>::empty() });
                    assert(idx[d]@ == ob.push(seq_index));
                    assert forall|i: int, j: int| 0 <= i < j < md.len() implies #[trigger] md[i]@ != #[trigger] md[j]@ by {
                        if j == seq_index {
                            assert(o.metadata@[i] == md[i]);
                            if md[i]@ == node@ {
                                assert(o.registered(node@));
                            }
                        } else {
                            assert(o.metadata@[i] == md[i] && o.metadata@[j] == md[j]);
                        }
                    }
                    assert forall|i: int| 0 <= i < md.len() implies idx.contains_key(digest(#[trigger] md[i]@))
                        && idx[digest(md[i]@)]@.contains(i as usize) by {
                        if i == seq_index {
                            assert(idx[d]@[ob.len() as int] == seq_index);
                        } else {
                            assert(o.metadata@[i] == md[i]);
                            assert(idx0.contains_key(digest(o.metadata@[i]@)));
                            if digest(md[i]@) == d {
                                let q = choose|q: int| 0 <= q < ob.len() && ob[q] == i as usize;
                                assert(idx[d]@[q] == i as usize);
                            }
                        }
                    }
                    assert forall|dd: u64, p: int| idx.contains_key(dd) && 0 <= p < idx[dd]@.len() implies #[trigger] idx[dd]@[p]
                        < md.len() && digest(md[idx[dd]@[p] as int]@) == dd by {
                        if dd == d {
                            if p < ob.len() {
                                assert(idx0[d]@[p] == ob[p]);
                                assert(o.metadata@[ob[p] as int] == md[ob[p] as int]);
                            }
                        } else {
                            assert(idx0[dd]@[p] == idx[dd]@[p]);
                            assert(o.metadata@[idx[dd]@[p] as int] == md[idx[dd]@[p] as int]);
                        }
                    }
                    assert forall|k: u64| #[trigger] self.graph.nodes@.contains_key(k) implies k < md.len() by {
                        assert(o.graph.nodes@.contains_key(k));
                    }
                    assert(self.wf_metadata());
                    self.lemma_index_of(seq_index as int);
                }
                seq_index as u64
            },
        }
    }

    /// Insert a node connection. Returns true if the connection
    /// is new.
    #[verifier::spinoff_prover]
    pub fn update(&mut self, from_meta: NodeMetadata, to_meta: NodeMetadata) -> (modified: bool)
        requires
            old(self).wf(),
            old(self).metadata@.len() + 2 < usize::MAX,
            old(self).updates < usize::MAX,
            old(self).rebuilds < usize::MAX,
        ensures
            final(self).wf(),
            ({
                let f = old(self).index_of(from_meta@) as u64;
                let t = if to_meta@ == from_meta@ {
                    f
                } else if old(self).registered(to_meta@) {
                    old(self).index_of(to_meta@) as u64
                } else if old(self).registered(from_meta@) {
                    old(self).metadata@.len() as u64
                } else {
                    (old(self).metadata@.len() + 1) as u64
                };
                &&& modified == !edge_set(old(self).graph.nodes@).contains((f, t))
                &&& edge_set(final(self).graph.nodes@) == edge_set(old(self).graph.nodes@).insert((f, t))
                &&& final(self).graph.nodes@.dom() == old(self).graph.nodes@.dom().insert(f).insert(t)
                &&& !modified ==> final(self).compressed_graph == old(self).compressed_graph
                &&& modified ==> recompressed(old(self).compressed_graph, final(self).compressed_graph, f, t)
            }),
            final(self).metadata@.len() >= old(self).metadata@.len(),
            final(self).metadata@.len() <= old(self).metadata@.len() + 2,
            forall|i: int|
                old(self).metadata@.len() <= i < final(self).metadata@.len() ==> (#[trigger] final(self).metadata@[i])@
                    == from_meta@ || final(self).metadata@[i]@ == to_meta@,
            final(self).registered(from_meta@),
            final(self).registered(to_meta@),
            edge_set(final(self).graph.nodes@) == edge_set(old(self).graph.nodes@).insert(
                (final(self).index_of(from_meta@) as u64, final(self).index_of(to_meta@) as u64),
            ),
            forall|i: int| 0 <= i < old(self).metadata@.len() ==> #[trigger] final(self).metadata@[i] == old(self).metadata@[i],
            forall|v: MetadataView| #[trigger]
                old(self).registered(v) ==> final(self).registered(v) && final(self).index_of(v)
                    == old(self).index_of(v),
            final(self).updates == old(self).updates + 1,
            final(self).rebuilds == old(self).rebuilds + if modified {
                1int
            } else {
                0int
            },
    {
        let ghost o = *old(self);
        let ghost fv = from_meta@;
        let ghost tv = to_meta@;
        let from = self.update_metadata(from_meta);
        let ghost mid = *self;
        let to = self.update_metadata(to_meta);
        proof {
            if mid.registered(tv) {
                let j = choose|j: int| 0 <= j < mid.metadata@.len() && #[trigger] mid.metadata@[j]@ == tv;
                mid.lemma_index_of(j);
                if j < o.metadata@.len() {
                    assert(o.metadata@[j] == mid.metadata@[j]);
                    o.lemma_index_of(j);
                }
            }
            if o.registered(tv) {
                let j = choose|j: int| 0 <= j < o.metadata@.len() && #[trigger] o.metadata@[j]@ == tv;
                o.lemma_index_of(j);
                assert(mid.metadata@[j] == o.metadata@[j]);
                mid.lemma_index_of(j);
            }
            assert(to as int == if tv == fv {
                from as int
            } else if o.registered(tv) {
                o.index_of(tv)
            } else if o.registered(fv) {
                o.metadata@.len() as int
            } else {
                o.metadata@.len() + 1int
            });
        }
        proof {
            assert forall|i: int|
                o.metadata@.len() <= i < self.metadata@.len() implies (#[trigger] self.metadata@[i])@ == fv
                || self.metadata@[i]@ == tv by {
                if i < mid.metadata@.len() {
                    assert(self.metadata@[i] == mid.metadata@[i]);
                }
            }
        }
        let ghost g0 = self.graph;
        let modified = self.graph.update(from, to);
        proof {
            let n0 = g0.nodes@;
            let n1 = self.graph.nodes@;
            assert(update_result(n0, n1, from, to));
            lemma_update_edge_set(n0, n1, from, to);
            law_update_keeps_symmetry(n0, n1, from, to);
            assert(from < self.metadata@.len());
            assert(to < self.metadata@.len());
            assert forall|k: u64| #[trigger] n1.contains_key(k) implies k < self.metadata@.len() by {
                if k != from && k != to {
                    assert(n0.contains_key(k));
                }
            }
            assert(self.graph.merges@ =~= Map::<u64, u64>::empty());
            assert forall|i: u64| i < self.metadata@.len() implies #[trigger] n1.contains_key(i) by {
                if i < o.metadata@.len() {
                    assert(o.graph.nodes@.contains_key(i));
                } else if i < mid.metadata@.len() {
                    assert(i == from);
                } else {
                    assert(i == to);
                }
            }
        }
        let ghost g_after = self.graph;
        let ghost md = self.metadata@;
        proof {
            assert forall|k: u64| #[trigger] g_after.nodes@.contains_key(k) implies k < md.len() by {}
        }
        self.updates = self.updates + 1;
        // Only edit the compressed graph if this was a new link
        let ghost cg0 = self.compressed_graph;
        if modified {
            self.compressed_graph.revert_and_update(from, to);
            let ghost mid = self.compressed_graph;
            self.rebuilds = self.rebuilds + 1;
            // Both ends are held by nodes after the update; ids that are
            // not leave nothing to compress around.
            if self.compressed_graph.is_known(from) && self.compressed_graph.is_known(to) {
                self.compressed_graph.compress_with_hint(from, to);
            }
            proof {
                assert(reverted(cg0, mid, from, to));
                assert(recompressed(cg0, self.compressed_graph, from, to));
            }
        }
        proof {
            assert(self.graph == g_after);
            assert(self.metadata@ == md);
            assert forall|k: u64| #[trigger] self.graph.nodes@.contains_key(k) implies k < self.metadata@.len() by {
                assert(g_after.nodes@.contains_key(k));
            }
            assert forall|i: u64| i < self.metadata@.len() implies #[trigger] self.graph.nodes@.contains_key(i) by {
                assert(g_after.nodes@.contains_key(i));
            }
            assert forall|i: int| 0 <= i < o.metadata@.len() implies #[trigger] self.metadata@[i] == o.metadata@[i] by {
                assert(mid.metadata@[i] == o.metadata@[i]);
            }
            assert forall|v: MetadataView| #[trigger] o.registered(v) implies self.registered(v) && self.index_of(v)
                == o.index_of(v) by {
                let j = choose|j: int| 0 <= j < o.metadata@.len() && #[trigger] o.metadata@[j]@ == v;
                o.lemma_index_of(j);
                assert(self.metadata@[j] == o.metadata@[j]);
                self.lemma_index_of(j);
            }
            assert(self.index_of(fv) == from) by {
                let j = choose|j: int| 0 <= j < mid.metadata@.len() && #[trigger] mid.metadata@[j]@ == fv;
                mid.lemma_index_of(j);
                assert(self.metadata@[j] == mid.metadata@[j]);
                self.lemma_index_of(j);
            }
        }
        modified
    }
}

impl Graph {
    /// Whether `x` names a node, directly or through merges.
    pub fn is_known(&self, x: u64) -> (b: bool)
        ensures
            b == known(self.nodes@, self.merges@, x),
    {
        self.nodes.contains_key(&x) || self.merges.contains_key(&x)
    }
}

/// A control-flow graph as it travels between processes: the metadata of
/// each node, by index, and the directed edges between indices.
pub struct GraphIpc {
    pub metadata: Vec<NodeMetadata>,
    pub edges: Vec<(usize, usize)>,
}

/// The edges between the indices that `cfg` gives the metadata of `edges`.
pub open spec fn indexed_edges(cfg: ControlFlowGraph, edges: Seq<(NodeMetadata, NodeMetadata)>) -> Set<(u64, u64)> {
    Set::new(
        |e: (u64, u64)|
            exists|i: int|
                0 <= i < edges.len() && e == (
                    cfg.index_of((#[trigger] edges[i]).0@) as u64,
                    cfg.index_of(edges[i].1@) as u64,
                ),
    )
}

/// `v` is the metadata of an end of edge `e` of `edges`.
pub open spec fn end_of(v: MetadataView, edges: Seq<(NodeMetadata, NodeMetadata)>, e: int) -> bool {
    0 <= e < edges.len() && (v == edges[e].0@ || v == edges[e].1@)
}

/// Every metadata from place `from` on is that of an end of one of `edges`.
pub open spec fn added_ends(from: int, md: Seq<MetadataView>, edges: Seq<(NodeMetadata, NodeMetadata)>) -> bool {
    forall|i: int| #![trigger md[i]] from <= i < md.len() ==> has_end(md[i], edges)
}

/// `v` is the metadata of an end of one of `edges`.
pub open spec fn has_end(v: MetadataView, edges: Seq<(NodeMetadata, NodeMetadata)>) -> bool {
    exists|e: int| #[trigger] end_of(v, edges, e)
}

/// A copy of a list of metadata.
fn copy_metadata(v: &Vec<NodeMetadata>) -> (c: Vec<NodeMetadata>)
    ensures
        meta_views(c@) == meta_views(v@),
{
    let mut c: Vec<NodeMetadata> = Vec::new();
    let mut i: usize = 0;
    while i < v.len()
        invariant
            0 <= i <= v@.len(),
            c@.len() == i,
            forall|j: int| 0 <= j < i ==> (#[trigger] c@[j])@ == v@[j]@,
        decreases v@.len() - i,
    {
        c.push(v[i].clone());
        i = i + 1;
    }
    assert(meta_views(c@) =~= meta_views(v@));
    c
}

impl ControlFlowGraph {
    /// The control-flow graph of the given edges, added one after the
    /// other.
    pub fn from_edges(edges: &[(NodeMetadata, NodeMetadata)]) -> (cfg: Self)
        requires
            edges@.len() < usize::MAX / 4,
        ensures
            cfg.wf(),
            forall|i: int|
                0 <= i < edges@.len() ==> cfg.registered((#[trigger] edges@[i]).0@) && cfg.registered(edges@[i].1@),
            edge_set(cfg.graph.nodes@) == indexed_edges(cfg, edges@),
            cfg.metadata@.len() <= 2 * edges@.len(),
            cfg.updates == edges@.len(),
    {
        let mut ret = ControlFlowGraph::new();
        let mut i: usize = 0;
        proof {
            assert(edge_set(ret.graph.nodes@) =~= indexed_edges(ret, edges@.take(0)));
        }
        while i < edges.len()
            invariant
                0 <= i <= edges@.len(),
                edges@.len() < usize::MAX / 4,
                ret.wf(),
                ret.metadata@.len() <= 2 * i,
                ret.updates == i,
                ret.rebuilds <= i,
                forall|a: int|
                    0 <= a < i ==> ret.registered((#[trigger] edges@[a]).0@) && ret.registered(edges@[a].1@),
                edge_set(ret.graph.nodes@) == indexed_edges(ret, edges@.take(i as int)),
            decreases edges@.len() - i,
        {
            let from = edges[i].0.clone();
            let to = edges[i].1.clone();
            let ghost before = ret;
            ret.update(from, to);
            proof {
                let t0 = edges@.take(i as int);
                let t1 = edges@.take(i + 1);
                let fe = (ret.index_of(from@) as u64, ret.index_of(to@) as u64);
                assert forall|e: (u64, u64)| #[trigger] indexed_edges(ret, t1).contains(e) <==> indexed_edges(
                    before,
                    t0,
                ).insert(fe).contains(e) by {
                    if indexed_edges(ret, t1).contains(e) {
                        let a = choose|a: int|
                            0 <= a < t1.len() && e == (
                                ret.index_of((#[trigger] t1[a]).0@) as u64,
                                ret.index_of(t1[a].1@) as u64,
                            );
                        if a < i {
                            assert(t0[a] == t1[a]);
                            assert(before.registered(edges@[a].0@));
                            assert(before.registered(edges@[a].1@));
                        } else {
                            assert(t1[a] == edges@[i as int]);
                        }
                    }
                    if indexed_edges(before, t0).contains(e) {
                        let a = choose|a: int|
                            0 <= a < t0.len() && e == (
                                before.index_of((#[trigger] t0[a]).0@) as u64,
                                before.index_of(t0[a].1@) as u64,
                            );
                        assert(t1[a] == t0[a]);
                        assert(before.registered(edges@[a].0@));
                        assert(before.registered(edges@[a].1@));
                    }
                    if e == fe {
                        assert(t1[i as int] == edges@[i as int]);
                    }
                }
                assert(indexed_edges(ret, t1) =~= indexed_edges(before, t0).insert(fe));
                assert forall|a: int| 0 <= a < i + 1 implies ret.registered((#[trigger] edges@[a]).0@)
                    && ret.registered(edges@[a].1@) by {
                    if a < i {
                        assert(before.registered(edges@[a].0@));
                        assert(before.registered(edges@[a].1@));
                    }
                }
            }
            i = i + 1;
        }
        proof {
            assert(edges@.take(edges@.len() as int) =~= edges@);
        }
        ret
    }

    /// Adds the given edges one after the other, as `update` adds each:
    /// the graph gains exactly their edges between the indices of their
    /// metadata, and every index given before keeps its metadata.
    pub fn add_edges(&mut self, edges: &[(NodeMetadata, NodeMetadata)])
        requires
            old(self).wf(),
            old(self).metadata@.len() + 2 * edges@.len() + 2 < usize::MAX,
            old(self).updates + edges@.len() < usize::MAX,
            old(self).rebuilds + edges@.len() < usize::MAX,
        ensures
            final(self).wf(),
            forall|i: int|
                0 <= i < edges@.len() ==> final(self).registered((#[trigger] edges@[i]).0@) && final(self).registered(
                    edges@[i].1@,
                ),
            edge_set(final(self).graph.nodes@) == edge_set(old(self).graph.nodes@).union(
                indexed_edges(*final(self), edges@),
            ),
            forall|i: int| 0 <= i < old(self).metadata@.len() ==> #[trigger] final(self).metadata@[i] == old(self).metadata@[i],
            forall|v: MetadataView| #[trigger]
                old(self).registered(v) ==> final(self).registered(v) && final(self).index_of(v)
                    == old(self).index_of(v),
            final(self).metadata@.len() >= old(self).metadata@.len(),
            final(self).metadata@.len() <= old(self).metadata@.len() + 2 * edges@.len(),
            final(self).updates == old(self).updates + edges@.len(),
            added_ends(old(self).metadata@.len() as int, meta_views(final(self).metadata@), edges@),
            final(self).graph.nodes@.dom() == Set::new(|k: u64| k < final(self).metadata@.len()),
    {
        let ghost o = *old(self);
        let mut i: usize = 0;
        proof {
            assert(edge_set(self.graph.nodes@) =~= edge_set(o.graph.nodes@).union(indexed_edges(*self, edges@.take(0))));
        }
        while i < edges.len()
            invariant
                0 <= i <= edges@.len(),
                o.metadata@.len() + 2 * edges@.len() + 2 < usize::MAX,
                o.updates + edges@.len() < usize::MAX,
                o.rebuilds + edges@.len() < usize::MAX,
                self.wf(),
                self.metadata@.len() <= o.metadata@.len() + 2 * i,
                self.metadata@.len() >= o.metadata@.len(),
                self.updates == o.updates + i,
                added_ends(o.metadata@.len() as int, meta_views(self.metadata@), edges@),
                self.rebuilds <= o.rebuilds + i,
                forall|a: int|
                    0 <= a < i ==> self.registered((#[trigger] edges@[a]).0@) && self.registered(edges@[a].1@),
                forall|a: int| 0 <= a < o.metadata@.len() ==> #[trigger] self.metadata@[a] == o.metadata@[a],
                forall|v: MetadataView| #[trigger]
                    o.registered(v) ==> self.registered(v) && self.index_of(v) == o.index_of(v),
                edge_set(self.graph.nodes@) == edge_set(o.graph.nodes@).union(indexed_edges(*self, edges@.take(i as int))),
            decreases edges@.len() - i,
        {
            let from = edges[i].0.clone();
            let to = edges[i].1.clone();
            let ghost before = *self;
            self.update(from, to);
            proof {
                let t0 = edges@.take(i as int);
                let t1 = edges@.take(i + 1);
                let fe = (self.index_of(from@) as u64, self.index_of(to@) as u64);
                assert forall|e: (u64, u64)| #[trigger] indexed_edges(*self, t1).contains(e) <==> indexed_edges(
                    before,
                    t0,
                ).insert(fe).contains(e) by {
                    if indexed_edges(*self, t1).contains(e) {
                        let a = choose|a: int|
                            0 <= a < t1.len() && e == (
                                self.index_of((#[trigger] t1[a]).0@) as u64,
                                self.index_of(t1[a].1@) as u64,
                            );
                        if a < i {
                            assert(t0[a] == t1[a]);
                            assert(before.registered(edges@[a].0@));
                            assert(before.registered(edges@[a].1@));
                        } else {
                            assert(t1[a] == edges@[i as int]);
                        }
                    }
                    if indexed_edges(before, t0).contains(e) {
                        let a = choose|a: int|
                            0 <= a < t0.len() && e == (
                                before.index_of((#[trigger] t0[a]).0@) as u64,
                                before.index_of(t0[a].1@) as u64,
                            );
                        assert(t1[a] == t0[a]);
                        assert(before.registered(edges@[a].0@));
                        assert(before.registered(edges@[a].1@));
                    }
                    if e == fe {
                        assert(t1[i as int] == edges@[i as int]);
                    }
                }
                assert(indexed_edges(*self, t1) =~= indexed_edges(before, t0).insert(fe));
                assert(edge_set(self.graph.nodes@) =~= edge_set(o.graph.nodes@).union(indexed_edges(*self, t1)));
                assert forall|a: int| 0 <= a < i + 1 implies self.registered((#[trigger] edges@[a]).0@)
                    && self.registered(edges@[a].1@) by {
                    if a < i {
                        assert(before.registered(edges@[a].0@));
                        assert(before.registered(edges@[a].1@));
                    }
                }
                assert forall|a: int| 0 <= a < o.metadata@.len() implies #[trigger] self.metadata@[a] == o.metadata@[a] by {
                    assert(before.metadata@[a] == o.metadata@[a]);
                }
                assert forall|v: MetadataView| #[trigger] o.registered(v) implies self.registered(v) && self.index_of(v)
                    == o.index_of(v) by {
                    assert(before.registered(v));
                }
                let mv = meta_views(self.metadata@);
                let bv = meta_views(before.metadata@);
                assert forall|a: int| #![trigger mv[a]]
                    o.metadata@.len() <= a < mv.len() implies has_end(mv[a], edges@) by {
                    if a < before.metadata@.len() {
                        assert(self.metadata@[a] == before.metadata@[a]);
                        assert(mv[a] == bv[a]);
                        let e = choose|e: int| #[trigger] end_of(bv[a], edges@, e);
                        assert(end_of(mv[a], edges@, e));
                    } else {
                        assert(self.metadata@[a]@ == from@ || self.metadata@[a]@ == to@);
                        assert(end_of(mv[a], edges@, i as int));
                    }
                }
            }
            i = i + 1;
        }
        proof {
            assert(edges@.take(edges@.len() as int) =~= edges@);

            assert forall|k: u64| #[trigger] self.graph.nodes@.contains_key(k) <==> k < self.metadata@.len() by {}
            assert(self.graph.nodes@.dom() =~= Set::new(|k: u64| k < self.metadata@.len()));
        }
    }

    /// The control-flow graph of a graph received from another process.
    pub fn from_ipc(value: &GraphIpc) -> (cfg: Self)
        requires
            value.edges@.len() < usize::MAX / 4,
            forall|i: int| 0 <= i < value.edges@.len() ==> (#[trigger] value.edges@[i]).0 < value.metadata@.len()
                && value.edges@[i].1 < value.metadata@.len(),
        ensures
            cfg.wf(),
            edge_set(cfg.graph.nodes@) == Set::new(
                |e: (u64, u64)|
                    exists|i: int|
                        0 <= i < value.edges@.len() && e == (
                            cfg.index_of(value.metadata@[(#[trigger] value.edges@[i]).0 as int]@) as u64,
                            cfg.index_of(value.metadata@[value.edges@[i].1 as int]@) as u64,
                        ),
            ),
    {
        let mut pairs: Vec<(NodeMetadata, NodeMetadata)> = Vec::new();
        let mut i: usize = 0;
        while i < value.edges.len()
            invariant
                0 <= i <= value.edges@.len(),
                forall|j: int| 0 <= j < value.edges@.len() ==> (#[trigger] value.edges@[j]).0 < value.metadata@.len()
                    && value.edges@[j].1 < value.metadata@.len(),
                pairs@.len() == i,
                forall|j: int|
                    0 <= j < i ==> (#[trigger] pairs@[j]).0@ == value.metadata@[value.edges@[j].0 as int]@
                        && pairs@[j].1@ == value.metadata@[value.edges@[j].1 as int]@,
            decreases value.edges@.len() - i,
        {
            let (x, y) = value.edges[i];
            pairs.push((value.metadata[x].clone(), value.metadata[y].clone()));
            i = i + 1;
        }
        let cfg = ControlFlowGraph::from_edges(&pairs);
        proof {
            assert forall|e: (u64, u64)| indexed_edges(cfg, pairs@).contains(e) <==> (exists|i: int|
                0 <= i < value.edges@.len() && e == (
                    cfg.index_of(value.metadata@[(#[trigger] value.edges@[i]).0 as int]@) as u64,
                    cfg.index_of(value.metadata@[value.edges@[i].1 as int]@) as u64,
                )) by {
                if indexed_edges(cfg, pairs@).contains(e) {
                    let a = choose|a: int|
                        0 <= a < pairs@.len() && e == (
                            cfg.index_of((#[trigger] pairs@[a]).0@) as u64,
                            cfg.index_of(pairs@[a].1@) as u64,
                        );
                    assert(value.edges@[a] == value.edges@[a]);
                }
                if exists|i: int|
                    0 <= i < value.edges@.len() && e == (
                        cfg.index_of(value.metadata@[(#[trigger] value.edges@[i]).0 as int]@) as u64,
                        cfg.index_of(value.metadata@[value.edges@[i].1 as int]@) as u64,
                    ) {
                    let a = choose|a: int|
                        0 <= a < value.edges@.len() && e == (
                            cfg.index_of(value.metadata@[(#[trigger] value.edges@[a]).0 as int]@) as u64,
                            cfg.index_of(value.metadata@[value.edges@[a].1 as int]@) as u64,
                        );
                    assert(pairs@[a].0@ == value.metadata@[value.edges@[a].0 as int]@);
                }
            }
        }
        cfg
    }

    /// The edges of the graph, between the sequential indices of their
    /// ends.
    fn sequential_edges(&self) -> (out: Vec<(usize, usize)>)
        requires
            self.wf(),
        ensures
            out@.len() == edge_set(self.graph.nodes@).len(),
            forall|e: (usize, usize)| #[trigger] out@.contains(e) <==> edge_set(self.graph.nodes@).contains(
                (e.0 as u64, e.1 as u64),
            ),
    {
        // Edges are already converted to sequential ids on insertion
        let edges = self.graph.edges();
        let n = self.metadata.len();
        let mut out: Vec<(usize, usize)> = Vec::new();
        let mut i: usize = 0;
        while i < edges.len()
            invariant
                0 <= i <= edges@.len(),
                n == self.metadata@.len(),
                self.wf(),
                edges@.to_set() == edge_set(self.graph.nodes@),
                out@.len() == i,
                forall|j: int| 0 <= j < i ==> #[trigger] out@[j] == (edges@[j].0 as usize, edges@[j].1 as usize),
                forall|j: int| 0 <= j < i ==> edges@[j].0 < self.metadata@.len() && edges@[j].1 < self.metadata@.len(),
            decreases edges@.len() - i,
        {
            let (x, y) = edges[i];
            proof {
                assert(edges@.to_set().contains(edges@[i as int]));
                assert(self.graph.nodes@.contains_key(x));
                assert(self.graph.nodes@[x].to@.contains(y));
                assert(crate::graph::known(self.graph.nodes@, self.graph.merges@, y));
                assert(self.graph.nodes@.contains_key(y));
                assert(x < n && y < n);
            }
            out.push((x as usize, y as usize));
            i = i + 1;
        }
        proof {
            assert forall|e: (usize, usize)| #[trigger] out@.contains(e) <==> edge_set(self.graph.nodes@).contains(
                (e.0 as u64, e.1 as u64),
            ) by {
                if out@.contains(e) {
                    let j = choose|j: int| 0 <= j < out@.len() && out@[j] == e;
                    assert(edges@.to_set().contains(edges@[j]));
                    assert(edges@[j].0 < n && edges@[j].1 < n);
                    assert((e.0 as u64, e.1 as u64) == edges@[j]);
                }
                if edge_set(self.graph.nodes@).contains((e.0 as u64, e.1 as u64)) {
                    let p = (e.0 as u64, e.1 as u64);
                    assert(edges@.to_set().contains(p));
                    let j = choose|j: int| 0 <= j < edges@.len() && edges@[j] == p;
                    assert(self.graph.nodes@.contains_key(p.0));
                    assert(self.graph.nodes@[p.0].to@.contains(p.1));
                    assert(crate::graph::known(self.graph.nodes@, self.graph.merges@, p.1));
                    assert(p.0 < n && p.1 < n);
                    assert(out@[j] == e);
                }
            }
            edges@.unique_seq_to_set();
        }
        out
    }

    /// The graph as it is sent to another process: the metadata by index
    /// and the edges between indices.
    pub fn to_ipc(&self) -> (ipc: GraphIpc)
        requires
            self.wf(),
        ensures
            meta_views(ipc.metadata@) == meta_views(self.metadata@),
            ipc.edges@.len() == edge_set(self.graph.nodes@).len(),
            forall|e: (usize, usize)| #[trigger] ipc.edges@.contains(e) <==> edge_set(self.graph.nodes@).contains(
                (e.0 as u64, e.1 as u64),
            ),
    {
        let edges = self.sequential_edges();
        GraphIpc { metadata: copy_metadata(&self.metadata), edges }
    }

    /// The metadata by index, whether each index has an edge to itself,
    /// and the edges between indices.
    pub fn get_raw_metadata_and_selfedge_and_sequential_edges(&self) -> (r: (
        Vec<NodeMetadata>,
        Vec<bool>,
        Vec<(usize, usize)>,
    ))
        requires
            self.wf(),
        ensures
            meta_views(r.0@) == meta_views(self.metadata@),
            r.1@.len() == self.metadata@.len(),
            forall|i: int|
                0 <= i < self.metadata@.len() ==> #[trigger] r.1@[i] == self.graph.nodes@[i as u64].to@.contains(
                    i as u64,
                ),
            r.2@.len() == edge_set(self.graph.nodes@).len(),
            forall|e: (usize, usize)| #[trigger] r.2@.contains(e) <==> edge_set(self.graph.nodes@).contains(
                (e.0 as u64, e.1 as u64),
            ),
    {
        let n = self.metadata.len();
        let mut self_edges: Vec<bool> = Vec::new();
        let mut idx: usize = 0;
        while idx < n
            invariant
                self.wf(),
                n == self.metadata@.len(),
                0 <= idx <= n,
                self_edges@.len() == idx,
                forall|i: int| 0 <= i < idx ==> #[trigger] self_edges@[i] == self.graph.nodes@[i as u64].to@.contains(
                    i as u64,
                ),
            decreases n - idx,
        {
            let id = idx as u64;
            assert(self.graph.nodes@.contains_key(id));
            let node = self.graph.nodes.get(&id).unwrap();
            self_edges.push(node.to.contains(&id));
            idx = idx + 1;
        }
        (copy_metadata(&self.metadata), self_edges, self.sequential_edges())
    }
}

/// The metadata of the original nodes that the ids `of` stand for.
pub open spec fn of_metadata(of: Seq<u64>, md: Seq<NodeMetadata>) -> Seq<MetadataView> {
    of.map_values(|c: u64| md[c as int]@)
}

/// What the compressed listing needs of a control-flow graph: the edges of
/// its compressed graph name nodes, and every block a compressed node
/// stands for is a basic block with metadata.
pub open spec fn compressed_listable(cfg: ControlFlowGraph) -> bool {
    &&& cfg.compressed_graph.edges_closed()
    &&& forall|k: u64, c: int|
        #![trigger of_items(cfg.compressed_graph.nodes@[k].of)[c]]
        cfg.compressed_graph.nodes@.contains_key(k) && 0 <= c < of_items(cfg.compressed_graph.nodes@[k].of).len()
            ==> of_items(cfg.compressed_graph.nodes@[k].of)[c] < cfg.metadata@.len() && is_basic_block(
            cfg.metadata@[of_items(cfg.compressed_graph.nodes@[k].of)[c] as int]@,
        )
}

/// `r` lists the compressed graph of `cfg` with its nodes numbered by
/// ascending id: merged metadata, self edges, and renamed edges.
pub open spec fn compressed_listing(
    cfg: ControlFlowGraph,
    r: (Vec<NodeMetadata>, Vec<bool>, Vec<(usize, usize)>),
) -> bool {
    let nodes = cfg.compressed_graph.nodes@;
    &&& r.0@.len() == nodes.len()
    &&& r.1@.len() == nodes.len()
    &&& forall|k: u64| #[trigger]
        nodes.contains_key(k) ==> {
            let i = rank(nodes, k) as int;
            &&& r.0@[i]@ == merged_metadata(of_metadata(of_items(nodes[k].of), cfg.metadata@))
            &&& r.1@[i] == nodes[k].to@.contains(k)
        }
    &&& r.2@.to_set() == renamed_edge_set(nodes)
    &&& r.2@.len() == edge_set(nodes).len()
}

impl ControlFlowGraph {
    /// For the compressed graph, with its nodes numbered by ascending id:
    /// the metadata of each node, merged from those of the blocks it stands
    /// for, whether it has an edge to itself, and the edges between the
    /// numbers. Every block a compressed node stands for must be a basic
    /// block with metadata.
    pub fn get_compressed_metadata_and_selfedge_and_sequential_edges(&self) -> (r: (
        Vec<NodeMetadata>,
        Vec<bool>,
        Vec<(usize, usize)>,
    ))
        requires
            self.wf(),
            self.compressed_graph.edges_closed(),
            forall|k: u64, c: int|
                #![trigger of_items(self.compressed_graph.nodes@[k].of)[c]]
                self.compressed_graph.nodes@.contains_key(k) && 0 <= c < of_items(
                    self.compressed_graph.nodes@[k].of,
                ).len() ==> of_items(self.compressed_graph.nodes@[k].of)[c] < self.metadata@.len()
                    && is_basic_block(self.metadata@[of_items(self.compressed_graph.nodes@[k].of)[c] as int]@),
        ensures
            r.0@.len() == self.compressed_graph.nodes@.len(),
            r.1@.len() == self.compressed_graph.nodes@.len(),
            forall|k: u64| #[trigger]
                self.compressed_graph.nodes@.contains_key(k) ==> {
                    let i = rank(self.compressed_graph.nodes@, k) as int;
                    &&& r.0@[i]@ == merged_metadata(
                        of_metadata(of_items(self.compressed_graph.nodes@[k].of), self.metadata@),
                    )
                    &&& r.1@[i] == self.compressed_graph.nodes@[k].to@.contains(k)
                },
            r.2@.to_set() == renamed_edge_set(self.compressed_graph.nodes@),
            r.2@.len() == edge_set(self.compressed_graph.nodes@).len(),
            compressed_listing(*self, r),
    {
        let n: usize = self.metadata.len();
        let ghost nodes = self.compressed_graph.nodes@;
        let ghost md = self.metadata@;
        // NOTE: Iterating in increasing-id-order over the nodes is crucial
        // for correctness: the position is the node's new number.
        let ks = sorted_keys(&self.compressed_graph.nodes);
        let mut metas: Vec<NodeMetadata> = Vec::new();
        let mut self_edges: Vec<bool> = Vec::new();
        let mut a: usize = 0;
        while a < ks.len()
            invariant
                self.wf(),
                nodes == self.compressed_graph.nodes@,
                md == self.metadata@,
                n == md.len(),
                ks@.to_set() == nodes.dom(),
                forall|k: u64, c: int|
                    #![trigger of_items(nodes[k].of)[c]]
                    nodes.contains_key(k) && 0 <= c < of_items(nodes[k].of).len() ==> of_items(nodes[k].of)[c]
                        < md.len() && is_basic_block(md[of_items(nodes[k].of)[c] as int]@),
                0 <= a <= ks@.len(),
                metas@.len() == a,
                self_edges@.len() == a,
                forall|b: int|
                    0 <= b < a ==> (#[trigger] metas@[b])@ == merged_metadata(
                        of_metadata(of_items(nodes[ks@[b]].of), md),
                    ) && self_edges@[b] == nodes[ks@[b]].to@.contains(ks@[b]),
            decreases ks@.len() - a,
        {
            let k = ks[a];
            assert(ks@.to_set().contains(k));
            let node = self.compressed_graph.nodes.get(&k).unwrap();
            let ghost of = of_items(node.of);
            let mut refs: Vec<&NodeMetadata> = Vec::new();
            let mut c: usize = 0;
            while c < node.of.len()
                invariant
                    nodes.contains_key(k),
                    *node == nodes[k],
                    of == of_items(node.of),
                    md == self.metadata@,
                    n == md.len(),
                    forall|x: int|
                        0 <= x < of.len() ==> (#[trigger] of[x]) < md.len() && is_basic_block(md[of[x] as int]@),
                    0 <= c <= of.len(),
                    refs@.len() == c,
                    forall|j: int| 0 <= j < c ==> (#[trigger] refs@[j])@ == md[of[j] as int]@,
                decreases of.len() - c,
            {
                let x = node.of.get(c);
                assert(of[c as int] == x);
                refs.push(&self.metadata[x as usize]);
                c = c + 1;
            }
            proof {
                assert(views(refs@) =~= of_metadata(of, md));
                assert forall|j: int| 0 <= j < refs@.len() implies is_basic_block((#[trigger] refs@[j])@) by {
                    assert(of[j] < md.len());
                }
            }
            metas.push(merge_nodes_into_single_metadata(refs.as_slice()));
            self_edges.push(node.to.contains(&k));
            a = a + 1;
        }
        let edges = self.compressed_graph.edge_list_sequentially_renamed();
        proof {
            assert forall|k: u64| #[trigger] nodes.contains_key(k) implies {
                let i = rank(nodes, k) as int;
                &&& metas@[i]@ == merged_metadata(of_metadata(of_items(nodes[k].of), md))
                &&& self_edges@[i] == nodes[k].to@.contains(k)
            } by {
                assert(ks@.to_set().contains(k));
                let b = choose|b: int| 0 <= b < ks@.len() && ks@[b] == k;
                lemma_rank_of_sorted(nodes, ks@, b);
            }
        }
        (metas, self_edges, edges)
    }
}

impl ControlFlowGraph {
    /// The compressed listing, where the compressed graph allows it (as
    /// `compressed_listable` says), and `None` where it does not.
    pub fn checked_compressed_metadata_and_selfedge_and_sequential_edges(&self) -> (r: Option<
        (Vec<NodeMetadata>, Vec<bool>, Vec<(usize, usize)>),
    >)
        requires
            self.wf(),
        ensures
            r is Some <==> compressed_listable(*self),
            r matches Some(x) ==> compressed_listing(*self, x),
    {
        let ghost nodes = self.compressed_graph.nodes@;
        let ks = sorted_keys(&self.compressed_graph.nodes);
        let n = self.metadata.len();
        let mut a: usize = 0;
        while a < ks.len()
            invariant
                0 <= a <= ks@.len(),
                nodes == self.compressed_graph.nodes@,
                ks@.to_set() == nodes.dom(),
                n == self.metadata@.len(),
                self.wf(),
                forall|b: int, x: u64|
                    #![trigger nodes[ks@[b]].to@.contains(x)]
                    #![trigger nodes[ks@[b]].from@.contains(x)]
                    0 <= b < a && (nodes[ks@[b]].to@.contains(x) || nodes[ks@[b]].from@.contains(x))
                        ==> nodes.contains_key(x),
                forall|b: int, c: int|
                    #![trigger of_items(nodes[ks@[b]].of)[c]]
                    0 <= b < a && 0 <= c < of_items(nodes[ks@[b]].of).len() ==> of_items(nodes[ks@[b]].of)[c]
                        < n && is_basic_block(self.metadata@[of_items(nodes[ks@[b]].of)[c] as int]@),
            decreases ks@.len() - a,
        {
            let k = ks[a];
            assert(ks@.to_set().contains(k));
            let node = self.compressed_graph.nodes.get(&k).unwrap();
            proof {
                assert(self.compressed_graph.wf());
                assert(node.wf());
            }
            let tos = node.to.iter();
            let froms = node.from.iter();
            let mut j: usize = 0;
            while j < tos.len()
                invariant
                    0 <= j <= tos@.len(),
                    tos@.to_set() == node.to@,
                    forall|q: int| 0 <= q < j ==> nodes.contains_key(#[trigger] tos@[q]),
                    nodes == self.compressed_graph.nodes@,
                    nodes.contains_key(k),
                    *node == nodes[k],
                decreases tos@.len() - j,
            {
                if !self.compressed_graph.nodes.contains_key(&tos[j]) {
                    proof {
                        assert(tos@.to_set().contains(tos@[j as int]));
                        assert(nodes.contains_key(k) && nodes[k].to@.contains(tos@[j as int]));
                        assert(!self.compressed_graph.edges_closed());
                    }
                    return None;
                }
                j = j + 1;
            }
            let mut j: usize = 0;
            while j < froms.len()
                invariant
                    0 <= j <= froms@.len(),
                    froms@.to_set() == node.from@,
                    forall|q: int| 0 <= q < j ==> nodes.contains_key(#[trigger] froms@[q]),
                    nodes == self.compressed_graph.nodes@,
                    nodes.contains_key(k),
                    *node == nodes[k],
                decreases froms@.len() - j,
            {
                if !self.compressed_graph.nodes.contains_key(&froms[j]) {
                    proof {
                        assert(froms@.to_set().contains(froms@[j as int]));
                        assert(nodes.contains_key(k) && nodes[k].from@.contains(froms@[j as int]));
                        assert(!self.compressed_graph.edges_closed());
                    }
                    return None;
                }
                j = j + 1;
            }
            let mut c: usize = 0;
            while c < node.of.len()
                invariant
                    0 <= c <= of_items(node.of).len(),
                    *node == nodes[k],
                    nodes.contains_key(k),
                    nodes == self.compressed_graph.nodes@,
                    n == self.metadata@.len(),
                    forall|q: int|
                        0 <= q < c ==> (#[trigger] of_items(node.of)[q]) < n && is_basic_block(
                            self.metadata@[of_items(node.of)[q] as int]@,
                        ),
                decreases of_items(node.of).len() - c,
            {
                let x = node.of.get(c);
                proof {
                    assert(of_items(nodes[k].of)[c as int] == x);
                }
                if x >= n as u64 {
                    proof {
                        assert(!compressed_listable(*self));
                    }
                    return None;
                }
                let ok = match &self.metadata[x as usize] {
                    NodeMetadata::BasicBlock { .. } => true,
                    _ => false,
                };
                if !ok {
                    proof {
                        assert(!is_basic_block(self.metadata@[x as int]@));
                        assert(!compressed_listable(*self));
                    }
                    return None;
                }
                c = c + 1;
            }
            proof {
                assert forall|x: u64| #[trigger] node.to@.contains(x) implies nodes.contains_key(x) by {
                    let q = choose|q: int| 0 <= q < tos@.len() && tos@[q] == x;
                }
                assert forall|x: u64| #[trigger] node.from@.contains(x) implies nodes.contains_key(x) by {
                    let q = choose|q: int| 0 <= q < froms@.len() && froms@[q] == x;
                }
            }
            a = a + 1;
        }
        proof {
            assert forall|k: u64, x: u64|
                nodes.contains_key(k) && (nodes[k].to@.contains(x) || nodes[k].from@.contains(x)) implies nodes.contains_key(x) by {
                assert(ks@.to_set().contains(k));
                let b = choose|b: int| 0 <= b < ks@.len() && ks@[b] == k;
                if nodes[ks@[b]].to@.contains(x) {
                } else {
                    assert(nodes[ks@[b]].from@.contains(x));
                }
            }
            assert(self.compressed_graph.edges_closed());
            assert forall|k: u64, c: int|
                #![trigger of_items(nodes[k].of)[c]]
                nodes.contains_key(k) && 0 <= c < of_items(nodes[k].of).len() implies of_items(nodes[k].of)[c]
                < n && is_basic_block(self.metadata@[of_items(nodes[k].of)[c] as int]@) by {
                assert(ks@.to_set().contains(k));
                let b = choose|b: int| 0 <= b < ks@.len() && ks@[b] == k;
                assert(of_items(nodes[ks@[b]].of)[c] < n);
            }
        }
        Some(self.get_compressed_metadata_and_selfedge_and_sequential_edges())
    }
}

} // verus!
