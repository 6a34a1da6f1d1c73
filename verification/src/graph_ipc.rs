use crate::graph::{
    edge_set, lemma_rank_of_sorted, of_items, rank, renamed_edge_set, sorted_keys, Graph, Node, OfList,
};
use crate::small_set::SmallU64Set;
use std::collections::BTreeMap;
use vstd::prelude::*;

verus! {

/// A node of a compressed graph as it travels between processes: its id
/// and the ids of the original nodes it stands for.
pub struct NodeMetadata {
    pub id: u64,
    pub of: OfList,
}

/// A compressed graph as it travels between processes: its nodes by index
/// and the directed edges between indices.
pub struct GraphIpc {
    /// Metadata for nodes with implicit indices `0..metadata.len()`.
    pub metadata: Vec<NodeMetadata>,
    /// Directed edges between nodes, identified by their implicit indices
    pub edges: Vec<(usize, usize)>,
}

/// The node ids of `md` with the ids each stands for; of two entries with
/// one id, the later one counts.
pub open spec fn ipc_nodes(md: Seq<NodeMetadata>) -> Map<u64, Seq<u64>>
    decreases md.len(),
{
    if md.len() == 0 {
        Map::empty()
    } else {
        ipc_nodes(md.drop_last()).insert(md.last().id, of_items(md.last().of))
    }
}

/// The ids other than its own that entry `e` stands for, each mapped to
/// the entry's id.
pub open spec fn entry_merges(e: NodeMetadata) -> Map<u64, u64> {
    Map::new(|c: u64| of_items(e.of).contains(c) && c != e.id, |c: u64| e.id)
}

/// Each id that an entry of `md` stands for, other than the entry's own,
/// mapped to the id of the last entry standing for it.
pub open spec fn ipc_merges(md: Seq<NodeMetadata>) -> Map<u64, u64>
    decreases md.len(),
{
    if md.len() == 0 {
        Map::empty()
    } else {
        ipc_merges(md.drop_last()).union_prefer_right(entry_merges(md.last()))
    }
}

/// The edges `edges` between the ids of the entries they index.
pub open spec fn ipc_edge_set(md: Seq<NodeMetadata>, edges: Seq<(usize, usize)>) -> Set<(u64, u64)> {
    Set::new(
        |e: (u64, u64)|
            exists|j: int|
                0 <= j < edges.len() && e == (md[(#[trigger] edges[j]).0 as int].id, md[edges[j].1 as int].id),
    )
}

/// Every entry's id is a node id.
proof fn lemma_ipc_nodes_has_ids(md: Seq<NodeMetadata>)
    ensures
        forall|x: int| 0 <= x < md.len() ==> ipc_nodes(md).contains_key(#[trigger] md[x].id),
    decreases md.len(),
{
    if md.len() > 0 {
        let p = md.drop_last();
        lemma_ipc_nodes_has_ids(p);
        assert forall|x: int| 0 <= x < md.len() implies ipc_nodes(md).contains_key(#[trigger] md[x].id) by {
            if x < p.len() {
                assert(p[x] == md[x]);
            }
        }
    }
}


/// `g` is the graph that `from_ipc` makes of `ipc`: a node for each id,
/// standing for the ids of the id's last entry, with the edges between
/// entries, and each id an entry stands for, other than its own, merged
/// into the entry's id.
pub open spec fn received_as(ipc: GraphIpc, g: Graph) -> bool {
    &&& g.nodes@.dom() == ipc_nodes(ipc.metadata@).dom()
    &&& forall|k: u64| #[trigger]
        g.nodes@.contains_key(k) ==> {
            &&& g.nodes@[k].id == k
            &&& g.nodes@[k].wf()
            &&& of_items(g.nodes@[k].of) == ipc_nodes(ipc.metadata@)[k]
        }
    &&& edge_set(g.nodes@) == ipc_edge_set(ipc.metadata@, ipc.edges@)
    &&& forall|k: u64, x: u64|
        g.nodes@.contains_key(k) ==> (#[trigger] g.nodes@[k].from@.contains(x) <==> ipc_edge_set(
            ipc.metadata@,
            ipc.edges@,
        ).contains((x, k)))
    &&& g.merges@ == ipc_merges(ipc.metadata@)
}

/// `ipc` is what `from_graph` makes of `graph`: an entry for each node, at
/// the node's position by ascending id, with its id and the ids it stands
/// for, and the edges between the positions of their ends.
pub open spec fn sent_as(graph: Graph, ipc: GraphIpc) -> bool {
    &&& ipc.metadata@.len() == graph.nodes@.len()
    &&& forall|k: u64| #[trigger]
        graph.nodes@.contains_key(k) ==> {
            let i = rank(graph.nodes@, k) as int;
            &&& i < ipc.metadata@.len()
            &&& ipc.metadata@[i].id == k
            &&& of_items(ipc.metadata@[i].of) == of_items(graph.nodes@[k].of)
        }
    &&& forall|i: int|
        0 <= i < ipc.metadata@.len() ==> graph.nodes@.contains_key(#[trigger] ipc.metadata@[i].id) && rank(
            graph.nodes@,
            ipc.metadata@[i].id,
        ) == i
    &&& ipc.edges@.to_set() == renamed_edge_set(graph.nodes@)
    &&& ipc.edges@.len() == edge_set(graph.nodes@).len()
}

/// With distinct ids, each entry's id stands for the entry's ids, and
/// every node id is an entry's.
proof fn lemma_ipc_nodes_distinct(md: Seq<NodeMetadata>)
    requires
        forall|i: int, j: int| 0 <= i < j < md.len() ==> #[trigger] md[i].id != #[trigger] md[j].id,
    ensures
        forall|i: int| 0 <= i < md.len() ==> #[trigger] ipc_nodes(md)[md[i].id] == of_items(md[i].of),
        forall|k: u64| #[trigger] ipc_nodes(md).contains_key(k) ==> exists|i: int| 0 <= i < md.len() && md[i].id == k,
    decreases md.len(),
{
    if md.len() > 0 {
        let p = md.drop_last();
        lemma_ipc_nodes_distinct(p);
        lemma_ipc_nodes_has_ids(p);
        assert forall|i: int| 0 <= i < md.len() implies #[trigger] ipc_nodes(md)[md[i].id] == of_items(md[i].of) by {
            if i < p.len() {
                assert(p[i] == md[i]);
                assert(md[i].id != md[md.len() - 1].id);
            }
        }
        assert forall|k: u64| #[trigger] ipc_nodes(md).contains_key(k) implies exists|i: int|
            0 <= i < md.len() && md[i].id == k by {
            if k != md.last().id {
                assert(ipc_nodes(p).contains_key(k));
                let i = choose|i: int| 0 <= i < p.len() && p[i].id == k;
                assert(md[i] == p[i]);
            } else {
                assert(md[md.len() - 1].id == k);
            }
        }
    }
}

/// A graph sent to another process and received there has the same
/// nodes, each standing for the same ids, with the same edges.
pub proof fn law_ipc_roundtrip(graph: Graph, ipc: GraphIpc, back: Graph)
    requires
        graph.wf(),
        graph.edges_closed(),
        sent_as(graph, ipc),
        received_as(ipc, back),
    ensures
        back.nodes@.dom() == graph.nodes@.dom(),
        forall|k: u64| #[trigger]
            back.nodes@.contains_key(k) ==> of_items(back.nodes@[k].of) == of_items(graph.nodes@[k].of),
        edge_set(back.nodes@) == edge_set(graph.nodes@),
{
    let md = ipc.metadata@;
    let nodes = graph.nodes@;
    assert forall|i: int, j: int| 0 <= i < j < md.len() implies #[trigger] md[i].id != #[trigger] md[j].id by {
        assert(rank(nodes, md[i].id) == i);
        assert(rank(nodes, md[j].id) == j);
    }
    lemma_ipc_nodes_distinct(md);
    lemma_ipc_nodes_has_ids(md);
    assert forall|k: u64| #[trigger] back.nodes@.contains_key(k) <==> nodes.contains_key(k) by {
        if back.nodes@.contains_key(k) {
            assert(ipc_nodes(md).contains_key(k));
            let i = choose|i: int| 0 <= i < md.len() && md[i].id == k;
            assert(nodes.contains_key(md[i].id));
        }
        if nodes.contains_key(k) {
            let i = rank(nodes, k) as int;
            assert(md[i].id == k);
            assert(ipc_nodes(md).contains_key(md[i].id));
        }
    }
    assert(back.nodes@.dom() =~= nodes.dom());
    assert forall|k: u64| #[trigger] back.nodes@.contains_key(k) implies of_items(back.nodes@[k].of) == of_items(
        nodes[k].of,
    ) by {
        let i = rank(nodes, k) as int;
        assert(md[i].id == k);
        assert(ipc_nodes(md)[md[i].id] == of_items(md[i].of));
    }
    let es = ipc.edges@;
    assert forall|e: (u64, u64)| #[trigger] edge_set(back.nodes@).contains(e) <==> edge_set(nodes).contains(e) by {
        if ipc_edge_set(md, es).contains(e) {
            let j = choose|j: int| 0 <= j < es.len() && e == (md[(#[trigger] es[j]).0 as int].id, md[es[j].1 as int].id);
            assert(es.to_set().contains(es[j]));
            assert(renamed_edge_set(nodes).contains(es[j]));
            let f = choose|f: (u64, u64)| #[trigger] edge_set(nodes).contains(f) && es[j] == (rank(nodes, f.0), rank(nodes, f.1));
            assert(nodes.contains_key(f.0) && nodes[f.0].to@.contains(f.1));
            assert(nodes.contains_key(f.1));
            assert(md[rank(nodes, f.0) as int].id == f.0);
            assert(md[rank(nodes, f.1) as int].id == f.1);
        }
        if edge_set(nodes).contains(e) {
            assert(nodes.contains_key(e.1));
            let r = (rank(nodes, e.0), rank(nodes, e.1));
            assert(renamed_edge_set(nodes).contains(r));
            assert(es.to_set().contains(r));
            let j = choose|j: int| 0 <= j < es.len() && es[j] == r;
            assert(md[r.0 as int].id == e.0);
            assert(md[r.1 as int].id == e.1);
            assert(ipc_edge_set(md, es).contains(e));
        }
    }
    assert(edge_set(back.nodes@) =~= edge_set(nodes));
}

impl Graph {
    /// The graph received from another process: a node for each entry,
    /// with no edges yet and the ids it stands for, the merges of those ids
    /// into it, and then the edges between entries.
    pub fn from_ipc(ipc: &GraphIpc) -> (g: Graph)
        requires
            forall|j: int| 0 <= j < ipc.edges@.len() ==> (#[trigger] ipc.edges@[j]).0 < ipc.metadata@.len()
                && ipc.edges@[j].1 < ipc.metadata@.len(),
        ensures
            received_as(*ipc, g),
    {
        let ghost md = ipc.metadata@;
        let mut merges: BTreeMap<u64, u64> = BTreeMap::new();
        let mut nodes: BTreeMap<u64, Node> = BTreeMap::new();
        let mut i: usize = 0;
        while i < ipc.metadata.len()
            invariant
                md == ipc.metadata@,
                0 <= i <= md.len(),
                nodes@.dom() == ipc_nodes(md.take(i as int)).dom(),
                forall|k: u64| #[trigger]
                    nodes@.contains_key(k) ==> {
                        &&& nodes@[k].id == k
                        &&& nodes@[k].wf()
                        &&& nodes@[k].from@ == Set::<u64>::empty()
                        &&& nodes@[k].to@ == Set::<u64>::empty()
                        &&& of_items(nodes@[k].of) == ipc_nodes(md.take(i as int))[k]
                    },
                merges@ == ipc_merges(md.take(i as int)),
            decreases md.len() - i,
        {
            let m = &ipc.metadata[i];
            let id = m.id;
            let node = Node { id, from: SmallU64Set::new(), to: SmallU64Set::new(), of: m.of.clone() };
            let ghost before = merges@;
            let mut c: usize = 0;
            while c < m.of.len()
                invariant
                    0 <= c <= of_items(m.of).len(),
                    merges@ == before.union_prefer_right(
                        Map::new(
                            |x: u64| of_items(m.of).take(c as int).contains(x) && x != id,
                            |x: u64| id,
                        ),
                    ),
                decreases of_items(m.of).len() - c,
            {
                let child = m.of.get(c);
                if child != id {
                    merges.insert(child, id);
                }
                proof {
                    let t = of_items(m.of).take(c + 1);
                    assert(t == of_items(m.of).take(c as int).push(child));
                    assert forall|x: u64| t.contains(x) <==> of_items(m.of).take(c as int).contains(x) || x == child by {
                        if t.contains(x) {
                            let q = choose|q: int| 0 <= q < t.len() && t[q] == x;
                            if q < c {
                                assert(of_items(m.of).take(c as int)[q] == x);
                            }
                        }
                        if of_items(m.of).take(c as int).contains(x) {
                            let q = choose|q: int| 0 <= q < c && of_items(m.of).take(c as int)[q] == x;
                            assert(t[q] == x);
                        }
                        if x == child {
                            assert(t[c as int] == x);
                        }
                    }
                    assert(merges@ =~= before.union_prefer_right(
                        Map::new(|x: u64| t.contains(x) && x != id, |x: u64| id),
                    ));
                }
                c = c + 1;
            }
            nodes.insert(id, node);
            proof {
                let p = md.take(i + 1);
                assert(p.drop_last() =~= md.take(i as int));
                assert(p.last() == md[i as int]);
                assert(of_items(m.of).take(of_items(m.of).len() as int) =~= of_items(m.of));
                assert(merges@ =~= ipc_merges(p));
                assert(nodes@.dom() =~= ipc_nodes(p).dom());
            }
            i = i + 1;
        }
        proof {
            assert(md.take(md.len() as int) =~= md);
            lemma_ipc_nodes_has_ids(md);
        }
        let ghost es = ipc.edges@;
        let mut j: usize = 0;
        while j < ipc.edges.len()
            invariant
                md == ipc.metadata@,
                es == ipc.edges@,
                0 <= j <= es.len(),
                forall|a: int| 0 <= a < es.len() ==> (#[trigger] es[a]).0 < md.len() && es[a].1 < md.len(),
                forall|x: int| 0 <= x < md.len() ==> ipc_nodes(md).contains_key(#[trigger] md[x].id),
                nodes@.dom() == ipc_nodes(md).dom(),
                forall|k: u64| #[trigger]
                    nodes@.contains_key(k) ==> {
                        &&& nodes@[k].id == k
                        &&& nodes@[k].wf()
                        &&& of_items(nodes@[k].of) == ipc_nodes(md)[k]
                        &&& nodes@[k].to@ == Set::new(
                            |t: u64| ipc_edge_set(md, es.take(j as int)).contains((k, t)),
                        )
                        &&& nodes@[k].from@ == Set::new(
                            |f: u64| ipc_edge_set(md, es.take(j as int)).contains((f, k)),
                        )
                    },
            decreases es.len() - j,
        {
            let (x, y) = ipc.edges[j];
            let from = ipc.metadata[x].id;
            let to = ipc.metadata[y].id;
            let ghost n0 = nodes@;
            let mut nf = nodes.remove(&from).unwrap();
            nf.to.insert(to);
            nodes.insert(from, nf);
            let mut nt = nodes.remove(&to).unwrap();
            nt.from.insert(from);
            nodes.insert(to, nt);
            proof {
                let s0 = ipc_edge_set(md, es.take(j as int));
                let s1 = ipc_edge_set(md, es.take(j + 1));
                assert(es.take(j + 1)[j as int] == es[j as int]);
                assert forall|e: (u64, u64)| s1.contains(e) <==> s0.contains(e) || e == (from, to) by {
                    if s1.contains(e) {
                        let a = choose|a: int|
                            0 <= a < es.take(j + 1).len() && e == (
                                md[(#[trigger] es.take(j + 1)[a]).0 as int].id,
                                md[es.take(j + 1)[a].1 as int].id,
                            );
                        if a < j {
                            assert(es.take(j as int)[a] == es.take(j + 1)[a]);
                        }
                    }
                    if s0.contains(e) {
                        let a = choose|a: int|
                            0 <= a < es.take(j as int).len() && e == (
                                md[(#[trigger] es.take(j as int)[a]).0 as int].id,
                                md[es.take(j as int)[a].1 as int].id,
                            );
                        assert(es.take(j + 1)[a] == es.take(j as int)[a]);
                    }
                }
                assert forall|k: u64| #[trigger] nodes@.contains_key(k) implies {
                    &&& nodes@[k].id == k
                    &&& nodes@[k].wf()
                    &&& of_items(nodes@[k].of) == ipc_nodes(md)[k]
                    &&& nodes@[k].to@ == Set::new(|t: u64| s1.contains((k, t)))
                    &&& nodes@[k].from@ == Set::new(|f: u64| s1.contains((f, k)))
                } by {
                    assert(n0.contains_key(k));
                    assert(nodes@[k].to@ =~= Set::new(|t: u64| s1.contains((k, t))));
                    assert(nodes@[k].from@ =~= Set::new(|f: u64| s1.contains((f, k))));
                }
                assert(nodes@.dom() =~= ipc_nodes(md).dom());
            }
            j = j + 1;
        }
        let g = Graph { nodes, merges };
        proof {
            assert(es.take(es.len() as int) =~= es);
            let s = ipc_edge_set(md, es);
            assert forall|e: (u64, u64)| #[trigger] edge_set(g.nodes@).contains(e) <==> s.contains(e) by {
                if s.contains(e) {
                    let a = choose|a: int| 0 <= a < es.len() && e == (md[(#[trigger] es[a]).0 as int].id, md[es[a].1 as int].id);
                    assert(ipc_nodes(md).contains_key(md[es[a].0 as int].id));
                }
            }
            assert(edge_set(g.nodes@) =~= s);
        }
        g
    }
}

impl GraphIpc {
    /// The graph as it is sent to another process: its nodes by ascending
    /// id, and the edges between their positions. Every edge must lead to
    /// a node, with no merge in between.
    pub fn from_graph(graph: &Graph) -> (ipc: GraphIpc)
        requires
            graph.wf(),
            graph.edges_closed(),
        ensures
            sent_as(*graph, ipc),
    {
        let ghost nodes = graph.nodes@;
        let ks = sorted_keys(&graph.nodes);
        let mut metadata: Vec<NodeMetadata> = Vec::new();
        let mut a: usize = 0;
        while a < ks.len()
            invariant
                nodes == graph.nodes@,
                graph.wf(),
                ks@.to_set() == nodes.dom(),
                0 <= a <= ks@.len(),
                metadata@.len() == a,
                forall|b: int|
                    0 <= b < a ==> (#[trigger] metadata@[b]).id == ks@[b] && of_items(metadata@[b].of) == of_items(
                        nodes[ks@[b]].of,
                    ),
            decreases ks@.len() - a,
        {
            let k = ks[a];
            assert(ks@.to_set().contains(k));
            let node = graph.nodes.get(&k).unwrap();
            metadata.push(NodeMetadata { id: node.id, of: node.of.clone() });
            a = a + 1;
        }
        let edges = graph.edge_list_sequentially_renamed();
        proof {
            assert forall|i: int| 0 <= i < metadata@.len() implies nodes.contains_key(#[trigger] metadata@[i].id)
                && rank(nodes, metadata@[i].id) == i by {
                assert(ks@.to_set().contains(ks@[i]));
                lemma_rank_of_sorted(nodes, ks@, i);
            }
            assert forall|k: u64| #[trigger] nodes.contains_key(k) implies {
                let i = rank(nodes, k) as int;
                &&& i < metadata@.len()
                &&& metadata@[i].id == k
                &&& of_items(metadata@[i].of) == of_items(nodes[k].of)
            } by {
                assert(ks@.to_set().contains(k));
                let b = choose|b: int| 0 <= b < ks@.len() && ks@[b] == k;
                lemma_rank_of_sorted(nodes, ks@, b);
            }
        }
        GraphIpc { metadata, edges }
    }
}

} // verus!
