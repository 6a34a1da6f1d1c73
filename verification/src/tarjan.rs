use crate::compress::covered;
use crate::graph::{of_items, Graph, Node, OfList};
use crate::scc::{lemma_fewer_unvisited, parts_ok, parts_sorted};
use crate::small_set::SmallU64Set;
use std::collections::BTreeMap;
use vstd::prelude::*;

verus! {

/// Associated metadata for each node
#[derive(Clone, Copy)]
struct Translation {
    // A separate index from the node id, given in order nodes are found
    index: u64,
    lowest_index_child: u64,
    on_stack: bool,
}

struct State {
    stack: Vec<u64>,
    search_metadata: BTreeMap<u64, Translation>,
    index: u64,
    out: BTreeMap<u64, Node>,
}

/// No part holds an id twice, and no two parts share one.
pub open spec fn parts_disjoint(acc: Map<u64, Node>) -> bool {
    &&& forall|k: u64| #[trigger] acc.contains_key(k) ==> of_items(acc[k].of).no_duplicates()
    &&& forall|k1: u64, k2: u64, x: u64|
        acc.contains_key(k1) && acc.contains_key(k2) && k1 != k2 && #[trigger] of_items(acc[k1].of).contains(x)
            ==> !#[trigger] of_items(acc[k2].of).contains(x)
}

/// The search state is consistent: every visited node is either on the
/// stack or in a finished part, indices are handed out in order, the stack
/// ascends in index, and each stacked node's lowest reachable index lies
/// between the stack's bottom and its own index.
spec fn inv(g: Graph, st: State) -> bool {
    let m = st.search_metadata@;
    let s = st.stack@;
    let o = st.out@;
    &&& m.dom().subset_of(g.nodes@.dom())
    &&& m.dom().finite()
    &&& st.index == m.dom().len()
    &&& forall|x: u64| #[trigger] m.contains_key(x) ==> m[x].index < st.index
    &&& forall|x: u64, y: u64|
        #![trigger m[x], m[y]]
        m.contains_key(x) && m.contains_key(y) && x != y ==> m[x].index != m[y].index
    &&& s.no_duplicates()
    &&& forall|i: int| 0 <= i < s.len() ==> m.contains_key(#[trigger] s[i]) && m[s[i]].on_stack
    &&& forall|x: u64| #[trigger] m.contains_key(x) && m[x].on_stack ==> s.contains(x)
    &&& forall|i: int, j: int| 0 <= i < j < s.len() ==> m[#[trigger] s[i]].index < m[#[trigger] s[j]].index
    &&& forall|i: int|
        0 <= i < s.len() ==> m[#[trigger] s[i]].lowest_index_child <= m[s[i]].index
            && m[s[i]].lowest_index_child >= m[s[0]].index
    &&& forall|x: u64| #[trigger] m.contains_key(x) <==> (s.contains(x) || covered(o).contains(x))
    &&& forall|x: u64| !(#[trigger] s.contains(x) && covered(o).contains(x))
    &&& parts_ok(g.nodes@, o)
    &&& parts_sorted(o)
    &&& parts_disjoint(o)
    &&& forall|k: u64| #[trigger] o.contains_key(k) ==> of_items(o[k].of).contains(k)
}

/// Sorts a part's ids.
fn sort_part_of(node: &mut Node)
    ensures
        final(node).id == old(node).id,
        final(node).from == old(node).from,
        final(node).to == old(node).to,
        of_items(final(node).of).to_multiset() == of_items(old(node).of).to_multiset(),
        forall|i: int, j: int|
            0 <= i < j < of_items(final(node).of).len() ==> #[trigger] of_items(final(node).of)[i]
                <= #[trigger] of_items(final(node).of)[j],
{
    node.of.sort_unstable();
}

/// `p` is a walk along edges: each id after the first is in the `to` set
/// of the one before it.
pub open spec fn is_forward_walk(nodes: Map<u64, Node>, p: Seq<u64>) -> bool {
    &&& p.len() > 0
    &&& forall|i: int| 0 < i < p.len() ==> #[trigger] walk_step(nodes, p, i)
}

/// The id at place `i` of `p` is in the `to` set of the id before it.
pub open spec fn walk_step(nodes: Map<u64, Node>, p: Seq<u64>, i: int) -> bool {
    nodes.contains_key(p[i - 1]) && nodes[p[i - 1]].to@.contains(p[i])
}

/// There is a walk along edges from `x` to `y`.
pub open spec fn leads_to(nodes: Map<u64, Node>, x: u64, y: u64) -> bool {
    exists|p: Seq<u64>| #[trigger] is_forward_walk(nodes, p) && p[0] == x && p.last() == y
}

/// Every id that a part holds can be reached from the part's key.
pub open spec fn parts_reached(nodes: Map<u64, Node>, parts: Map<u64, Node>) -> bool {
    forall|k: u64, x: u64|
        #![trigger parts[k], of_items(parts[k].of).contains(x)]
        parts.contains_key(k) && of_items(parts[k].of).contains(x) ==> leads_to(nodes, k, x)
}

pub(crate) proof fn lemma_leads_to_self(nodes: Map<u64, Node>, x: u64)
    ensures
        leads_to(nodes, x, x),
{
    assert(is_forward_walk(nodes, seq![x]));
}

/// An edge from `v` to `w` followed by a walk from `w` is a walk from `v`.
pub(crate) proof fn lemma_leads_to_step(nodes: Map<u64, Node>, v: u64, w: u64, y: u64)
    requires
        nodes.contains_key(v),
        nodes[v].to@.contains(w),
        leads_to(nodes, w, y),
    ensures
        leads_to(nodes, v, y),
{
    let p = choose|p: Seq<u64>| #[trigger] is_forward_walk(nodes, p) && p[0] == w && p.last() == y;
    let q = seq![v] + p;
    assert(q.len() == p.len() + 1);
    assert(q[0] == v);
    assert forall|i: int| 0 < i < q.len() implies #[trigger] walk_step(nodes, q, i) by {
        if i > 1 {
            assert(q[i] == p[i - 1]);
            assert(q[i - 1] == p[(i - 1) - 1]);
            assert(walk_step(nodes, p, i - 1));
        } else {
            assert(q[1] == p[0]);
        }
    }
    assert(is_forward_walk(nodes, q));
    assert(q.last() == y);
}

/// No edge leaves the ids `c`.
pub open spec fn closed_ids(nodes: Map<u64, Node>, c: Set<u64>) -> bool {
    forall|x: u64, z: u64| #![trigger c.contains(x), nodes[x].to@.contains(z)]
        c.contains(x) && nodes[x].to@.contains(z) ==> c.contains(z)
}

/// Nothing outside a part that its ids lead to leads back into it.
pub open spec fn parts_sealed(nodes: Map<u64, Node>, parts: Map<u64, Node>) -> bool {
    forall|k: u64, x: u64, y: u64|
        #![trigger parts[k], of_items(parts[k].of).contains(x), leads_to(nodes, x, y)]
        parts.contains_key(k) && of_items(parts[k].of).contains(x) && leads_to(nodes, x, y) && !of_items(
            parts[k].of,
        ).contains(y) ==> !leads_to(nodes, y, x)
}

/// A walk that starts in `m` and whose every edge out of `m` goes into
/// `m` or into the closed ids `c` stays in `m` or `c` up to place `i`.
#[verifier::spinoff_prover]
proof fn lemma_walk_stays_at(nodes: Map<u64, Node>, m: Set<u64>, c: Set<u64>, p: Seq<u64>, i: int)
    requires
        is_forward_walk(nodes, p),
        m.contains(p[0]) || c.contains(p[0]),
        closed_ids(nodes, c),
        forall|x: u64, z: u64| #![trigger m.contains(x), nodes[x].to@.contains(z)]
            m.contains(x) && nodes[x].to@.contains(z) ==> m.contains(z) || c.contains(z),
        0 <= i < p.len(),
    ensures
        m.contains(p[i]) || c.contains(p[i]),
    decreases i,
{
    if i > 0 {
        lemma_walk_stays_at(nodes, m, c, p, i - 1);
        assert(walk_step(nodes, p, i));
        if m.contains(p[i - 1]) {
        } else {
            assert(c.contains(p[i - 1]));
        }
    }
}

/// The same, for the walk's end.
proof fn lemma_walk_stays(nodes: Map<u64, Node>, m: Set<u64>, c: Set<u64>, p: Seq<u64>)
    requires
        is_forward_walk(nodes, p),
        m.contains(p[0]) || c.contains(p[0]),
        closed_ids(nodes, c),
        forall|x: u64, z: u64| #![trigger m.contains(x), nodes[x].to@.contains(z)]
            m.contains(x) && nodes[x].to@.contains(z) ==> m.contains(z) || c.contains(z),
    ensures
        m.contains(p.last()) || c.contains(p.last()),
{
    lemma_walk_stays_at(nodes, m, c, p, p.len() - 1);
}

/// What closed ids lead to stays inside them.
pub(crate) proof fn lemma_closed_reach(nodes: Map<u64, Node>, c: Set<u64>, x: u64, y: u64)
    requires
        closed_ids(nodes, c),
        c.contains(x),
        leads_to(nodes, x, y),
    ensures
        c.contains(y),
{
    let p = choose|p: Seq<u64>| #[trigger] is_forward_walk(nodes, p) && p[0] == x && p.last() == y;
    lemma_walk_stays(nodes, Set::empty(), c, p);
}

/// A part whose ids' edges all lead into it or into closed ids outside it
/// is sealed: nothing it leads to outside leads back.
proof fn lemma_part_sealed(nodes: Map<u64, Node>, m: Set<u64>, c: Set<u64>, x: u64, y: u64)
    requires
        closed_ids(nodes, c),
        m.disjoint(c),
        m.contains(x),
        forall|a: u64, z: u64| #![trigger m.contains(a), nodes[a].to@.contains(z)]
            m.contains(a) && nodes[a].to@.contains(z) ==> m.contains(z) || c.contains(z),
        leads_to(nodes, x, y),
        !m.contains(y),
    ensures
        !leads_to(nodes, y, x),
{
    let p = choose|p: Seq<u64>| #[trigger] is_forward_walk(nodes, p) && p[0] == x && p.last() == y;
    lemma_walk_stays(nodes, m, c, p);
    assert(c.contains(y));
    if leads_to(nodes, y, x) {
        lemma_closed_reach(nodes, c, y, x);
        assert(c.contains(x));
    }
}

/// A walk that starts at `p[0]` and ends where a walk to `z` begins leads
/// from `p[0]` to `z`.
proof fn lemma_walk_then(nodes: Map<u64, Node>, p: Seq<u64>, z: u64)
    requires
        is_forward_walk(nodes, p),
        leads_to(nodes, p.last(), z),
    ensures
        leads_to(nodes, p[0], z),
    decreases p.len(),
{
    if p.len() > 1 {
        let q = p.subrange(1, p.len() as int);
        lemma_walk_tail(nodes, p);
        assert(q.last() == p.last());
        lemma_walk_then(nodes, q, z);
        assert(q[0] == p[1]);
        assert(walk_step(nodes, p, 1));
        lemma_leads_to_step(nodes, p[0], p[1], z);
    }
}

/// Dropping the first id of a walk of two or more ids leaves a walk.
#[verifier::spinoff_prover]
proof fn lemma_walk_tail(nodes: Map<u64, Node>, p: Seq<u64>)
    requires
        is_forward_walk(nodes, p),
        p.len() > 1,
    ensures
        is_forward_walk(nodes, p.subrange(1, p.len() as int)),
{
    let q = p.subrange(1, p.len() as int);
    assert forall|i: int| 0 < i < q.len() implies #[trigger] walk_step(nodes, q, i) by {
        assert(q[i] == p[i + 1]);
        assert(q[i - 1] == p[(i + 1) - 1]);
        assert(walk_step(nodes, p, i + 1));
    }
    assert(q.len() == p.len() - 1);
    assert(is_forward_walk(nodes, q));
}

/// Reachability is transitive.
pub(crate) proof fn lemma_leads_to_trans(nodes: Map<u64, Node>, x: u64, y: u64, z: u64)
    requires
        leads_to(nodes, x, y),
        leads_to(nodes, y, z),
    ensures
        leads_to(nodes, x, z),
{
    let p = choose|p: Seq<u64>| #[trigger] is_forward_walk(nodes, p) && p[0] == x && p.last() == y;
    lemma_walk_then(nodes, p, z);
}

/// Every edge out of `u` goes to a visited node, and each such node still on
/// the stack has an index no lower than `u`'s lowest reachable index.
spec fn edges_done(nodes: Map<u64, Node>, m: Map<u64, Translation>, u: u64) -> bool {
    forall|z: u64| #[trigger]
        nodes[u].to@.contains(z) ==> m.contains_key(z) && (m[z].on_stack ==> m[z].index >= m[u].lowest_index_child)
}

/// From `m0` to `m1` no node is forgotten, no index changes and no node
/// goes back onto the stack.
spec fn stable(m0: Map<u64, Translation>, m1: Map<u64, Translation>) -> bool {
    &&& m0.dom().subset_of(m1.dom())
    &&& forall|z: u64| #![trigger m0.contains_key(z)] #![trigger m1[z]]
        m0.contains_key(z) ==> m1[z].index == m0[z].index && (m1[z].on_stack ==> m0[z].on_stack)
}

/// The nodes above place `pos` of the stack were left there by finished
/// calls: their edges are all done, their lowest reachable index lies below
/// their own, and no node from `pos` up reaches lower than the node at `pos`.
spec fn frame_ok(nodes: Map<u64, Node>, st: State, pos: int) -> bool {
    let s = st.stack@;
    let m = st.search_metadata@;
    &&& forall|i: int| pos <= i < s.len() ==> m[#[trigger] s[i]].lowest_index_child >= m[s[pos]].lowest_index_child
    &&& forall|i: int|
        pos < i < s.len() ==> m[#[trigger] s[i]].lowest_index_child < m[s[i]].index && edges_done(nodes, m, s[i])
}

/// The node at place `j` of the stack, no higher than place `i`, carries the
/// lowest reachable index of the node at `i`, and is reached from it.
spec fn low_witness(nodes: Map<u64, Node>, s: Seq<u64>, m: Map<u64, Translation>, i: int, j: int) -> bool {
    0 <= j <= i && m[s[j]].index == m[s[i]].lowest_index_child && leads_to(nodes, s[i], s[j])
}

spec fn has_low_witness(nodes: Map<u64, Node>, s: Seq<u64>, m: Map<u64, Translation>, i: int) -> bool {
    exists|j: int| #[trigger] low_witness(nodes, s, m, i, j)
}

/// Every node on the stack reaches the node, at or below it, whose index is
/// its lowest reachable index.
spec fn stack_reaches(nodes: Map<u64, Node>, st: State) -> bool {
    forall|i: int| 0 <= i < st.stack@.len() ==> #[trigger] has_low_witness(nodes, st.stack@, st.search_metadata@, i)
}

/// Each id of a part reaches the part's key.
pub open spec fn parts_back(nodes: Map<u64, Node>, parts: Map<u64, Node>) -> bool {
    forall|k: u64, x: u64|
        #![trigger parts[k], of_items(parts[k].of).contains(x)]
        parts.contains_key(k) && of_items(parts[k].of).contains(x) ==> leads_to(nodes, x, k)
}

/// Every edge out of the ids `m` goes into `m` or into `c`.
spec fn edges_into(nodes: Map<u64, Node>, m: Set<u64>, c: Set<u64>) -> bool {
    forall|x: u64, z: u64| #![trigger m.contains(x), nodes[x].to@.contains(z)]
        m.contains(x) && nodes[x].to@.contains(z) ==> m.contains(z) || c.contains(z)
}

/// The parts are exactly the strongly connected components: the ids of a
/// part and its key reach each other, and an id that reaches an id of a
/// part and is reached back from it belongs to that part.
pub open spec fn scc_parts(nodes: Map<u64, Node>, parts: Map<u64, Node>) -> bool {
    &&& forall|k: u64, x: u64|
        #![trigger parts[k], of_items(parts[k].of).contains(x)]
        parts.contains_key(k) && of_items(parts[k].of).contains(x) ==> leads_to(nodes, k, x) && leads_to(nodes, x, k)
    &&& forall|k: u64, x: u64, y: u64|
        #![trigger parts[k], of_items(parts[k].of).contains(x), of_items(parts[k].of).contains(y)]
        parts.contains_key(k) && of_items(parts[k].of).contains(x) && leads_to(nodes, x, y) && leads_to(nodes, y, x)
            ==> of_items(parts[k].of).contains(y)
}

proof fn lemma_edges_done_mono(nodes: Map<u64, Node>, m0: Map<u64, Translation>, m1: Map<u64, Translation>, u: u64)
    requires
        edges_done(nodes, m0, u),
        stable(m0, m1),
        m1[u].lowest_index_child <= m0[u].lowest_index_child,
    ensures
        edges_done(nodes, m1, u),
{
    assert forall|z: u64| #[trigger] nodes[u].to@.contains(z) implies m1.contains_key(z) && (m1[z].on_stack
        ==> m1[z].index >= m1[u].lowest_index_child) by {
        assert(m0.contains_key(z));
    }
}

/// At a root whose lowest reachable index is its own, every node from the
/// root's place up reaches the root.
proof fn lemma_members_reach(g: Graph, st: State, pos: int, i: int)
    requires
        inv(g, st),
        stack_reaches(g.nodes@, st),
        frame_ok(g.nodes@, st, pos),
        0 <= pos <= i < st.stack@.len(),
        st.search_metadata@[st.stack@[pos]].lowest_index_child == st.search_metadata@[st.stack@[pos]].index,
    ensures
        leads_to(g.nodes@, st.stack@[i], st.stack@[pos]),
    decreases i,
{
    let s = st.stack@;
    let m = st.search_metadata@;
    if i == pos {
        lemma_leads_to_self(g.nodes@, s[pos]);
    } else {
        assert(has_low_witness(g.nodes@, s, m, i));
        let j = choose|j: int| #[trigger] low_witness(g.nodes@, s, m, i, j);
        assert(m[s[i]].lowest_index_child < m[s[i]].index);
        assert(m[s[i]].lowest_index_child >= m[s[pos]].lowest_index_child);
        assert(j >= pos) by {
            if j < pos {
                assert(m[s[j]].index < m[s[pos]].index);
            }
        }
        lemma_members_reach(g, st, pos, j);
        lemma_leads_to_trans(g.nodes@, s[i], s[j], s[pos]);
    }
}

/// At such a root, every edge out of the nodes from the root's place up
/// goes to one of them or to a finished part.
proof fn lemma_root_edges(g: Graph, st: State, pos: int)
    requires
        inv(g, st),
        frame_ok(g.nodes@, st, pos),
        0 <= pos < st.stack@.len(),
        edges_done(g.nodes@, st.search_metadata@, st.stack@[pos]),
        st.search_metadata@[st.stack@[pos]].lowest_index_child == st.search_metadata@[st.stack@[pos]].index,
    ensures
        edges_into(g.nodes@, st.stack@.subrange(pos, st.stack@.len() as int).to_set(), covered(st.out@)),
{
    let s = st.stack@;
    let m = st.search_metadata@;
    let seg = s.subrange(pos, s.len() as int);
    let ms = seg.to_set();
    assert forall|x: u64, z: u64| #![trigger ms.contains(x), g.nodes@[x].to@.contains(z)]
        ms.contains(x) && g.nodes@[x].to@.contains(z) implies ms.contains(z) || covered(st.out@).contains(z) by {
        let a = choose|a: int| 0 <= a < seg.len() && seg[a] == x;
        let i = pos + a;
        assert(s[i] == x);
        if i > pos {
            assert(edges_done(g.nodes@, m, s[i]));
        }
        assert(m.contains_key(z));
        if !covered(st.out@).contains(z) {
            assert(s.contains(z));
            let p = choose|p: int| 0 <= p < s.len() && s[p] == z;
            assert(m[s[p]].on_stack);
            assert(m[s[i]].lowest_index_child >= m[s[pos]].lowest_index_child);
            assert(p >= pos) by {
                if p < pos {
                    assert(m[s[p]].index < m[s[pos]].index);
                }
            }
            assert(seg[p - pos] == z);
        }
    }
}

/// Recording a part whose ids' edges lead only into it or into finished
/// parts keeps the finished ids closed and every part sealed.
proof fn lemma_after_pop(nodes: Map<u64, Node>, o0: Map<u64, Node>, o1: Map<u64, Node>, v: u64, ms: Set<u64>)
    requires
        closed_ids(nodes, covered(o0)),
        parts_sealed(nodes, o0),
        !o0.contains_key(v),
        o1 == o0.insert(v, o1[v]),
        forall|x: u64| #[trigger] of_items(o1[v].of).contains(x) <==> ms.contains(x),
        ms.disjoint(covered(o0)),
        edges_into(nodes, ms, covered(o0)),
    ensures
        closed_ids(nodes, covered(o1)),
        parts_sealed(nodes, o1),
{
    let c0 = covered(o0);
    assert forall|x: u64| #[trigger] covered(o1).contains(x) <==> (c0.contains(x) || ms.contains(x)) by {
        if covered(o1).contains(x) {
            let k = choose|k: u64| o1.contains_key(k) && #[trigger] of_items(o1[k].of).contains(x);
            if k != v {
                assert(o0.contains_key(k) && of_items(o0[k].of).contains(x));
            }
        }
        if c0.contains(x) {
            let k = choose|k: u64| o0.contains_key(k) && #[trigger] of_items(o0[k].of).contains(x);
            assert(k != v);
            assert(o1.contains_key(k) && of_items(o1[k].of).contains(x));
        }
        if ms.contains(x) {
            assert(o1.contains_key(v) && of_items(o1[v].of).contains(x));
        }
    }
    assert forall|x: u64, z: u64| #![trigger covered(o1).contains(x), nodes[x].to@.contains(z)]
        covered(o1).contains(x) && nodes[x].to@.contains(z) implies covered(o1).contains(z) by {
        if c0.contains(x) {
            assert(c0.contains(z));
        } else {
            assert(ms.contains(x));
            assert(ms.contains(z) || c0.contains(z));
        }
    }
    assert forall|k: u64, x: u64, y: u64|
        #![trigger o1[k], of_items(o1[k].of).contains(x), leads_to(nodes, x, y)]
        o1.contains_key(k) && of_items(o1[k].of).contains(x) && leads_to(nodes, x, y) && !of_items(
            o1[k].of,
        ).contains(y) implies !leads_to(nodes, y, x) by {
        if k == v {
            assert(ms.contains(x));
            assert(!ms.contains(y));
            lemma_part_sealed(nodes, ms, c0, x, y);
        } else {
            assert(o0.contains_key(k) && o0[k] == o1[k]);
        }
    }
}

/// The first `j` edges of `v` listed in `tos` are done.
spec fn edges_done_upto(m: Map<u64, Translation>, v: u64, tos: Seq<u64>, j: int) -> bool {
    forall|a: int|
        0 <= a < j ==> m.contains_key(#[trigger] tos[a]) && (m[tos[a]].on_stack ==> m[tos[a]].index
            >= m[v].lowest_index_child)
}

/// A child call keeps every known node's index and puts none of them back
/// on the stack.
proof fn lemma_child_stable(g: Graph, sb: State, sc: State, w: u64)
    requires
        inv(g, sb),
        inv(g, sc),
        connect_frame(sb, sc, w),
        !sb.search_metadata@.contains_key(w),
    ensures
        stable(sb.search_metadata@, sc.search_metadata@),
        forall|i: int| 0 <= i < sb.stack@.len() ==> #[trigger] sc.stack@[i] == sb.stack@[i],
{
    let mb = sb.search_metadata@;
    let mc = sc.search_metadata@;
    let n = sb.stack@.len() as int;
    assert forall|i: int| 0 <= i < n implies #[trigger] sc.stack@[i] == sb.stack@[i] by {
        assert(sc.stack@.subrange(0, n)[i] == sc.stack@[i]);
    }
    assert forall|z: u64| mb.contains_key(z) implies mc[z].index == mb[z].index && (mc[z].on_stack ==> mb[z].on_stack) by {
        if mc[z].on_stack {
            assert(mc.contains_key(z));
            assert(sc.stack@.contains(z));
            let p = choose|p: int| 0 <= p < sc.stack@.len() && sc.stack@[p] == z;
            if p < n {
                assert(sb.stack@[p] == z);
                assert(mc[sb.stack@[p]] == mb[sb.stack@[p]]);
            } else {
                assert(mc[w].on_stack);
                assert(sc.stack@[n] == w);
                assert(p != n);
                assert(mc[sc.stack@[n]].index < mc[sc.stack@[p]].index);
                assert(mb[z].index < sb.index);
            }
        }
    }
}

/// After a child call and the lowering of `v`'s reachable index to the
/// child's, the frame of `v` and its done edges still hold.
#[verifier::spinoff_prover]
proof fn lemma_frame_after_child(
    g: Graph,
    sb: State,
    sc: State,
    sd: State,
    v: u64,
    w: u64,
    pos: int,
    tos: Seq<u64>,
    j: int,
)
    requires
        inv(g, sb),
        inv(g, sc),
        connect_frame(sb, sc, w),
        !sb.search_metadata@.contains_key(w),
        stable(sb.search_metadata@, sc.search_metadata@),
        forall|i: int| 0 <= i < sb.stack@.len() ==> #[trigger] sc.stack@[i] == sb.stack@[i],
        0 <= pos < sb.stack@.len(),
        sb.stack@[pos] == v,
        frame_ok(g.nodes@, sb, pos),
        0 <= j < tos.len(),
        tos[j] == w,
        edges_done_upto(sb.search_metadata@, v, tos, j),
        sc.search_metadata@[w].on_stack ==> frame_ok(g.nodes@, sc, sb.stack@.len() as int) && edges_done(
            g.nodes@,
            sc.search_metadata@,
            w,
        ),
        sd.stack@ == sc.stack@,
        sd.search_metadata@.dom() == sc.search_metadata@.dom(),
        forall|x: u64| #[trigger]
            sc.search_metadata@.contains_key(x) && x != v ==> sd.search_metadata@[x] == sc.search_metadata@[x],
        sd.search_metadata@[v].index == sc.search_metadata@[v].index,
        sd.search_metadata@[v].on_stack == sc.search_metadata@[v].on_stack,
        sd.search_metadata@[v].lowest_index_child <= sc.search_metadata@[v].lowest_index_child,
        sc.search_metadata@[w].on_stack ==> sd.search_metadata@[v].lowest_index_child
            <= sc.search_metadata@[w].lowest_index_child,
    ensures
        frame_ok(g.nodes@, sd, pos),
        stable(sc.search_metadata@, sd.search_metadata@),
        edges_done_upto(sd.search_metadata@, v, tos, j + 1),
{
    let mb = sb.search_metadata@;
    let mc = sc.search_metadata@;
    let md = sd.search_metadata@;
    let s = sd.stack@;
    let n = sb.stack@.len() as int;
    assert(mc[v] == mb[v]) by {
        assert(mc[sb.stack@[pos]] == mb[sb.stack@[pos]]);
    }
    assert(s[pos] == v);
    assert(stable(mc, md)) by {
        assert forall|z: u64| mc.contains_key(z) implies md[z].index == mc[z].index && (md[z].on_stack
            ==> mc[z].on_stack) by {
            if z != v {
                assert(md[z] == mc[z]);
            }
        }
    }
    assert(stable(mb, md)) by {
        assert forall|z: u64| mb.contains_key(z) implies md[z].index == mb[z].index && (md[z].on_stack
            ==> mb[z].on_stack) by {
            assert(mc.contains_key(z));
            assert(md[z].index == mc[z].index);
        }
    }
    assert forall|i: int| pos <= i < s.len() implies md[#[trigger] s[i]].lowest_index_child
        >= md[s[pos]].lowest_index_child by {
        if i != pos {
            assert(s[i] != v) by {
                assert(s[i] != s[pos]);
            }
            assert(mc.contains_key(s[i]));
            assert(md[s[i]] == mc[s[i]]);
            if i < n {
                assert(s[i] == sb.stack@[i]);
                assert(mc[sb.stack@[i]] == mb[sb.stack@[i]]);
                assert(mb[sb.stack@[i]].lowest_index_child >= mb[sb.stack@[pos]].lowest_index_child);
            } else {
                assert(mc[w].on_stack);
                assert(sc.stack@[n] == w);
                assert(mc[sc.stack@[i]].lowest_index_child >= mc[sc.stack@[n]].lowest_index_child);
            }
        }
    }
    assert forall|i: int| pos < i < s.len() implies md[#[trigger] s[i]].lowest_index_child < md[s[i]].index
        && edges_done(g.nodes@, md, s[i]) by {
        assert(s[i] != v) by {
            assert(s[i] != s[pos]);
        }
        assert(mc.contains_key(s[i]));
        assert(md[s[i]] == mc[s[i]]);
        if i < n {
            assert(s[i] == sb.stack@[i]);
            assert(mc[sb.stack@[i]] == mb[sb.stack@[i]]);
            assert(edges_done(g.nodes@, mb, sb.stack@[i]));
            lemma_edges_done_mono(g.nodes@, mb, md, s[i]);
        } else if i == n {
            assert(mc[w].on_stack);
            assert(sc.stack@[n] == w);
            lemma_edges_done_mono(g.nodes@, mc, md, w);
        } else {
            assert(mc[w].on_stack);
            assert(sc.stack@[n] == w);
            assert(edges_done(g.nodes@, mc, sc.stack@[i]));
            lemma_edges_done_mono(g.nodes@, mc, md, s[i]);
        }
    }
    assert forall|a: int| 0 <= a < j + 1 implies md.contains_key(#[trigger] tos[a]) && (md[tos[a]].on_stack
        ==> md[tos[a]].index >= md[v].lowest_index_child) by {
        if a < j {
            assert(mb.contains_key(tos[a]));
        } else {
            assert(mc.contains_key(w));
            if md[w].on_stack {
                assert(w != v);
                assert(md[w] == mc[w]);
                assert(sc.stack@.contains(w));
                let p = choose|p: int| 0 <= p < sc.stack@.len() && sc.stack@[p] == w;
                assert(mc[sc.stack@[p]].lowest_index_child <= mc[sc.stack@[p]].index);
            }
        }
    }
}

/// Lowering `v`'s reachable index to the index of a node it has an edge to
/// keeps the frame of `v` and its done edges.
proof fn lemma_frame_after_back(g: Graph, sc: State, sd: State, v: u64, w: u64, pos: int, tos: Seq<u64>, j: int)
    requires
        inv(g, sc),
        0 <= pos < sc.stack@.len(),
        sc.stack@[pos] == v,
        frame_ok(g.nodes@, sc, pos),
        0 <= j < tos.len(),
        tos[j] == w,
        sc.search_metadata@.contains_key(w),
        edges_done_upto(sc.search_metadata@, v, tos, j),
        sd.stack@ == sc.stack@,
        sd.search_metadata@.dom() == sc.search_metadata@.dom(),
        forall|x: u64| #[trigger]
            sc.search_metadata@.contains_key(x) && x != v ==> sd.search_metadata@[x] == sc.search_metadata@[x],
        sd.search_metadata@[v].index == sc.search_metadata@[v].index,
        sd.search_metadata@[v].on_stack == sc.search_metadata@[v].on_stack,
        sd.search_metadata@[v].lowest_index_child <= sc.search_metadata@[v].lowest_index_child,
        sd.search_metadata@[v].lowest_index_child <= sc.search_metadata@[w].index,
    ensures
        frame_ok(g.nodes@, sd, pos),
        edges_done_upto(sd.search_metadata@, v, tos, j + 1),
{
    let mc = sc.search_metadata@;
    let md = sd.search_metadata@;
    let s = sd.stack@;
    assert(stable(mc, md)) by {
        assert forall|z: u64| mc.contains_key(z) implies md[z].index == mc[z].index && (md[z].on_stack
            ==> mc[z].on_stack) by {
            if z != v {
                assert(md[z] == mc[z]);
            }
        }
    }
    assert forall|i: int| pos <= i < s.len() implies md[#[trigger] s[i]].lowest_index_child
        >= md[s[pos]].lowest_index_child by {
        if i != pos {
            assert(s[i] != s[pos]);
            assert(mc.contains_key(s[i]));
        }
    }
    assert forall|i: int| pos < i < s.len() implies md[#[trigger] s[i]].lowest_index_child < md[s[i]].index
        && edges_done(g.nodes@, md, s[i]) by {
        assert(s[i] != s[pos]);
        assert(mc.contains_key(s[i]));
        assert(md[s[i]] == mc[s[i]]);
        lemma_edges_done_mono(g.nodes@, mc, md, s[i]);
    }
    assert forall|a: int| 0 <= a < j + 1 implies md.contains_key(#[trigger] tos[a]) && (md[tos[a]].on_stack
        ==> md[tos[a]].index >= md[v].lowest_index_child) by {
        if a < j {
            assert(mc.contains_key(tos[a]));
        }
    }
}

/// Pushing a newly visited node keeps every stacked node's witness.
proof fn lemma_reaches_push(g: Graph, st0: State, st1: State, v: u64)
    requires
        inv(g, st0),
        stack_reaches(g.nodes@, st0),
        !st0.search_metadata@.contains_key(v),
        st1.search_metadata@ == st0.search_metadata@.insert(
            v,
            Translation { index: st0.index, lowest_index_child: st0.index, on_stack: true },
        ),
        st1.stack@ == st0.stack@.push(v),
    ensures
        stack_reaches(g.nodes@, st1),
{
    let s0 = st0.stack@;
    let m0 = st0.search_metadata@;
    let s = st1.stack@;
    let m = st1.search_metadata@;
    assert forall|i: int| 0 <= i < s.len() implies #[trigger] has_low_witness(g.nodes@, s, m, i) by {
        if i < s0.len() {
            assert(has_low_witness(g.nodes@, s0, m0, i));
            let jj = choose|jj: int| #[trigger] low_witness(g.nodes@, s0, m0, i, jj);
            assert(s[i] == s0[i] && s[jj] == s0[jj]);
            assert(m0.contains_key(s0[i]) && m0.contains_key(s0[jj]));
            assert(low_witness(g.nodes@, s, m, i, jj));
        } else {
            lemma_leads_to_self(g.nodes@, v);
            assert(low_witness(g.nodes@, s, m, i, i));
        }
    }
}

/// Keeping a prefix of the stack, with every index and reachable index,
/// keeps every remaining node's witness.
proof fn lemma_reaches_prefix(g: Graph, st0: State, st1: State, n: int)
    requires
        inv(g, st0),
        stack_reaches(g.nodes@, st0),
        0 <= n <= st0.stack@.len(),
        st1.stack@ == st0.stack@.subrange(0, n),
        forall|x: u64| #[trigger]
            st0.search_metadata@.contains_key(x) ==> st1.search_metadata@[x].index == st0.search_metadata@[x].index
                && st1.search_metadata@[x].lowest_index_child == st0.search_metadata@[x].lowest_index_child,
    ensures
        stack_reaches(g.nodes@, st1),
{
    let s0 = st0.stack@;
    let m0 = st0.search_metadata@;
    let s = st1.stack@;
    let m = st1.search_metadata@;
    assert forall|i: int| 0 <= i < s.len() implies #[trigger] has_low_witness(g.nodes@, s, m, i) by {
        assert(has_low_witness(g.nodes@, s0, m0, i));
        let jj = choose|jj: int| #[trigger] low_witness(g.nodes@, s0, m0, i, jj);
        assert(s[i] == s0[i] && s[jj] == s0[jj]);
        assert(m0.contains_key(s0[i]) && m0.contains_key(s0[jj]));
        assert(low_witness(g.nodes@, s, m, i, jj));
    }
}

/// Lowering `v`'s reachable index, either not at all or to the index of a
/// stacked node below it that `v` reaches, keeps every witness.
proof fn lemma_reaches_lower(g: Graph, sc: State, sd: State, v: u64, pos: int, jw: int)
    requires
        inv(g, sc),
        stack_reaches(g.nodes@, sc),
        0 <= pos < sc.stack@.len(),
        sc.stack@[pos] == v,
        sd.stack@ == sc.stack@,
        sd.search_metadata@.dom() == sc.search_metadata@.dom(),
        forall|x: u64| #[trigger]
            sc.search_metadata@.contains_key(x) && x != v ==> sd.search_metadata@[x] == sc.search_metadata@[x],
        sd.search_metadata@[v].index == sc.search_metadata@[v].index,
        sd.search_metadata@[v].lowest_index_child == sc.search_metadata@[v].lowest_index_child || low_witness(
            g.nodes@,
            sd.stack@,
            sd.search_metadata@,
            pos,
            jw,
        ),
    ensures
        stack_reaches(g.nodes@, sd),
{
    let s = sd.stack@;
    let mc = sc.search_metadata@;
    let md = sd.search_metadata@;
    assert forall|i: int| 0 <= i < s.len() implies #[trigger] has_low_witness(g.nodes@, s, md, i) by {
        if i == pos && md[v].lowest_index_child != mc[v].lowest_index_child {
            assert(low_witness(g.nodes@, s, md, i, jw));
        } else {
            assert(has_low_witness(g.nodes@, s, mc, i));
            let jj = choose|jj: int| #[trigger] low_witness(g.nodes@, s, mc, i, jj);
            assert(mc.contains_key(s[i]) && mc.contains_key(s[jj]));
            if s[i] != v {
                assert(md[s[i]] == mc[s[i]]);
            } else {
                assert(i == pos) by {
                    if i != pos {
                        assert(s[i] != s[pos]);
                    }
                }
            }
            if s[jj] != v {
                assert(md[s[jj]] == mc[s[jj]]);
            }
            assert(low_witness(g.nodes@, s, md, i, jj));
        }
    }
}

/// After a child call, lowering `v`'s reachable index to the child's keeps
/// every stacked node's witness.
proof fn lemma_reaches_after_child(g: Graph, sb: State, sc: State, sd: State, v: u64, w: u64, pos: int)
    requires
        inv(g, sc),
        stack_reaches(g.nodes@, sc),
        connect_frame(sb, sc, w),
        0 <= pos < sb.stack@.len(),
        sb.stack@[pos] == v,
        forall|i: int| 0 <= i < sb.stack@.len() ==> #[trigger] sc.stack@[i] == sb.stack@[i],
        g.nodes@.contains_key(v),
        g.nodes@[v].to@.contains(w),
        sb.search_metadata@.contains_key(v),
        sb.search_metadata@[v].index < sb.index,
        sd.stack@ == sc.stack@,
        sd.search_metadata@.dom() == sc.search_metadata@.dom(),
        forall|x: u64| #[trigger]
            sc.search_metadata@.contains_key(x) && x != v ==> sd.search_metadata@[x] == sc.search_metadata@[x],
        sd.search_metadata@[v].index == sc.search_metadata@[v].index,
        sd.search_metadata@[v].lowest_index_child == sc.search_metadata@[v].lowest_index_child
            || sd.search_metadata@[v].lowest_index_child == sc.search_metadata@[w].lowest_index_child,
        sd.search_metadata@[v].lowest_index_child <= sc.search_metadata@[v].lowest_index_child,
    ensures
        stack_reaches(g.nodes@, sd),
{
    let mc = sc.search_metadata@;
    let md = sd.search_metadata@;
    let s = sc.stack@;
    let n = sb.stack@.len() as int;
    assert(s[pos] == v);
    if md[v].lowest_index_child != mc[v].lowest_index_child {
        assert(mc.contains_key(v));
        assert(mc[v].lowest_index_child <= mc[v].index);
        assert(mc[w].on_stack) by {
            if !mc[w].on_stack {
                assert(mc[w].lowest_index_child == mc[w].index);
                assert(mc[v].index == sb.search_metadata@[v].index);
            }
        }
        assert(s[n] == w);
        assert(has_low_witness(g.nodes@, s, mc, n));
        let jj = choose|jj: int| #[trigger] low_witness(g.nodes@, s, mc, n, jj);
        assert(jj < pos) by {
            if jj >= pos {
                if jj > pos {
                    assert(mc[s[pos]].index < mc[s[jj]].index);
                }
            }
        }
        lemma_leads_to_step(g.nodes@, v, w, s[jj]);
        assert(mc.contains_key(s[jj]));
        if s[jj] != v {
            assert(md[s[jj]] == mc[s[jj]]);
        }
        assert(low_witness(g.nodes@, sd.stack@, md, pos, jj));
        lemma_reaches_lower(g, sc, sd, v, pos, jj);
    } else {
        lemma_reaches_lower(g, sc, sd, v, pos, 0);
    }
}

/// Lowering `v`'s reachable index to the index of a stacked node it has an
/// edge to keeps every stacked node's witness.
proof fn lemma_reaches_after_back(g: Graph, sc: State, sd: State, v: u64, w: u64, pos: int)
    requires
        inv(g, sc),
        stack_reaches(g.nodes@, sc),
        0 <= pos < sc.stack@.len(),
        sc.stack@[pos] == v,
        g.nodes@.contains_key(v),
        g.nodes@[v].to@.contains(w),
        sc.search_metadata@.contains_key(w),
        sc.search_metadata@[w].on_stack,
        sd.stack@ == sc.stack@,
        sd.search_metadata@.dom() == sc.search_metadata@.dom(),
        forall|x: u64| #[trigger]
            sc.search_metadata@.contains_key(x) && x != v ==> sd.search_metadata@[x] == sc.search_metadata@[x],
        sd.search_metadata@[v].index == sc.search_metadata@[v].index,
        sd.search_metadata@[v].lowest_index_child == sc.search_metadata@[v].lowest_index_child
            || sd.search_metadata@[v].lowest_index_child == sc.search_metadata@[w].index,
        sd.search_metadata@[v].lowest_index_child <= sc.search_metadata@[v].lowest_index_child,
    ensures
        stack_reaches(g.nodes@, sd),
{
    let mc = sc.search_metadata@;
    let md = sd.search_metadata@;
    let s = sc.stack@;
    if md[v].lowest_index_child != mc[v].lowest_index_child {
        assert(s.contains(w));
        let p = choose|p: int| 0 <= p < s.len() && s[p] == w;
        assert(mc[s[pos]].lowest_index_child <= mc[s[pos]].index);
        assert(p < pos) by {
            if p >= pos {
                if p > pos {
                    assert(mc[s[pos]].index < mc[s[p]].index);
                }
                assert(mc[s[pos]].index <= mc[s[p]].index);
            }
        }
        lemma_leads_to_self(g.nodes@, w);
        lemma_leads_to_step(g.nodes@, v, w, w);
        if w != v {
            assert(md[w] == mc[w]);
        }
        assert(low_witness(g.nodes@, sd.stack@, md, pos, p));
        lemma_reaches_lower(g, sc, sd, v, pos, p);
    } else {
        lemma_reaches_lower(g, sc, sd, v, pos, 0);
    }
}

/// Some id of `s` has an edge from `z`.
pub open spec fn from_in(nodes: Map<u64, Node>, s: Seq<u64>, z: u64) -> bool {
    exists|x: u64| #![trigger s.contains(x), nodes[x].from@.contains(z)] s.contains(x) && nodes[x].from@.contains(z)
}

/// Some id of `s` has an edge to `z`.
pub open spec fn to_in(nodes: Map<u64, Node>, s: Seq<u64>, z: u64) -> bool {
    exists|x: u64| #![trigger s.contains(x), nodes[x].to@.contains(z)] s.contains(x) && nodes[x].to@.contains(z)
}

/// A part gathers the edges of its ids, and is named by the least of them.
pub open spec fn part_fields(nodes: Map<u64, Node>, p: Node) -> bool {
    &&& forall|z: u64| #![trigger p.from@.contains(z)] p.from@.contains(z) <==> from_in(nodes, of_items(p.of), z)
    &&& forall|z: u64| #![trigger p.to@.contains(z)] p.to@.contains(z) <==> to_in(nodes, of_items(p.of), z)
    &&& of_items(p.of).contains(p.id)
    &&& forall|x: u64| #[trigger] of_items(p.of).contains(x) ==> p.id <= x
}

/// Every part gathers the edges of its ids and is named by the least.
pub open spec fn parts_fields(nodes: Map<u64, Node>, parts: Map<u64, Node>) -> bool {
    forall|k: u64| #[trigger] parts.contains_key(k) ==> part_fields(nodes, parts[k])
}

/// Adding the id `w` to a part's ids and its edges to the part's edges
/// keeps the edges gathered.
proof fn lemma_gather_step(nodes: Map<u64, Node>, s: Seq<u64>, w: u64, f0: Set<u64>, f1: Set<u64>, t0: Set<u64>, t1: Set<u64>)
    requires
        forall|z: u64| #![trigger f0.contains(z)] f0.contains(z) <==> from_in(nodes, s, z),
        forall|z: u64| #![trigger t0.contains(z)] t0.contains(z) <==> to_in(nodes, s, z),
        f1 == f0.union(nodes[w].from@),
        t1 == t0.union(nodes[w].to@),
    ensures
        forall|z: u64| #![trigger f1.contains(z)] f1.contains(z) <==> from_in(nodes, s.push(w), z),
        forall|z: u64| #![trigger t1.contains(z)] t1.contains(z) <==> to_in(nodes, s.push(w), z),
{
    let s1 = s.push(w);
    assert(s1[s.len() as int] == w);
    assert forall|x: u64| s.contains(x) implies s1.contains(x) by {
        let i = choose|i: int| 0 <= i < s.len() && s[i] == x;
        assert(s1[i] == x);
    }
    assert forall|x: u64| s1.contains(x) && x != w implies s.contains(x) by {
        let i = choose|i: int| 0 <= i < s1.len() && s1[i] == x;
        assert(s[i] == x);
    }
    assert forall|z: u64| #![trigger f1.contains(z)] f1.contains(z) <==> from_in(nodes, s1, z) by {
        if f1.contains(z) {
            if f0.contains(z) {
                let x = choose|x: u64| #![trigger s.contains(x), nodes[x].from@.contains(z)] s.contains(x) && nodes[x].from@.contains(z);
                assert(s1.contains(x));
            } else {
                assert(s1.contains(w));
            }
        }
        if from_in(nodes, s1, z) {
            let x = choose|x: u64| #![trigger s1.contains(x), nodes[x].from@.contains(z)] s1.contains(x) && nodes[x].from@.contains(z);
            if x != w {
                assert(s.contains(x));
                assert(from_in(nodes, s, z));
            }
        }
    }
    assert forall|z: u64| #![trigger t1.contains(z)] t1.contains(z) <==> to_in(nodes, s1, z) by {
        if t1.contains(z) {
            if t0.contains(z) {
                let x = choose|x: u64| #![trigger s.contains(x), nodes[x].to@.contains(z)] s.contains(x) && nodes[x].to@.contains(z);
                assert(s1.contains(x));
            } else {
                assert(s1.contains(w));
            }
        }
        if to_in(nodes, s1, z) {
            let x = choose|x: u64| #![trigger s1.contains(x), nodes[x].to@.contains(z)] s1.contains(x) && nodes[x].to@.contains(z);
            if x != w {
                assert(s.contains(x));
                assert(to_in(nodes, s, z));
            }
        }
    }
}

/// Pops the stack down to `v`, the root of a strongly connected
/// component, and records the popped nodes as one part named `v`.
fn pop_component(graph: &Graph, state: &mut State, v: u64, Ghost(pos): Ghost<int>)
    requires
        graph.wf(),
        graph.edges_closed(),
        inv(*graph, *old(state)),
        0 <= pos < old(state).stack@.len(),
        old(state).stack@[pos] == v,
    ensures
        inv(*graph, *final(state)),
        final(state).stack@ == old(state).stack@.subrange(0, pos),
        final(state).index == old(state).index,
        final(state).search_metadata@.dom() == old(state).search_metadata@.dom(),
        forall|x: u64| #[trigger]
            final(state).search_metadata@.contains_key(x) ==> final(state).search_metadata@[x].index
                == old(state).search_metadata@[x].index && final(state).search_metadata@[x].lowest_index_child
                == old(state).search_metadata@[x].lowest_index_child,
        forall|i: int| 0 <= i < pos ==> final(state).search_metadata@[#[trigger] old(state).stack@[i]]
            == old(state).search_metadata@[old(state).stack@[i]],
        !final(state).search_metadata@[v].on_stack,
        final(state).out@ == old(state).out@.insert(v, final(state).out@[v]),
        forall|x: u64| #[trigger]
            of_items(final(state).out@[v].of).contains(x) <==> old(state).stack@.subrange(
                pos,
                old(state).stack@.len() as int,
            ).contains(x),
        part_fields(graph.nodes@, final(state).out@[v]),
{
    let ghost st0 = *state;
    let ghost s0 = st0.stack@;
    let ghost m0 = st0.search_metadata@;
    let ghost o0 = st0.out@;
    let mut new_node = Node { id: v, from: SmallU64Set::new(), to: SmallU64Set::new(), of: OfList::new() };
    proof {
        assert(s0.subrange(s0.len() as int, s0.len() as int).reverse() =~= Seq::<u64>::empty());
        assert(s0.subrange(0, s0.len() as int) =~= s0);
    }
    loop
        invariant_except_break
            pos < state.stack@.len() <= s0.len(),
            state.stack@ == s0.subrange(0, state.stack@.len() as int),
            of_items(new_node.of) == s0.subrange(state.stack@.len() as int, s0.len() as int).reverse(),
        invariant
            graph.wf(),
            graph.edges_closed(),
            inv(*graph, st0),
            s0 == st0.stack@,
            m0 == st0.search_metadata@,
            o0 == st0.out@,
            0 <= pos < s0.len(),
            s0[pos] == v,
            state.index == st0.index,
            state.out@ == o0,
            state.search_metadata@.dom() == m0.dom(),
            new_node.wf(),
            new_node.to@.subset_of(graph.nodes@.dom()),
            new_node.from@.subset_of(graph.nodes@.dom()),
            forall|z: u64| #![trigger new_node.from@.contains(z)]
                new_node.from@.contains(z) <==> from_in(graph.nodes@, of_items(new_node.of), z),
            forall|z: u64| #![trigger new_node.to@.contains(z)]
                new_node.to@.contains(z) <==> to_in(graph.nodes@, of_items(new_node.of), z),
            new_node.id <= v,
            new_node.id == v || of_items(new_node.of).contains(new_node.id),
            forall|x: u64| #[trigger] of_items(new_node.of).contains(x) ==> new_node.id <= x,
            forall|x: u64| #[trigger]
                state.search_metadata@.contains_key(x) ==> state.search_metadata@[x].index == m0[x].index
                    && state.search_metadata@[x].lowest_index_child == m0[x].lowest_index_child
                    && state.search_metadata@[x].on_stack == (m0[x].on_stack && state.stack@.contains(x)),
        ensures
            state.stack@ == s0.subrange(0, pos),
            of_items(new_node.of) == s0.subrange(pos, s0.len() as int).reverse(),
        decreases state.stack@.len(),
    {
        let ghost sb = state.stack@;
        let ghost len = sb.len() as int;
        proof {
            assert(m0.contains_key(s0[len - 1]));
            assert(graph.nodes@.contains_key(s0[len - 1]));
        }
        match state.stack.pop() {
            Some(w) => {
                let mut t = *state.search_metadata.get(&w).unwrap();
                t.on_stack = false;
                state.search_metadata.insert(w, t);
                let old_node = graph.nodes.get(&w).unwrap();
                let ghost of_b = of_items(new_node.of);
                let ghost from_b = new_node.from@;
                let ghost to_b = new_node.to@;
                let ghost id_b = new_node.id;
                new_node.of.push(w);
                new_node.from.union(&old_node.from);
                new_node.to.union(&old_node.to);
                new_node.id = if new_node.id < old_node.id {
                    new_node.id
                } else {
                    old_node.id
                };
                proof {
                    lemma_gather_step(graph.nodes@, of_b, w, from_b, new_node.from@, to_b, new_node.to@);
                    assert(old_node.id == w);
                    let ofa = of_items(new_node.of);
                    assert(ofa[of_b.len() as int] == w);
                    assert forall|x: u64| #[trigger] ofa.contains(x) implies new_node.id <= x by {
                        if x != w {
                            let i = choose|i: int| 0 <= i < ofa.len() && ofa[i] == x;
                            assert(of_b[i] == x);
                            assert(of_b.contains(x));
                            assert(id_b <= x);
                        }
                    }
                    if new_node.id != v {
                        if new_node.id == w {
                        } else {
                            assert(new_node.id == id_b);
                            assert(of_b.contains(id_b));
                            let i = choose|i: int| 0 <= i < of_b.len() && of_b[i] == id_b;
                            assert(ofa[i] == id_b);
                        }
                    }
                }
                proof {
                    let sa = state.stack@;
                    assert(sa =~= s0.subrange(0, len - 1));
                    assert(of_items(new_node.of) =~= s0.subrange(len - 1, s0.len() as int).reverse()) by {
                        assert(s0.subrange(len - 1, s0.len() as int) =~= seq![w] + s0.subrange(len, s0.len() as int));
                    }
                    assert(state.search_metadata@.dom() =~= m0.dom());
                    assert forall|x: u64| #[trigger] state.search_metadata@.contains_key(x) implies state.search_metadata@[x].index
                        == m0[x].index && state.search_metadata@[x].lowest_index_child == m0[x].lowest_index_child
                        && state.search_metadata@[x].on_stack == (m0[x].on_stack && sa.contains(x)) by {
                        if x == w {
                            assert(!sa.contains(w)) by {
                                if sa.contains(w) {
                                    let i = choose|i: int| 0 <= i < sa.len() && sa[i] == w;
                                    assert(s0[i] == s0[len - 1]);
                                }
                            }
                        } else {
                            assert(sb.contains(x) <==> sa.contains(x)) by {
                                if sb.contains(x) {
                                    let i = choose|i: int| 0 <= i < sb.len() && sb[i] == x;
                                    assert(i != len - 1);
                                    assert(sa[i] == x);
                                }
                                if sa.contains(x) {
                                    let i = choose|i: int| 0 <= i < sa.len() && sa[i] == x;
                                    assert(sb[i] == x);
                                }
                            }
                        }
                    }
                    if v != w {
                        assert(len - 1 != pos);
                    }
                }
                if v == w {
                    proof {
                        assert(len - 1 == pos) by {
                            if len - 1 != pos {
                                assert(s0[len - 1] != s0[pos]);
                            }
                        }
                    }
                    break;
                }
            },
            None => {
                proof {
                    assert(false);
                }
                break;
            },
        }
    }
    let ghost popped = s0.subrange(pos, s0.len() as int);
    let ghost unsorted = of_items(new_node.of);
    proof {
        assert(unsorted.contains(v)) by {
            assert(popped[0] == v);
            assert(unsorted[popped.len() - 1] == popped[0]);
        }
    }
    sort_part_of(&mut new_node);
    proof {
        broadcast use vstd::seq_lib::to_multiset_contains;

        let sorted = of_items(new_node.of);
        assert forall|x: u64| sorted.contains(x) <==> unsorted.contains(x) by {
            if sorted.contains(x) {
                assert(sorted.to_multiset().count(x) > 0);
            }
            if unsorted.contains(x) {
                assert(unsorted.to_multiset().count(x) > 0);
            }
        }
        assert forall|z: u64| #![trigger new_node.from@.contains(z)]
            new_node.from@.contains(z) <==> from_in(graph.nodes@, sorted, z) by {
            if from_in(graph.nodes@, unsorted, z) {
                let x = choose|x: u64| #![trigger unsorted.contains(x), graph.nodes@[x].from@.contains(z)] unsorted.contains(x) && graph.nodes@[x].from@.contains(z);
                assert(sorted.contains(x));
            }
            if from_in(graph.nodes@, sorted, z) {
                let x = choose|x: u64| #![trigger sorted.contains(x), graph.nodes@[x].from@.contains(z)] sorted.contains(x) && graph.nodes@[x].from@.contains(z);
                assert(unsorted.contains(x));
            }
        }
        assert forall|z: u64| #![trigger new_node.to@.contains(z)]
            new_node.to@.contains(z) <==> to_in(graph.nodes@, sorted, z) by {
            if to_in(graph.nodes@, unsorted, z) {
                let x = choose|x: u64| #![trigger unsorted.contains(x), graph.nodes@[x].to@.contains(z)] unsorted.contains(x) && graph.nodes@[x].to@.contains(z);
                assert(sorted.contains(x));
            }
            if to_in(graph.nodes@, sorted, z) {
                let x = choose|x: u64| #![trigger sorted.contains(x), graph.nodes@[x].to@.contains(z)] sorted.contains(x) && graph.nodes@[x].to@.contains(z);
                assert(unsorted.contains(x));
            }
        }
        assert(part_fields(graph.nodes@, new_node));
    }
    let ghost st_before_insert = *state;
    state.out.insert(v, new_node);
    proof {
        lemma_pop_done(*graph, st0, st_before_insert, *state, v, pos);
        assert(state.out@ =~= o0.insert(v, state.out@[v]));
    }
}

/// The state after a component is popped and recorded is consistent.
proof fn lemma_pop_done(g: Graph, st0: State, st1: State, st2: State, v: u64, pos: int)
    requires
        g.wf(),
        inv(g, st0),
        0 <= pos < st0.stack@.len(),
        st0.stack@[pos] == v,
        st1.stack@ == st0.stack@.subrange(0, pos),
        st1.index == st0.index,
        st1.out@ == st0.out@,
        st1.search_metadata@.dom() == st0.search_metadata@.dom(),
        forall|x: u64| #[trigger]
            st1.search_metadata@.contains_key(x) ==> st1.search_metadata@[x].index == st0.search_metadata@[x].index
                && st1.search_metadata@[x].lowest_index_child == st0.search_metadata@[x].lowest_index_child
                && st1.search_metadata@[x].on_stack == (st0.search_metadata@[x].on_stack && st1.stack@.contains(x)),
        st2.stack@ == st1.stack@,
        st2.index == st1.index,
        st2.search_metadata@ == st1.search_metadata@,
        ({
            let nd = st2.out@[v];
            &&& st2.out@ == st1.out@.insert(v, nd)
            &&& nd.wf()
            &&& nd.to@.subset_of(g.nodes@.dom())
            &&& nd.from@.subset_of(g.nodes@.dom())
            &&& of_items(nd.of).to_multiset() == st0.stack@.subrange(pos, st0.stack@.len() as int).reverse().to_multiset()
            &&& forall|i: int, j: int| 0 <= i < j < of_items(nd.of).len() ==> #[trigger] of_items(nd.of)[i]
                <= #[trigger] of_items(nd.of)[j]
        }),
    ensures
        inv(g, st2),
        forall|i: int| 0 <= i < pos ==> st2.search_metadata@[#[trigger] st0.stack@[i]]
            == st0.search_metadata@[st0.stack@[i]],
        !st2.search_metadata@[v].on_stack,
        forall|x: u64| #[trigger]
            of_items(st2.out@[v].of).contains(x) <==> st0.stack@.subrange(pos, st0.stack@.len() as int).contains(x),
{
    broadcast use vstd::seq_lib::to_multiset_contains;

    let s0 = st0.stack@;
    let m0 = st0.search_metadata@;
    let o0 = st0.out@;
    let s = st2.stack@;
    let m = st2.search_metadata@;
    let o = st2.out@;
    let nd = o[v];
    let popped = s0.subrange(pos, s0.len() as int);
    let rp = popped.reverse();
    let no = of_items(nd.of);
    assert forall|x: u64| no.contains(x) <==> popped.contains(x) by {
        if no.contains(x) {
            assert(no.to_multiset().count(x) > 0);
            assert(rp.contains(x));
            let i = choose|i: int| 0 <= i < rp.len() && rp[i] == x;
            assert(popped[popped.len() - 1 - i] == x);
        }
        if popped.contains(x) {
            let i = choose|i: int| 0 <= i < popped.len() && popped[i] == x;
            assert(rp[popped.len() - 1 - i] == x);
            assert(rp.to_multiset().count(x) > 0);
        }
    }
    assert(popped[0] == v);
    assert(no.contains(v));
    assert(!covered(o0).contains(v)) by {
        assert(s0.contains(v));
    }
    assert(!o0.contains_key(v)) by {
        if o0.contains_key(v) {
            assert(of_items(o0[v].of).contains(v));
        }
    }
    assert(popped.no_duplicates()) by {
        assert forall|i: int, j: int| 0 <= i < j < popped.len() implies popped[i] != popped[j] by {
            assert(s0[pos + i] != s0[pos + j]);
        }
    }
    assert(rp.no_duplicates()) by {
        assert forall|i: int, j: int| 0 <= i < j < rp.len() implies rp[i] != rp[j] by {
            assert(popped[popped.len() - 1 - i] != popped[popped.len() - 1 - j]);
        }
    }
    assert(no.no_duplicates()) by {
        rp.lemma_multiset_has_no_duplicates();
        no.lemma_multiset_has_no_duplicates_conv();
    }
    assert forall|x: u64| s0.contains(x) <==> (s.contains(x) || popped.contains(x)) by {
        if s0.contains(x) {
            let i = choose|i: int| 0 <= i < s0.len() && s0[i] == x;
            if i < pos {
                assert(s[i] == x);
            } else {
                assert(popped[i - pos] == x);
            }
        }
        if s.contains(x) {
            let i = choose|i: int| 0 <= i < s.len() && s[i] == x;
            assert(s0[i] == x);
        }
        if popped.contains(x) {
            let i = choose|i: int| 0 <= i < popped.len() && popped[i] == x;
            assert(s0[pos + i] == x);
        }
    }
    assert forall|x: u64| !(s.contains(x) && popped.contains(x)) by {
        if s.contains(x) && popped.contains(x) {
            let i = choose|i: int| 0 <= i < s.len() && s[i] == x;
            let j = choose|j: int| 0 <= j < popped.len() && popped[j] == x;
            assert(s0[i] == s0[pos + j]);
        }
    }
    assert forall|x: u64| #[trigger] covered(o).contains(x) <==> (covered(o0).contains(x) || popped.contains(x)) by {
        if covered(o).contains(x) {
            let k = choose|k: u64| o.contains_key(k) && #[trigger] of_items(o[k].of).contains(x);
            if k != v {
                assert(o0.contains_key(k) && of_items(o0[k].of).contains(x));
            }
        }
        if covered(o0).contains(x) {
            let k = choose|k: u64| o0.contains_key(k) && #[trigger] of_items(o0[k].of).contains(x);
            assert(o.contains_key(k) && of_items(o[k].of).contains(x));
        }
        if popped.contains(x) {
            assert(o.contains_key(v) && of_items(o[v].of).contains(x));
        }
    }
    assert forall|i: int| 0 <= i < s.len() implies m.contains_key(#[trigger] s[i]) && m[s[i]].on_stack by {
        assert(s0[i] == s[i]);
        assert(s.contains(s[i]));
    }
    assert forall|x: u64| #[trigger] m.contains_key(x) && m[x].on_stack implies s.contains(x) by {}
    assert forall|i: int, j: int| 0 <= i < j < s.len() implies m[#[trigger] s[i]].index < m[#[trigger] s[j]].index by {
        assert(s0[i] == s[i] && s0[j] == s[j]);
        assert(m0[s0[i]].index < m0[s0[j]].index);
    }
    assert forall|i: int| 0 <= i < s.len() implies m[#[trigger] s[i]].lowest_index_child <= m[s[i]].index
        && m[s[i]].lowest_index_child >= m[s[0]].index by {
        assert(s0[i] == s[i] && s0[0] == s[0]);
        assert(m0[s0[i]].lowest_index_child >= m0[s0[0]].index);
    }
    assert forall|x: u64| #[trigger] m.contains_key(x) <==> (s.contains(x) || covered(o).contains(x)) by {
        assert(m0.contains_key(x) <==> (s0.contains(x) || covered(o0).contains(x)));
    }
    assert forall|x: u64| !(#[trigger] s.contains(x) && covered(o).contains(x)) by {
        if s.contains(x) {
            assert(s0.contains(x));
            assert(!covered(o0).contains(x));
        }
    }
    assert forall|k1: u64, k2: u64, x: u64|
        o.contains_key(k1) && o.contains_key(k2) && k1 != k2 && #[trigger] of_items(o[k1].of).contains(x)
        implies !#[trigger] of_items(o[k2].of).contains(x) by {
        if k1 == v {
            assert(popped.contains(x));
            assert(s0.contains(x));
            assert(covered(o0).contains(x) ==> false);
            if of_items(o[k2].of).contains(x) {
                assert(o0.contains_key(k2) && of_items(o0[k2].of).contains(x));
            }
        } else if k2 == v {
            assert(o0.contains_key(k1) && of_items(o0[k1].of).contains(x));
            assert(covered(o0).contains(x));
            if of_items(o[k2].of).contains(x) {
                assert(popped.contains(x));
                assert(s0.contains(x));
            }
        } else {
            assert(of_items(o0[k1].of).contains(x));
        }
    }
    assert forall|i: int| 0 <= i < pos implies st2.search_metadata@[#[trigger] s0[i]] == m0[s0[i]] by {
        assert(s[i] == s0[i]);
        assert(s.contains(s0[i]));
        assert(m0[s0[i]].on_stack);
    }
    assert(!s.contains(v)) by {
        if s.contains(v) {
            assert(popped.contains(v));
        }
    }
    assert(parts_ok(g.nodes@, o));
    assert(parts_sorted(o));
}

/// What a call of `strong_connect` on `v` leaves of the state it started
/// from: the stack it found stays below, the nodes it found keep their
/// entries, new nodes come after them, and `v` is either finished with its
/// component or still on the stack with a lower reachable index.
spec fn connect_frame(st0: State, st1: State, v: u64) -> bool {
    let s0 = st0.stack@;
    let s1 = st1.stack@;
    let m0 = st0.search_metadata@;
    let m1 = st1.search_metadata@;
    &&& s1.len() >= s0.len()
    &&& s1.subrange(0, s0.len() as int) == s0
    &&& m1.contains_key(v)
    &&& m0.dom().subset_of(m1.dom())
    &&& forall|x: u64| #[trigger] m0.contains_key(x) ==> m1[x].index == m0[x].index
    &&& forall|i: int| 0 <= i < s0.len() ==> m1[#[trigger] s0[i]] == m0[s0[i]]
    &&& forall|x: u64| #[trigger] m1.contains_key(x) && !m0.contains_key(x) ==> m1[x].index >= st0.index
    &&& m1[v].index == st0.index
    &&& m1[v].on_stack ==> m1[v].lowest_index_child < m1[v].index && s1.len() > s0.len() && s1[s0.len() as int] == v
    &&& !m1[v].on_stack ==> m1[v].lowest_index_child == m1[v].index && s1 == s0
}

/// Visits `v` and the nodes it reaches, finishing every strongly connected
/// component whose root it meets.
fn strong_connect(graph: &Graph, state: &mut State, v: u64)
    requires
        graph.wf(),
        graph.edges_closed(),
        graph.nodes@.len() <= u64::MAX,
        inv(*graph, *old(state)),
        graph.nodes@.contains_key(v),
        !old(state).search_metadata@.contains_key(v),
        parts_reached(graph.nodes@, old(state).out@),
        parts_back(graph.nodes@, old(state).out@),
        parts_fields(graph.nodes@, old(state).out@),
        closed_ids(graph.nodes@, covered(old(state).out@)),
        parts_sealed(graph.nodes@, old(state).out@),
        stack_reaches(graph.nodes@, *old(state)),
    ensures
        inv(*graph, *final(state)),
        connect_frame(*old(state), *final(state), v),
        parts_reached(graph.nodes@, final(state).out@),
        parts_back(graph.nodes@, final(state).out@),
        parts_fields(graph.nodes@, final(state).out@),
        closed_ids(graph.nodes@, covered(final(state).out@)),
        parts_sealed(graph.nodes@, final(state).out@),
        stack_reaches(graph.nodes@, *final(state)),
        final(state).search_metadata@[v].on_stack ==> frame_ok(
            graph.nodes@,
            *final(state),
            old(state).stack@.len() as int,
        ) && edges_done(graph.nodes@, final(state).search_metadata@, v),
        forall|i: int|
            old(state).stack@.len() <= i < final(state).stack@.len() ==> leads_to(
                graph.nodes@,
                v,
                #[trigger] final(state).stack@[i],
            ),
    decreases graph.nodes@.dom().difference(old(state).search_metadata@.dom()).len(),
{
    let ghost st0 = *state;
    let ghost s0 = st0.stack@;
    let ghost m0 = st0.search_metadata@;
    let idx = state.index;
    proof {
        broadcast use vstd::std_specs::btree::group_btree_axioms;

        vstd::set_lib::lemma_len_subset(m0.dom().insert(v), graph.nodes@.dom());
        assert(m0.dom().insert(v).len() == m0.dom().len() + 1);
    }
    state.search_metadata.insert(v, Translation { index: idx, lowest_index_child: idx, on_stack: true });
    state.index = idx + 1;
    state.stack.push(v);
    proof {
        lemma_push_inv(*graph, st0, *state, v);
        lemma_reaches_push(*graph, st0, *state, v);
        assert(state.stack@[s0.len() as int] == v);
        assert(frame_ok(graph.nodes@, *state, s0.len() as int));
        lemma_leads_to_self(graph.nodes@, v);
        assert forall|i: int| s0.len() <= i < state.stack@.len() implies leads_to(graph.nodes@, v, #[trigger] state.stack@[i]) by {
            assert(state.stack@[i] == v);
        }
    }
    let tos = graph.nodes.get(&v).unwrap().to.iter();
    let mut j: usize = 0;
    while j < tos.len()
        invariant
            0 <= j <= tos@.len(),
            graph.wf(),
            graph.edges_closed(),
            graph.nodes@.len() <= u64::MAX,
            graph.nodes@.contains_key(v),
            tos@.to_set() == graph.nodes@[v].to@,
            inv(*graph, *state),
            st0 == *old(state),
            s0 == st0.stack@,
            m0 == st0.search_metadata@,
            idx == st0.index,
            !m0.contains_key(v),
            state.stack@.len() > s0.len(),
            state.stack@.subrange(0, s0.len() as int) == s0,
            state.stack@[s0.len() as int] == v,
            state.search_metadata@.contains_key(v),
            state.search_metadata@[v].index == idx,
            state.search_metadata@[v].on_stack,
            m0.dom().subset_of(state.search_metadata@.dom()),
            forall|x: u64| #[trigger] m0.contains_key(x) ==> state.search_metadata@[x].index == m0[x].index,
            forall|i: int| 0 <= i < s0.len() ==> state.search_metadata@[#[trigger] s0[i]] == m0[s0[i]],
            forall|x: u64| #[trigger]
                state.search_metadata@.contains_key(x) && !m0.contains_key(x) ==> state.search_metadata@[x].index >= idx,
            parts_reached(graph.nodes@, state.out@),
            parts_back(graph.nodes@, state.out@),
            parts_fields(graph.nodes@, state.out@),
            closed_ids(graph.nodes@, covered(state.out@)),
            parts_sealed(graph.nodes@, state.out@),
            stack_reaches(graph.nodes@, *state),
            frame_ok(graph.nodes@, *state, s0.len() as int),
            edges_done_upto(state.search_metadata@, v, tos@, j as int),
            forall|i: int| s0.len() <= i < state.stack@.len() ==> leads_to(graph.nodes@, v, #[trigger] state.stack@[i]),
        decreases tos@.len() - j,
    {
        let w = tos[j];
        proof {
            assert(tos@.to_set().contains(w));
            assert(graph.nodes@.contains_key(w));
        }
        let found: Option<Translation> = match state.search_metadata.get(&w) {
            Some(t) => Some(*t),
            None => None,
        };
        match found {
            None => {
                let ghost sb = *state;
                proof {
                    broadcast use vstd::std_specs::btree::group_btree_axioms;

                    lemma_fewer_unvisited(graph.nodes@.dom(), m0.dom(), state.search_metadata@.dom(), v);
                }
                strong_connect(graph, state, w);
                let w_low = state.search_metadata.get(&w).unwrap().lowest_index_child;
                let mut t = *state.search_metadata.get(&v).unwrap();
                let ghost sc = *state;
                proof {
                    lemma_after_child(*graph, st0, sb, sc, v, w);
                    assert forall|i: int| s0.len() <= i < sc.stack@.len() implies leads_to(graph.nodes@, v, #[trigger] sc.stack@[i]) by {
                        if i < sb.stack@.len() {
                            assert(sc.stack@.subrange(0, sb.stack@.len() as int)[i] == sc.stack@[i]);
                            assert(sb.stack@[i] == sc.stack@[i]);
                        } else {
                            lemma_leads_to_step(graph.nodes@, v, w, sc.stack@[i]);
                        }
                    }
                }
                t.lowest_index_child = if t.lowest_index_child < w_low {
                    t.lowest_index_child
                } else {
                    w_low
                };
                state.search_metadata.insert(v, t);
                proof {
                    assert(state.search_metadata@.dom() =~= sc.search_metadata@.dom());
                    lemma_lower_root(*graph, st0, sc, *state, v);
                    lemma_child_stable(*graph, sb, sc, w);
                    lemma_frame_after_child(*graph, sb, sc, *state, v, w, s0.len() as int, tos@, j as int);
                    assert(tos@.to_set().contains(w)) by {
                        assert(tos@[j as int] == w);
                    }
                    lemma_reaches_after_child(*graph, sb, sc, *state, v, w, s0.len() as int);
                }
            },
            Some(t) => {
                if t.on_stack {
                    let w_idx = t.index;
                    let mut tv = *state.search_metadata.get(&v).unwrap();
                    let ghost sc = *state;
                    proof {
                        lemma_on_stack_index(*graph, st0, sc, v, w);
                    }
                    tv.lowest_index_child = if tv.lowest_index_child < w_idx {
                        tv.lowest_index_child
                    } else {
                        w_idx
                    };
                    state.search_metadata.insert(v, tv);
                    proof {
                        assert(state.search_metadata@.dom() =~= sc.search_metadata@.dom());
                        lemma_lower_root(*graph, st0, sc, *state, v);
                        lemma_frame_after_back(*graph, sc, *state, v, w, s0.len() as int, tos@, j as int);
                        assert(tos@.to_set().contains(w)) by {
                            assert(tos@[j as int] == w);
                        }
                        lemma_reaches_after_back(*graph, sc, *state, v, w, s0.len() as int);
                    }
                } else {
                    proof {
                        let m = state.search_metadata@;
                        assert forall|a: int| 0 <= a < j + 1 implies m.contains_key(#[trigger] tos@[a]) && (
                        m[tos@[a]].on_stack ==> m[tos@[a]].index >= m[v].lowest_index_child) by {
                            if a == j {
                                assert(tos@[a] == w);
                            }
                        }
                    }
                }
            },
        }
        j = j + 1;
    }
    proof {
        let m = state.search_metadata@;
        assert forall|z: u64| #[trigger] graph.nodes@[v].to@.contains(z) implies m.contains_key(z) && (m[z].on_stack
            ==> m[z].index >= m[v].lowest_index_child) by {
            assert(tos@.to_set().contains(z));
            let a = choose|a: int| 0 <= a < tos@.len() && tos@[a] == z;
            assert(m.contains_key(tos@[a]));
        }
    }
    let vt = *state.search_metadata.get(&v).unwrap();
    if vt.index == vt.lowest_index_child {
        let ghost sp = *state;
        let ghost pos = s0.len() as int;
        let ghost seg = sp.stack@.subrange(pos, sp.stack@.len() as int);
        proof {
            lemma_root_edges(*graph, sp, pos);
            assert forall|i: int| pos <= i < sp.stack@.len() implies leads_to(graph.nodes@, #[trigger] sp.stack@[i], v) by {
                lemma_members_reach(*graph, sp, pos, i);
            }
            assert(!sp.out@.contains_key(v)) by {
                assert(sp.stack@.contains(v));
                if sp.out@.contains_key(v) {
                    assert(of_items(sp.out@[v].of).contains(v));
                }
            }
            assert(seg.to_set().disjoint(covered(sp.out@))) by {
                assert forall|x: u64| seg.to_set().contains(x) implies !covered(sp.out@).contains(x) by {
                    let a = choose|a: int| 0 <= a < seg.len() && seg[a] == x;
                    assert(sp.stack@[pos + a] == x);
                    assert(sp.stack@.contains(x));
                }
            }
        }
        pop_component(graph, state, v, Ghost(s0.len() as int));
        proof {
            lemma_reaches_prefix(*graph, sp, *state, pos);
            assert forall|x: u64| #[trigger] of_items(state.out@[v].of).contains(x) <==> seg.to_set().contains(x) by {
            }
            lemma_after_pop(graph.nodes@, sp.out@, state.out@, v, seg.to_set());
            assert forall|k: u64| #[trigger] state.out@.contains_key(k) implies part_fields(graph.nodes@, state.out@[k]) by {
                if k != v {
                    assert(sp.out@.contains_key(k));
                }
            }
            assert forall|k: u64, x: u64|
                #![trigger state.out@[k], of_items(state.out@[k].of).contains(x)]
                state.out@.contains_key(k) && of_items(state.out@[k].of).contains(x) implies leads_to(graph.nodes@, x, k) by {
                if k == v {
                    assert(seg.contains(x));
                    let i = choose|i: int| 0 <= i < seg.len() && seg[i] == x;
                    assert(sp.stack@[pos + i] == x);
                } else {
                    assert(sp.out@.contains_key(k) && of_items(sp.out@[k].of).contains(x));
                }
            }
            assert(state.stack@ =~= s0);
            lemma_frame_popped(st0, sp, *state, v);
            assert forall|k: u64, x: u64|
                #![trigger state.out@[k], of_items(state.out@[k].of).contains(x)]
                state.out@.contains_key(k) && of_items(state.out@[k].of).contains(x) implies leads_to(graph.nodes@, k, x) by {
                if k == v {
                    let seg = sp.stack@.subrange(s0.len() as int, sp.stack@.len() as int);
                    assert(seg.contains(x));
                    let i = choose|i: int| 0 <= i < seg.len() && seg[i] == x;
                    assert(sp.stack@[s0.len() + i] == x);
                } else {
                    assert(sp.out@.contains_key(k) && of_items(sp.out@[k].of).contains(x));
                }
            }
        }
    } else {
        proof {
            lemma_frame_kept(*graph, st0, *state, v);
        }
    }
}

/// Visiting a new node keeps the search state consistent.
proof fn lemma_push_inv(g: Graph, st0: State, st1: State, v: u64)
    requires
        inv(g, st0),
        g.nodes@.contains_key(v),
        !st0.search_metadata@.contains_key(v),
        st1.search_metadata@ == st0.search_metadata@.insert(
            v,
            Translation { index: st0.index, lowest_index_child: st0.index, on_stack: true },
        ),
        st1.index == st0.index + 1,
        st1.stack@ == st0.stack@.push(v),
        st1.out@ == st0.out@,
    ensures
        inv(g, st1),
{
    let s0 = st0.stack@;
    let m0 = st0.search_metadata@;
    let s = st1.stack@;
    let m = st1.search_metadata@;
    let o = st1.out@;
    assert(m.dom() =~= m0.dom().insert(v));
    assert(!s0.contains(v)) by {
        if s0.contains(v) {
            let i = choose|i: int| 0 <= i < s0.len() && s0[i] == v;
            assert(m0.contains_key(s0[i]));
        }
    }
    assert(!covered(o).contains(v));
    assert forall|x: u64| #[trigger] s.contains(x) <==> (s0.contains(x) || x == v) by {
        if s.contains(x) {
            let i = choose|i: int| 0 <= i < s.len() && s[i] == x;
            if i < s0.len() {
                assert(s0[i] == x);
            }
        }
        if s0.contains(x) {
            let i = choose|i: int| 0 <= i < s0.len() && s0[i] == x;
            assert(s[i] == x);
        }
        if x == v {
            assert(s[s0.len() as int] == v);
        }
    }
    assert(s.no_duplicates()) by {
        assert forall|i: int, j: int| 0 <= i < j < s.len() implies s[i] != s[j] by {
            if j == s0.len() {
                assert(s0.contains(s0[i]));
            } else {
                assert(s0[i] != s0[j]);
            }
        }
    }
    assert forall|i: int| 0 <= i < s.len() implies m.contains_key(#[trigger] s[i]) && m[s[i]].on_stack by {
        if i < s0.len() {
            assert(s0[i] == s[i]);
            assert(m0.contains_key(s0[i]));
        }
    }
    assert forall|x: u64| #[trigger] m.contains_key(x) && m[x].on_stack implies s.contains(x) by {
        if x != v {
            assert(m0[x].on_stack);
            assert(s0.contains(x));
        }
    }
    assert forall|i: int, j: int| 0 <= i < j < s.len() implies m[#[trigger] s[i]].index < m[#[trigger] s[j]].index by {
        assert(s0[i] == s[i]);
        assert(m0.contains_key(s0[i]));
        if j < s0.len() {
            assert(s0[j] == s[j]);
        }
    }
    assert forall|i: int| 0 <= i < s.len() implies m[#[trigger] s[i]].lowest_index_child <= m[s[i]].index
        && m[s[i]].lowest_index_child >= m[s[0]].index by {
        if s0.len() > 0 {
            assert(s[0] == s0[0]);
            assert(m0.contains_key(s0[0]));
            if i < s0.len() {
                assert(s0[i] == s[i]);
            }
        }
    }
    assert forall|x: u64, y: u64|
        #![trigger m[x], m[y]]
        m.contains_key(x) && m.contains_key(y) && x != y implies m[x].index != m[y].index by {
        if x != v && y != v {
            assert(m0[x].index != m0[y].index);
        } else if x == v {
            assert(m0.contains_key(y));
        } else {
            assert(m0.contains_key(x));
        }
    }
    vstd::set_lib::lemma_len_subset(m0.dom(), g.nodes@.dom());
}

/// After a child call returns, the frame of the parent still holds and the
/// child's lowest reachable index is no lower than the stack's bottom.
proof fn lemma_after_child(g: Graph, st0: State, sb: State, sc: State, v: u64, w: u64)
    requires
        inv(g, sb),
        inv(g, sc),
        connect_frame(sb, sc, w),
        !sb.search_metadata@.contains_key(w),
        sb.stack@.len() > st0.stack@.len(),
        sb.stack@.subrange(0, st0.stack@.len() as int) == st0.stack@,
        sb.stack@[st0.stack@.len() as int] == v,
        sb.search_metadata@.contains_key(v),
        sb.search_metadata@[v].index == st0.index,
        sb.search_metadata@[v].on_stack,
        st0.search_metadata@.dom().subset_of(sb.search_metadata@.dom()),
        forall|x: u64| #[trigger]
            st0.search_metadata@.contains_key(x) ==> sb.search_metadata@[x].index == st0.search_metadata@[x].index,
        forall|i: int| 0 <= i < st0.stack@.len() ==> sb.search_metadata@[#[trigger] st0.stack@[i]]
            == st0.search_metadata@[st0.stack@[i]],
        forall|x: u64| #[trigger]
            sb.search_metadata@.contains_key(x) && !st0.search_metadata@.contains_key(x)
                ==> sb.search_metadata@[x].index >= st0.index,
    ensures
        sc.stack@.len() > st0.stack@.len(),
        sc.stack@.subrange(0, st0.stack@.len() as int) == st0.stack@,
        sc.stack@[st0.stack@.len() as int] == v,
        sc.search_metadata@.contains_key(v),
        sc.search_metadata@[v] == sb.search_metadata@[v],
        st0.search_metadata@.dom().subset_of(sc.search_metadata@.dom()),
        forall|x: u64| #[trigger]
            st0.search_metadata@.contains_key(x) ==> sc.search_metadata@[x].index == st0.search_metadata@[x].index,
        forall|i: int| 0 <= i < st0.stack@.len() ==> sc.search_metadata@[#[trigger] st0.stack@[i]]
            == st0.search_metadata@[st0.stack@[i]],
        forall|x: u64| #[trigger]
            sc.search_metadata@.contains_key(x) && !st0.search_metadata@.contains_key(x)
                ==> sc.search_metadata@[x].index >= st0.index,
        sc.search_metadata@[w].lowest_index_child >= sc.search_metadata@[sc.stack@[0]].index,
{
    let s0 = st0.stack@;
    let sbs = sb.stack@;
    let scs = sc.stack@;
    let mb = sb.search_metadata@;
    let mc = sc.search_metadata@;
    let n0 = s0.len() as int;
    assert(scs.subrange(0, sbs.len() as int) == sbs);
    assert(scs[n0] == sbs[n0]);
    assert(scs.subrange(0, n0) =~= s0) by {
        assert forall|i: int| 0 <= i < n0 implies scs[i] == s0[i] by {
            assert(scs[i] == sbs[i]);
            assert(sbs.subrange(0, n0)[i] == s0[i]);
        }
    }
    assert(mc[sbs[n0]] == mb[sbs[n0]]);
    assert forall|i: int| 0 <= i < n0 implies mc[#[trigger] s0[i]] == st0.search_metadata@[s0[i]] by {
        assert(sbs[i] == s0[i]);
        assert(mc[sbs[i]] == mb[sbs[i]]);
    }
    assert forall|x: u64| #[trigger] mc.contains_key(x) && !st0.search_metadata@.contains_key(x) implies mc[x].index >= st0.index by {
        if mb.contains_key(x) {
            assert(mc[x].index == mb[x].index);
        } else {
            assert(mc[x].index >= sb.index);
            assert(mb.contains_key(v));
            assert(mb[v].index < sb.index);
        }
    }
    // The bottom of the stack comes no later than `v`.
    assert(mc[scs[0]].index <= mc[v].index) by {
        if n0 > 0 {
            assert(mc[scs[0]].index < mc[scs[n0]].index);
        }
    }
    assert(mc[w].index == sb.index);
    assert(mb[v].index < sb.index);
    if mc[w].on_stack {
        assert(scs.contains(w));
        let i = choose|i: int| 0 <= i < scs.len() && scs[i] == w;
        assert(mc[scs[i]].lowest_index_child >= mc[scs[0]].index);
    }
}

/// Lowering the reachable index of the node at the stack's place `n0` to
/// no lower than the stack's bottom keeps the search state consistent.
proof fn lemma_lower_root(g: Graph, st0: State, sc: State, sd: State, v: u64)
    requires
        inv(g, sc),
        sc.stack@.len() > st0.stack@.len(),
        sc.stack@[st0.stack@.len() as int] == v,
        sc.search_metadata@.contains_key(v),
        sd.stack@ == sc.stack@,
        sd.index == sc.index,
        sd.out@ == sc.out@,
        sd.search_metadata@.dom() == sc.search_metadata@.dom(),
        forall|x: u64| #[trigger] sc.search_metadata@.contains_key(x) && x != v ==> sd.search_metadata@[x] == sc.search_metadata@[x],
        sd.search_metadata@[v].index == sc.search_metadata@[v].index,
        sd.search_metadata@[v].on_stack == sc.search_metadata@[v].on_stack,
        sd.search_metadata@[v].lowest_index_child <= sc.search_metadata@[v].lowest_index_child,
        sd.search_metadata@[v].lowest_index_child >= sc.search_metadata@[sc.stack@[0]].index,
    ensures
        inv(g, sd),
{
    let s = sd.stack@;
    let mc = sc.search_metadata@;
    let m = sd.search_metadata@;
    assert(m.dom() == mc.dom());
    assert forall|i: int| 0 <= i < s.len() implies m.contains_key(#[trigger] s[i]) && m[s[i]].on_stack by {
        assert(mc.contains_key(s[i]));
    }
    assert forall|x: u64| #[trigger] m.contains_key(x) && m[x].on_stack implies s.contains(x) by {
        assert(mc[x].on_stack);
    }
    assert forall|i: int, j: int| 0 <= i < j < s.len() implies m[#[trigger] s[i]].index < m[#[trigger] s[j]].index by {
        assert(mc[s[i]].index < mc[s[j]].index);
        assert(mc.contains_key(s[i]) && mc.contains_key(s[j]));
    }
    assert(m[s[0]].index == mc[s[0]].index) by {
        assert(mc.contains_key(s[0]));
    }
    assert forall|i: int| 0 <= i < s.len() implies m[#[trigger] s[i]].lowest_index_child <= m[s[i]].index
        && m[s[i]].lowest_index_child >= m[s[0]].index by {
        assert(mc.contains_key(s[i]));
        assert(mc[s[i]].lowest_index_child <= mc[s[i]].index && mc[s[i]].lowest_index_child >= mc[s[0]].index);
    }
    assert forall|x: u64, y: u64|
        #![trigger m[x], m[y]]
        m.contains_key(x) && m.contains_key(y) && x != y implies m[x].index != m[y].index by {
        assert(mc[x].index != mc[y].index);
    }
    assert forall|x: u64| #[trigger] m.contains_key(x) implies m[x].index < sd.index by {
        assert(mc[x].index < sc.index);
    }
}

/// A node on the stack has an index no lower than the stack's bottom.
proof fn lemma_on_stack_index(g: Graph, st0: State, sc: State, v: u64, w: u64)
    requires
        inv(g, sc),
        sc.search_metadata@.contains_key(w),
        sc.search_metadata@[w].on_stack,
    ensures
        sc.stack@.len() > 0,
        sc.search_metadata@[w].index >= sc.search_metadata@[sc.stack@[0]].index,
{
    let s = sc.stack@;
    let m = sc.search_metadata@;
    assert(s.contains(w));
    let i = choose|i: int| 0 <= i < s.len() && s[i] == w;
    if i > 0 {
        assert(m[s[0]].index < m[s[i]].index);
    }
}

/// A call that finished `v`'s component leaves the frame it promised.
proof fn lemma_frame_popped(st0: State, sp: State, st: State, v: u64)
    requires
        sp.stack@.len() > st0.stack@.len(),
        sp.stack@.subrange(0, st0.stack@.len() as int) == st0.stack@,
        sp.search_metadata@.contains_key(v),
        sp.search_metadata@[v].index == st0.index,
        sp.search_metadata@[v].index == sp.search_metadata@[v].lowest_index_child,
        st0.search_metadata@.dom().subset_of(sp.search_metadata@.dom()),
        forall|x: u64| #[trigger]
            st0.search_metadata@.contains_key(x) ==> sp.search_metadata@[x].index == st0.search_metadata@[x].index,
        forall|i: int| 0 <= i < st0.stack@.len() ==> sp.search_metadata@[#[trigger] st0.stack@[i]]
            == st0.search_metadata@[st0.stack@[i]],
        forall|x: u64| #[trigger]
            sp.search_metadata@.contains_key(x) && !st0.search_metadata@.contains_key(x)
                ==> sp.search_metadata@[x].index >= st0.index,
        st.stack@ == st0.stack@,
        st.search_metadata@.dom() == sp.search_metadata@.dom(),
        forall|x: u64| #[trigger]
            st.search_metadata@.contains_key(x) ==> st.search_metadata@[x].index == sp.search_metadata@[x].index
                && st.search_metadata@[x].lowest_index_child == sp.search_metadata@[x].lowest_index_child,
        forall|i: int| 0 <= i < st0.stack@.len() ==> st.search_metadata@[#[trigger] sp.stack@[i]]
            == sp.search_metadata@[sp.stack@[i]],
        !st.search_metadata@[v].on_stack,
    ensures
        connect_frame(st0, st, v),
{
    let s0 = st0.stack@;
    assert forall|i: int| 0 <= i < s0.len() implies st.search_metadata@[#[trigger] s0[i]] == st0.search_metadata@[s0[i]] by {
        assert(sp.stack@[i] == s0[i]);
        assert(st.search_metadata@[sp.stack@[i]] == sp.search_metadata@[sp.stack@[i]]);
    }
    assert(st.stack@.subrange(0, s0.len() as int) =~= s0);
}

/// A call that left `v` on the stack leaves the frame it promised.
proof fn lemma_frame_kept(g: Graph, st0: State, st: State, v: u64)
    requires
        inv(g, st),
        st.stack@.len() > st0.stack@.len(),
        st.stack@.subrange(0, st0.stack@.len() as int) == st0.stack@,
        st.stack@[st0.stack@.len() as int] == v,
        st.search_metadata@.contains_key(v),
        st.search_metadata@[v].index == st0.index,
        st.search_metadata@[v].on_stack,
        st.search_metadata@[v].index != st.search_metadata@[v].lowest_index_child,
        st0.search_metadata@.dom().subset_of(st.search_metadata@.dom()),
        forall|x: u64| #[trigger]
            st0.search_metadata@.contains_key(x) ==> st.search_metadata@[x].index == st0.search_metadata@[x].index,
        forall|i: int| 0 <= i < st0.stack@.len() ==> st.search_metadata@[#[trigger] st0.stack@[i]]
            == st0.search_metadata@[st0.stack@[i]],
        forall|x: u64| #[trigger]
            st.search_metadata@.contains_key(x) && !st0.search_metadata@.contains_key(x)
                ==> st.search_metadata@[x].index >= st0.index,
    ensures
        connect_frame(st0, st, v),
{
    let s = st.stack@;
    let n0 = st0.stack@.len() as int;
    assert(st.search_metadata@[s[n0]].lowest_index_child <= st.search_metadata@[s[n0]].index);
}

/// `parts` split the nodes of `nodes` into disjoint parts, each holding
/// its own key, in ascending order, with edges only to nodes.
pub open spec fn node_partition(nodes: Map<u64, Node>, parts: Map<u64, Node>) -> bool {
    &&& parts_ok(nodes, parts)
    &&& covered(parts) == nodes.dom()
    &&& parts_sorted(parts)
    &&& parts_disjoint(parts)
    &&& forall|k: u64| #[trigger] parts.contains_key(k) ==> of_items(parts[k].of).contains(k)
}

/// Two nodes share a part of a partition into strongly connected
/// components exactly when each reaches the other.
pub proof fn lemma_same_part_iff_mutual(nodes: Map<u64, Node>, parts: Map<u64, Node>, x: u64, y: u64)
    requires
        node_partition(nodes, parts),
        scc_parts(nodes, parts),
        nodes.contains_key(x),
        nodes.contains_key(y),
    ensures
        (exists|k: u64|
            #![trigger parts[k]]
            parts.contains_key(k) && of_items(parts[k].of).contains(x) && of_items(parts[k].of).contains(y))
            <==> (leads_to(nodes, x, y) && leads_to(nodes, y, x)),
{
    if exists|k: u64|
        #![trigger parts[k]]
        parts.contains_key(k) && of_items(parts[k].of).contains(x) && of_items(parts[k].of).contains(y) {
        let k = choose|k: u64|
            #![trigger parts[k]]
            parts.contains_key(k) && of_items(parts[k].of).contains(x) && of_items(parts[k].of).contains(y);
        assert(leads_to(nodes, x, k) && leads_to(nodes, k, y));
        assert(leads_to(nodes, y, k) && leads_to(nodes, k, x));
        lemma_leads_to_trans(nodes, x, k, y);
        lemma_leads_to_trans(nodes, y, k, x);
    }
    if leads_to(nodes, x, y) && leads_to(nodes, y, x) {
        assert(covered(parts).contains(x));
        let k = choose|k: u64| parts.contains_key(k) && #[trigger] of_items(parts[k].of).contains(x);
        assert(of_items(parts[k].of).contains(y));
        assert(parts.contains_key(k) && of_items(parts[k].of).contains(x) && of_items(parts[k].of).contains(y));
    }
}

impl Graph {
    /// Find strongly connected components in a graph. Return them as a map
    /// of original id to new nodes
    pub fn tarjan(&self) -> (out: BTreeMap<u64, Node>)
        requires
            self.wf(),
            self.edges_closed(),
        ensures
            node_partition(self.nodes@, out@),
            scc_parts(self.nodes@, out@),
            parts_fields(self.nodes@, out@),
    {
        let mut state = State {
            stack: Vec::new(),
            search_metadata: BTreeMap::new(),
            index: 0,
            out: BTreeMap::new(),
        };
        proof {
            broadcast use vstd::std_specs::btree::group_btree_axioms;

            assert(vstd::std_specs::btree::spec_btree_map_len(&self.nodes) == self.nodes@.len());

            assert(covered(state.out@) =~= Set::<u64>::empty());
            assert(state.search_metadata@.dom() =~= Set::<u64>::empty());
            assert(inv(*self, state));
            assert(stack_reaches(self.nodes@, state));
        }
        let ks = crate::graph::sorted_keys(&self.nodes);
        let mut i: usize = 0;
        while i < ks.len()
            invariant
                0 <= i <= ks@.len(),
                self.wf(),
                self.edges_closed(),
                self.nodes@.len() <= u64::MAX,
                ks@.to_set() == self.nodes@.dom(),
                inv(*self, state),
                state.stack@.len() == 0,
                forall|a: int| 0 <= a < i ==> state.search_metadata@.contains_key(#[trigger] ks@[a]),
                parts_reached(self.nodes@, state.out@),
                parts_back(self.nodes@, state.out@),
                parts_fields(self.nodes@, state.out@),
                closed_ids(self.nodes@, covered(state.out@)),
                parts_sealed(self.nodes@, state.out@),
                stack_reaches(self.nodes@, state),
            decreases ks@.len() - i,
        {
            let k = ks[i];
            assert(ks@.to_set().contains(k));
            if !state.search_metadata.contains_key(&k) {
                let ghost sb = state;
                strong_connect(self, &mut state, k);
                proof {
                    let m = state.search_metadata@;
                    if m[k].on_stack {
                        assert(state.stack@[0] == k);
                        assert(m[state.stack@[0]].lowest_index_child >= m[state.stack@[0]].index);
                    }
                    assert(state.stack@ =~= Seq::<u64>::empty());
                    assert forall|a: int| 0 <= a < i + 1 implies state.search_metadata@.contains_key(#[trigger] ks@[a]) by {
                        if a < i {
                            assert(sb.search_metadata@.contains_key(ks@[a]));
                        }
                    }
                }
            }
            i = i + 1;
        }
        proof {
            let m = state.search_metadata@;
            assert forall|x: u64| self.nodes@.contains_key(x) implies m.contains_key(x) by {
                assert(ks@.to_set().contains(x));
                let a = choose|a: int| 0 <= a < ks@.len() && ks@[a] == x;
                assert(m.contains_key(ks@[a]));
            }
            assert forall|x: u64| covered(state.out@).contains(x) <==> self.nodes@.contains_key(x) by {
                assert(m.contains_key(x) <==> (state.stack@.contains(x) || covered(state.out@).contains(x)));
                assert(!state.stack@.contains(x));
            }
            assert(covered(state.out@) =~= self.nodes@.dom());
            let o = state.out@;
            assert forall|k: u64, x: u64, y: u64|
                #![trigger o[k], of_items(o[k].of).contains(x), of_items(o[k].of).contains(y)]
                o.contains_key(k) && of_items(o[k].of).contains(x) && leads_to(self.nodes@, x, y) && leads_to(
                    self.nodes@,
                    y,
                    x,
                ) implies of_items(o[k].of).contains(y) by {
                if !of_items(o[k].of).contains(y) {
                    assert(!leads_to(self.nodes@, y, x));
                }
            }
        }
        state.out
    }

    /// For every node, the id of the strongly connected component that
    /// holds it.
    pub fn inverse_tarjan(&self) -> (r: BTreeMap<usize, usize>)
        requires
            self.wf(),
            self.edges_closed(),
        ensures
            exists|parts: Map<u64, Node>|
                #![trigger node_partition(self.nodes@, parts)]
                node_partition(self.nodes@, parts) && scc_parts(self.nodes@, parts) && parts_fields(self.nodes@, parts)
                    && (forall|k: u64, o: u64|
                    #![trigger parts[k], of_items(parts[k].of).contains(o)]
                    parts.contains_key(k) && of_items(parts[k].of).contains(o) ==> r@.contains_key(
                        o as usize,
                    )) && (forall|key: usize| #[trigger]
                    r@.contains_key(key) ==> exists|k: u64, o: u64|
                        #![trigger parts[k], of_items(parts[k].of).contains(o)]
                        parts.contains_key(k) && of_items(parts[k].of).contains(o) && key == o as usize
                            && r@[key] == parts[k].id as usize),
    {
        let parts = self.tarjan();
        let keys = crate::graph::sorted_keys(&parts);
        let mut r: BTreeMap<usize, usize> = BTreeMap::new();
        let mut i: usize = 0;
        while i < keys.len()
            invariant
                0 <= i <= keys@.len(),
                keys@.to_set() == parts@.dom(),
                forall|a: int, o: u64|
                    #![trigger keys@[a], of_items(parts@[keys@[a]].of).contains(o)]
                    0 <= a < i && of_items(parts@[keys@[a]].of).contains(o) ==> r@.contains_key(o as usize),
                forall|key: usize| #[trigger]
                    r@.contains_key(key) ==> exists|k: u64, o: u64|
                        #![trigger parts@[k], of_items(parts@[k].of).contains(o)]
                        parts@.contains_key(k) && of_items(parts@[k].of).contains(o) && key == o as usize
                            && r@[key] == parts@[k].id as usize,
            decreases keys@.len() - i,
        {
            let k = keys[i];
            assert(keys@.to_set().contains(k));
            let node = parts.get(&k).unwrap();
            let ofv = node.of.to_vec();
            let id = node.id;
            let ghost rb = r@;
            let mut j: usize = 0;
            while j < ofv.len()
                invariant
                    0 <= j <= ofv@.len(),
                    ofv@ == of_items(parts@[k].of),
                    parts@.contains_key(k),
                    id == parts@[k].id,
                    rb.dom().subset_of(r@.dom()),
                    forall|b: int| 0 <= b < j ==> r@.contains_key(#[trigger] ofv@[b] as usize),
                    forall|key: usize| #[trigger]
                        r@.contains_key(key) ==> exists|k2: u64, o: u64|
                            #![trigger parts@[k2], of_items(parts@[k2].of).contains(o)]
                            parts@.contains_key(k2) && of_items(parts@[k2].of).contains(o) && key == o as usize
                                && r@[key] == parts@[k2].id as usize,
                decreases ofv@.len() - j,
            {
                let o = ofv[j];
                r.insert(o as usize, id as usize);
                proof {
                    assert(of_items(parts@[k].of).contains(o)) by {
                        assert(ofv@[j as int] == o);
                    }
                    assert forall|key: usize| #[trigger] r@.contains_key(key) implies exists|k2: u64, o2: u64|
                        #![trigger parts@[k2], of_items(parts@[k2].of).contains(o2)]
                        parts@.contains_key(k2) && of_items(parts@[k2].of).contains(o2) && key == o2 as usize
                            && r@[key] == parts@[k2].id as usize by {
                        if key == o as usize {
                            assert(parts@.contains_key(k) && of_items(parts@[k].of).contains(o));
                        }
                    }
                }
                j = j + 1;
            }
            proof {
                assert forall|a: int, o: u64|
                    #![trigger keys@[a], of_items(parts@[keys@[a]].of).contains(o)]
                    0 <= a < i + 1 && of_items(parts@[keys@[a]].of).contains(o) implies r@.contains_key(o as usize) by {
                    if a == i {
                        let b = choose|b: int| 0 <= b < ofv@.len() && ofv@[b] == o;
                        assert(r@.contains_key(ofv@[b] as usize));
                    } else {
                        assert(rb.contains_key(o as usize));
                    }
                }
            }
            i = i + 1;
        }
        proof {
            assert forall|k: u64, o: u64|
                #![trigger parts@[k], of_items(parts@[k].of).contains(o)]
                parts@.contains_key(k) && of_items(parts@[k].of).contains(o) implies r@.contains_key(o as usize) by {
                assert(keys@.to_set().contains(k));
                let a = choose|a: int| 0 <= a < keys@.len() && keys@[a] == k;
                assert(of_items(parts@[keys@[a]].of).contains(o));
            }
        }
        r
    }

    /// Returns a new graph of strongly connected components using
    /// [Tarjan's strongly connected components algorithm](https://en.wikipedia.org/wiki/Tarjan%27s_strongly_connected_components_algorithm)
    pub fn to_strongly_connected_components_tarjan(&self) -> (g: Graph)
        requires
            self.wf(),
            self.edges_closed(),
        ensures
            g.merges@ == Map::<u64, u64>::empty(),
            exists|parts: Map<u64, Node>, nid: Map<u64, u64>|
                #![trigger crate::scc::dag_of(parts, nid, g.nodes@)]
                node_partition(self.nodes@, parts) && scc_parts(self.nodes@, parts) && parts_fields(self.nodes@, parts)
                    && crate::scc::dag_of(
                    parts,
                    nid,
                    g.nodes@,
                ),
    {
        let scc = self.tarjan();
        proof {
            assert forall|k: u64, x: u64|
                scc@.contains_key(k) && (scc@[k].to@.contains(x) || scc@[k].from@.contains(x)) implies covered(
                scc@,
            ).contains(x) by {
                assert(self.nodes@.contains_key(x));
            }
        }
        crate::scc::connect_dag(scc)
    }
}

} // verus!
