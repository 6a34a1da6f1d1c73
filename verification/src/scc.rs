use crate::compress::covered;
use crate::graph::{lemma_seq_min, of_items, Graph, Node, OfList};
use crate::small_set::SmallU64Set;
use std::collections::{BTreeMap, BTreeSet};
use vstd::prelude::*;

verus! {

/// The ids that the nodes in `a` stand for.
pub open spec fn covered_by(nodes: Map<u64, Node>, a: Set<u64>) -> Set<u64> {
    Set::new(|x: u64| exists|u: u64| a.contains(u) && #[trigger] of_items(nodes[u].of).contains(x))
}

/// Each node of `acc` is consistent and has edges only to nodes of
/// `nodes`.
pub open spec fn parts_ok(nodes: Map<u64, Node>, acc: Map<u64, Node>) -> bool {
    forall|k: u64| #[trigger]
        acc.contains_key(k) ==> {
            &&& acc[k].wf()
            &&& acc[k].to@.subset_of(nodes.dom())
            &&& acc[k].from@.subset_of(nodes.dom())
        }
}

/// Fewer unvisited nodes once one more is visited.
pub proof fn lemma_fewer_unvisited(dom: Set<u64>, a: Set<u64>, b: Set<u64>, u: u64)
    requires
        dom.finite(),
        a.subset_of(b),
        dom.contains(u),
        !a.contains(u),
        b.contains(u),
    ensures
        dom.difference(b).len() < dom.difference(a).len(),
{
    vstd::set_lib::lemma_len_subset(dom.difference(b), dom.difference(a).remove(u));
    assert(dom.difference(b).subset_of(dom.difference(a).remove(u)));
}

/// Visits `u` and everything reachable from it that is not visited yet,
/// appending each to `l` after everything reachable from it.
fn visit(graph: &Graph, visited: &mut BTreeSet<u64>, l: &mut Vec<u64>, u: u64)
    requires
        graph.wf(),
        graph.edges_closed(),
        graph.nodes@.contains_key(u),
        old(visited)@.subset_of(graph.nodes@.dom()),
    ensures
        old(visited)@.subset_of(final(visited)@),
        final(visited)@.subset_of(graph.nodes@.dom()),
        final(visited)@.contains(u),
        final(l)@.subrange(0, old(l)@.len() as int) == old(l)@,
        final(l)@.len() >= old(l)@.len(),
        final(l)@.subrange(old(l)@.len() as int, final(l)@.len() as int).to_set() == final(visited)@.difference(
            old(visited)@,
        ),
        final(l)@.subrange(old(l)@.len() as int, final(l)@.len() as int).no_duplicates(),
    decreases graph.nodes@.dom().difference(old(visited)@).len(),
{
    let ghost v0 = visited@;
    let ghost l0 = l@;
    if !visited.insert(u) {
        assert(l@.subrange(l0.len() as int, l@.len() as int) =~= Seq::<u64>::empty());
        assert(visited@.difference(v0) =~= Set::<u64>::empty());
        return ;
    }
    let tos = graph.nodes.get(&u).unwrap().to.iter();
    let mut j: usize = 0;
    while j < tos.len()
        invariant
            0 <= j <= tos@.len(),
            graph.wf(),
            graph.edges_closed(),
            graph.nodes@.contains_key(u),
            tos@.to_set() == graph.nodes@[u].to@,
            v0 == old(visited)@,
            v0.subset_of(graph.nodes@.dom()),
            !v0.contains(u),
            v0.insert(u).subset_of(visited@),
            visited@.subset_of(graph.nodes@.dom()),
            l@.len() >= l0.len(),
            l@.subrange(0, l0.len() as int) == l0,
            l@.subrange(l0.len() as int, l@.len() as int).to_set() == visited@.difference(v0.insert(u)),
            l@.subrange(l0.len() as int, l@.len() as int).no_duplicates(),
        decreases tos@.len() - j,
    {
        let w = tos[j];
        proof {
            assert(tos@.to_set().contains(w));
            assert(graph.nodes@.contains_key(w));
            broadcast use vstd::std_specs::btree::group_btree_axioms;

            lemma_fewer_unvisited(graph.nodes@.dom(), v0, visited@, u);
        }
        let ghost vb = visited@;
        let ghost lb = l@;
        visit(graph, visited, l, w);
        proof {
            let d0 = lb.subrange(l0.len() as int, lb.len() as int);
            let d1 = l@.subrange(lb.len() as int, l@.len() as int);
            let d = l@.subrange(l0.len() as int, l@.len() as int);
            assert(l@.subrange(0, lb.len() as int) == lb);
            assert(d =~= d0 + d1);
            assert(l@.subrange(0, l0.len() as int) =~= lb.subrange(0, l0.len() as int));
            assert(d.to_set() =~= visited@.difference(v0.insert(u))) by {
                assert forall|x: u64| d.to_set().contains(x) <==> visited@.difference(v0.insert(u)).contains(x) by {
                    if d.to_set().contains(x) {
                        let i = choose|i: int| 0 <= i < d.len() && d[i] == x;
                        if i < d0.len() {
                            assert(d0[i] == x);
                            assert(d0.to_set().contains(x));
                        } else {
                            assert(d1[i - d0.len()] == x);
                            assert(d1.to_set().contains(x));
                        }
                    }
                    if visited@.difference(v0.insert(u)).contains(x) {
                        if vb.contains(x) {
                            assert(d0.to_set().contains(x));
                            let i = choose|i: int| 0 <= i < d0.len() && d0[i] == x;
                            assert(d[i] == x);
                        } else {
                            assert(d1.to_set().contains(x));
                            let i = choose|i: int| 0 <= i < d1.len() && d1[i] == x;
                            assert(d[d0.len() + i] == x);
                        }
                    }
                }
            }
            assert(d.no_duplicates()) by {
                assert forall|a: int, b: int| 0 <= a < b < d.len() implies d[a] != d[b] by {
                    if a < d0.len() && b >= d0.len() {
                        assert(d0.to_set().contains(d0[a]));
                        assert(d1.to_set().contains(d1[b - d0.len()]));
                    } else if a >= d0.len() {
                        assert(d1[a - d0.len()] != d1[b - d0.len()]);
                    }
                }
            }
        }
        j = j + 1;
    }
    let ghost lb = l@;
    l.push(u);
    proof {
        let d0 = lb.subrange(l0.len() as int, lb.len() as int);
        let d = l@.subrange(l0.len() as int, l@.len() as int);
        assert(d =~= d0.push(u));
        assert(l@.subrange(0, l0.len() as int) =~= lb.subrange(0, l0.len() as int));
        d0.lemma_push_to_set_commute(u);
        assert(d.to_set() =~= visited@.difference(v0));
        assert(!d0.to_set().contains(u));
        assert(d.no_duplicates()) by {
            assert forall|a: int, b: int| 0 <= a < b < d.len() implies d[a] != d[b] by {
                if b == d0.len() {
                    assert(d0.to_set().contains(d0[a]));
                }
            }
        }
    }
}

/// Adding a node's ids to a part adds them to the ids the parts stand for.
proof fn lemma_covered_extend(acc: Map<u64, Node>, acc2: Map<u64, Node>, root: u64, extra: Seq<u64>)
    requires
        acc2.dom() == acc.dom().insert(root),
        forall|k: u64| #[trigger] acc.contains_key(k) && k != root ==> acc2[k] == acc[k],
        acc.contains_key(root) ==> of_items(acc2[root].of) == of_items(acc[root].of) + extra,
        !acc.contains_key(root) ==> of_items(acc2[root].of) == extra,
    ensures
        covered(acc2) == covered(acc) + extra.to_set(),
{
    assert forall|x: u64| covered(acc2).contains(x) <==> (covered(acc) + extra.to_set()).contains(x) by {
        if covered(acc2).contains(x) {
            let k = choose|k: u64| acc2.contains_key(k) && #[trigger] of_items(acc2[k].of).contains(x);
            if k == root {
                if acc.contains_key(root) {
                    let s = of_items(acc[root].of);
                    let i = choose|i: int| 0 <= i < s.len() + extra.len() && (s + extra)[i] == x;
                    if i < s.len() {
                        assert(s[i] == x);
                        assert(acc.contains_key(root) && of_items(acc[root].of).contains(x));
                    } else {
                        assert(extra[i - s.len()] == x);
                        assert(extra.to_set().contains(x));
                    }
                } else {
                    assert(extra.to_set().contains(x));
                }
            } else {
                assert(acc.contains_key(k) && of_items(acc[k].of).contains(x));
            }
        }
        if covered(acc).contains(x) {
            let k = choose|k: u64| acc.contains_key(k) && #[trigger] of_items(acc[k].of).contains(x);
            if k == root {
                let s = of_items(acc[root].of);
                let i = choose|i: int| 0 <= i < s.len() && s[i] == x;
                assert((s + extra)[i] == x);
                assert(acc2.contains_key(root) && of_items(acc2[root].of).contains(x));
            } else {
                assert(acc2.contains_key(k) && of_items(acc2[k].of).contains(x));
            }
        }
        if extra.to_set().contains(x) {
            let i = choose|i: int| 0 <= i < extra.len() && extra[i] == x;
            if acc.contains_key(root) {
                let s = of_items(acc[root].of);
                assert((s + extra)[s.len() + i] == x);
            }
            assert(acc2.contains_key(root) && of_items(acc2[root].of).contains(x));
        }
    }
    assert(covered(acc2) =~= covered(acc) + extra.to_set());
}

/// `p` is a walk through nodes: each id after the first records the one
/// before it among its predecessors (`from`).
pub open spec fn is_walk(nodes: Map<u64, Node>, p: Seq<u64>) -> bool {
    &&& p.len() > 0
    &&& nodes.contains_key(p[0])
    &&& forall|i: int|
        #![trigger p[i + 1]]
        0 <= i < p.len() - 1 ==> nodes.contains_key(p[i + 1]) && nodes[p[i + 1]].from@.contains(p[i])
}

/// There is a walk from `x` to `y`.
pub open spec fn reaches(nodes: Map<u64, Node>, x: u64, y: u64) -> bool {
    exists|p: Seq<u64>| #[trigger] is_walk(nodes, p) && p[0] == x && p.last() == y
}

/// Every id that a part holds is held by a node that reaches the part's
/// key, and every predecessor gathered in the part is one of such a node.
pub open spec fn members_reach(nodes: Map<u64, Node>, acc: Map<u64, Node>) -> bool {
    &&& forall|k: u64, x: u64|
        #![trigger acc[k], of_items(acc[k].of).contains(x)]
        acc.contains_key(k) && of_items(acc[k].of).contains(x) ==> exists|w: u64|
            #[trigger] nodes.contains_key(w) && of_items(nodes[w].of).contains(x) && reaches(nodes, w, k)
    &&& forall|k: u64, v: u64|
        #![trigger acc[k], acc[k].from@.contains(v)]
        acc.contains_key(k) && acc[k].from@.contains(v) ==> exists|w: u64|
            #[trigger] nodes.contains_key(w) && nodes[w].from@.contains(v) && reaches(nodes, w, k)
}

/// A node reaches itself.
proof fn lemma_reaches_self(nodes: Map<u64, Node>, x: u64)
    requires
        nodes.contains_key(x),
    ensures
        reaches(nodes, x, x),
{
    assert(is_walk(nodes, seq![x]));
}

/// A predecessor of a node that reaches `y` reaches `y` too.
proof fn lemma_reaches_pred(nodes: Map<u64, Node>, v: u64, w: u64, y: u64)
    requires
        nodes.contains_key(v),
        nodes.contains_key(w),
        nodes[w].from@.contains(v),
        reaches(nodes, w, y),
    ensures
        reaches(nodes, v, y),
{
    let p = choose|p: Seq<u64>| #[trigger] is_walk(nodes, p) && p[0] == w && p.last() == y;
    let q = seq![v] + p;
    assert forall|i: int| #![trigger q[i + 1]] 0 <= i < q.len() - 1 implies nodes.contains_key(q[i + 1]) && nodes[q[i + 1]].from@.contains(q[i]) by {
        if i > 0 {
            assert(q[i] == p[i - 1]);
            assert(q[i + 1] == p[(i - 1) + 1]);
        }
    }
    assert(is_walk(nodes, q));
    assert(q.last() == y);
}

/// Adding ids that no part holds yet, each once, to one part keeps the
/// parts disjoint.
proof fn lemma_disjoint_extend(acc: Map<u64, Node>, acc2: Map<u64, Node>, root: u64, extra: Seq<u64>)
    requires
        crate::tarjan::parts_disjoint(acc),
        acc2.dom() == acc.dom().insert(root),
        forall|k: u64| #[trigger] acc.contains_key(k) && k != root ==> acc2[k] == acc[k],
        acc.contains_key(root) ==> of_items(acc2[root].of) == of_items(acc[root].of) + extra,
        !acc.contains_key(root) ==> of_items(acc2[root].of) == extra,
        extra.no_duplicates(),
        forall|x: u64| #[trigger] extra.contains(x) ==> !covered(acc).contains(x),
    ensures
        crate::tarjan::parts_disjoint(acc2),
{
    assert forall|k: u64| #[trigger] acc2.contains_key(k) implies of_items(acc2[k].of).no_duplicates() by {
        if k == root && acc.contains_key(root) {
            let s = of_items(acc[root].of);
            let t = s + extra;
            assert forall|i: int, j: int| 0 <= i < j < t.len() implies t[i] != t[j] by {
                if i < s.len() && j >= s.len() {
                    assert(extra.contains(t[j]));
                    assert(s.contains(t[i]));
                    assert(covered(acc).contains(t[i]));
                } else if i >= s.len() {
                    assert(t[i] == extra[i - s.len()]);
                    assert(t[j] == extra[j - s.len()]);
                }
            }
        }
    }
    assert forall|k1: u64, k2: u64, x: u64|
        acc2.contains_key(k1) && acc2.contains_key(k2) && k1 != k2 && #[trigger] of_items(acc2[k1].of).contains(x)
            implies !#[trigger] of_items(acc2[k2].of).contains(x) by {
        if of_items(acc2[k2].of).contains(x) {
            if k1 != root && k2 != root {
                assert(of_items(acc[k1].of).contains(x));
            } else {
                let (kr, ko) = if k1 == root {
                    (k1, k2)
                } else {
                    (k2, k1)
                };
                assert(of_items(acc2[ko].of) == of_items(acc[ko].of));
                assert(covered(acc).contains(x));
                if extra.contains(x) {
                } else {
                    assert(acc.contains_key(root));
                    let s = of_items(acc[root].of);
                    let i = choose|i: int| 0 <= i < (s + extra).len() && (s + extra)[i] == x;
                    if i >= s.len() {
                        assert(extra[i - s.len()] == x);
                    }
                    assert(s.contains(x));
                    assert(of_items(acc[ko].of).contains(x));
                }
            }
        }
    }
}

/// Parts that hold the same ids, each as often, are as disjoint as before.
proof fn lemma_disjoint_same_items(a: Map<u64, Node>, b: Map<u64, Node>)
    requires
        crate::tarjan::parts_disjoint(a),
        b.dom() == a.dom(),
        forall|k: u64| #[trigger] b.contains_key(k) ==> of_items(b[k].of).to_multiset() == of_items(a[k].of).to_multiset(),
    ensures
        crate::tarjan::parts_disjoint(b),
{
    broadcast use vstd::seq_lib::to_multiset_contains;

    assert forall|k: u64| #[trigger] b.contains_key(k) implies of_items(b[k].of).no_duplicates() by {
        of_items(a[k].of).lemma_multiset_has_no_duplicates();
        of_items(b[k].of).lemma_multiset_has_no_duplicates_conv();
    }
    assert forall|k1: u64, k2: u64, x: u64|
        b.contains_key(k1) && b.contains_key(k2) && k1 != k2 && #[trigger] of_items(b[k1].of).contains(x)
            implies !#[trigger] of_items(b[k2].of).contains(x) by {
        assert(of_items(b[k1].of).to_multiset().count(x) > 0);
        assert(of_items(a[k1].of).contains(x));
        if of_items(b[k2].of).contains(x) {
            assert(of_items(b[k2].of).to_multiset().count(x) > 0);
            assert(of_items(a[k2].of).contains(x));
        }
    }
}

/// Giving node `u`, which reaches `root`, to the part of `root` keeps every
/// part's members reaching its key.
proof fn lemma_members_extend(nodes: Map<u64, Node>, acc: Map<u64, Node>, acc2: Map<u64, Node>, root: u64, u: u64)
    requires
        members_reach(nodes, acc),
        nodes.contains_key(u),
        reaches(nodes, u, root),
        acc2.dom() == acc.dom().insert(root),
        forall|k: u64| #[trigger] acc.contains_key(k) && k != root ==> acc2[k] == acc[k],
        acc.contains_key(root) ==> of_items(acc2[root].of) == of_items(acc[root].of) + of_items(nodes[u].of),
        !acc.contains_key(root) ==> of_items(acc2[root].of) == of_items(nodes[u].of),
        acc.contains_key(root) ==> acc2[root].from@ == acc[root].from@.union(nodes[u].from@),
        !acc.contains_key(root) ==> acc2[root].from@ == nodes[u].from@,
    ensures
        members_reach(nodes, acc2),
{
    assert forall|k: u64, x: u64|
        #![trigger acc2[k], of_items(acc2[k].of).contains(x)]
        acc2.contains_key(k) && of_items(acc2[k].of).contains(x) implies exists|w: u64|
        #[trigger] nodes.contains_key(w) && of_items(nodes[w].of).contains(x) && reaches(nodes, w, k) by {
        if k != root {
            assert(acc.contains_key(k) && of_items(acc[k].of).contains(x));
        } else if acc.contains_key(root) {
            let s = of_items(acc[root].of);
            let e = of_items(nodes[u].of);
            let i = choose|i: int| 0 <= i < (s + e).len() && (s + e)[i] == x;
            if i < s.len() {
                assert(s[i] == x);
                assert(acc.contains_key(root) && of_items(acc[root].of).contains(x));
            } else {
                assert(e[i - s.len()] == x);
                assert(nodes.contains_key(u) && of_items(nodes[u].of).contains(x) && reaches(nodes, u, k));
            }
        } else {
            assert(nodes.contains_key(u) && of_items(nodes[u].of).contains(x) && reaches(nodes, u, k));
        }
    }
    assert forall|k: u64, v: u64|
        #![trigger acc2[k], acc2[k].from@.contains(v)]
        acc2.contains_key(k) && acc2[k].from@.contains(v) implies exists|w: u64|
        #[trigger] nodes.contains_key(w) && nodes[w].from@.contains(v) && reaches(nodes, w, k) by {
        if k != root {
            assert(acc.contains_key(k) && acc[k].from@.contains(v));
        } else if acc.contains_key(root) && acc[root].from@.contains(v) {
        } else {
            assert(nodes.contains_key(u) && nodes[u].from@.contains(v) && reaches(nodes, u, k));
        }
    }
}

/// Parts that hold the same ids and predecessors keep their members
/// reaching their keys.
proof fn lemma_members_same_items(nodes: Map<u64, Node>, a: Map<u64, Node>, b: Map<u64, Node>)
    requires
        members_reach(nodes, a),
        b.dom() == a.dom(),
        forall|k: u64| #[trigger] b.contains_key(k) ==> {
            &&& b[k].from == a[k].from
            &&& of_items(b[k].of).to_multiset() == of_items(a[k].of).to_multiset()
        },
    ensures
        members_reach(nodes, b),
{
    broadcast use vstd::seq_lib::to_multiset_contains;

    assert forall|k: u64, x: u64|
        #![trigger b[k], of_items(b[k].of).contains(x)]
        b.contains_key(k) && of_items(b[k].of).contains(x) implies exists|w: u64|
        #[trigger] nodes.contains_key(w) && of_items(nodes[w].of).contains(x) && reaches(nodes, w, k) by {
        assert(of_items(b[k].of).to_multiset().count(x) > 0);
        assert(a.contains_key(k) && of_items(a[k].of).contains(x));
    }
    assert forall|k: u64, v: u64|
        #![trigger b[k], b[k].from@.contains(v)]
        b.contains_key(k) && b[k].from@.contains(v) implies exists|w: u64|
        #[trigger] nodes.contains_key(w) && nodes[w].from@.contains(v) && reaches(nodes, w, k) by {
        assert(a.contains_key(k) && a[k].from@.contains(v));
    }
}

/// Gives `u`, and everything with an edge into the part of `root`, that
/// is not assigned yet, to the part of `root`.
fn assign(graph: &Graph, acc: &mut BTreeMap<u64, Node>, assigned: &mut BTreeSet<u64>, u: u64, root: u64)
    requires
        graph.wf(),
        graph.edges_closed(),
        graph.nodes@.contains_key(u),
        old(assigned)@.subset_of(graph.nodes@.dom()),
        parts_ok(graph.nodes@, old(acc)@),
        covered(old(acc)@) == covered_by(graph.nodes@, old(assigned)@),
        !old(acc)@.contains_key(root) ==> u == root,
        crate::tarjan::parts_disjoint(graph.nodes@) ==> crate::tarjan::parts_disjoint(old(acc)@),
        members_reach(graph.nodes@, old(acc)@),
        reaches(graph.nodes@, u, root),
    ensures
        crate::tarjan::parts_disjoint(graph.nodes@) ==> crate::tarjan::parts_disjoint(final(acc)@),
        members_reach(graph.nodes@, final(acc)@),
        old(assigned)@.subset_of(final(assigned)@),
        final(assigned)@.subset_of(graph.nodes@.dom()),
        final(assigned)@.contains(u),
        parts_ok(graph.nodes@, final(acc)@),
        covered(final(acc)@) == covered_by(graph.nodes@, final(assigned)@),
        final(acc)@.dom() == if old(assigned)@.contains(u) {
            old(acc)@.dom()
        } else {
            old(acc)@.dom().insert(root)
        },
        old(assigned)@.contains(u) ==> final(assigned)@ == old(assigned)@ && final(acc)@ == old(acc)@,
        forall|y: u64| #[trigger]
            final(assigned)@.contains(y) && !old(assigned)@.contains(y) ==> graph.nodes@[y].from@.subset_of(
                final(assigned)@,
            ),
        forall|y: u64, x: u64|
            #![trigger final(assigned)@.contains(y), of_items(graph.nodes@[y].of).contains(x)]
            final(assigned)@.contains(y) && !old(assigned)@.contains(y) && of_items(graph.nodes@[y].of).contains(x)
                ==> of_items(final(acc)@[root].of).contains(x),
        forall|k: u64| #[trigger] old(acc)@.contains_key(k) && k != root ==> final(acc)@[k] == old(acc)@[k],
        old(acc)@.contains_key(root) ==> forall|x: u64| #[trigger]
            of_items(old(acc)@[root].of).contains(x) ==> of_items(final(acc)@[root].of).contains(x),
    decreases graph.nodes@.dom().difference(old(assigned)@).len(),
{
    let ghost a0 = assigned@;
    let ghost acc0 = acc@;
    if !assigned.insert(u) {
        proof {
            assert(assigned@ =~= a0);
        }
        return ;
    }
    let u_ref = graph.nodes.get(&u).unwrap();
    proof {
        assert(u_ref.wf());
        assert forall|x: u64| u_ref.to@.contains(x) implies graph.nodes@.contains_key(x) by {}
        assert forall|x: u64| u_ref.from@.contains(x) implies graph.nodes@.contains_key(x) by {}
    }
    if acc.contains_key(&root) {
        let mut node = acc.remove(&root).unwrap();
        let mut ofcopy = u_ref.of.clone();
        node.of.append(&mut ofcopy);
        node.to.union(&u_ref.to);
        node.from.union(&u_ref.from);
        node.id = if node.id < u {
            node.id
        } else {
            u
        };
        acc.insert(root, node);
    } else {
        acc.insert(root, u_ref.clone());
    }
    proof {
        assert(acc@.dom() =~= acc0.dom().insert(root));
        lemma_covered_extend(acc0, acc@, root, of_items(u_ref.of));
        assert(covered_by(graph.nodes@, assigned@) =~= covered_by(graph.nodes@, a0) + of_items(u_ref.of).to_set()) by {
            assert forall|x: u64| covered_by(graph.nodes@, assigned@).contains(x) <==> (covered_by(graph.nodes@, a0) + of_items(u_ref.of).to_set()).contains(x) by {
                if covered_by(graph.nodes@, assigned@).contains(x) {
                    let w = choose|w: u64| assigned@.contains(w) && #[trigger] of_items(graph.nodes@[w].of).contains(x);
                    if w != u {
                        assert(a0.contains(w));
                    }
                }
            }
        }
        assert(parts_ok(graph.nodes@, acc@));
        if crate::tarjan::parts_disjoint(graph.nodes@) {
            let extra = of_items(u_ref.of);
            assert forall|x: u64| #[trigger] extra.contains(x) implies !covered(acc0).contains(x) by {
                if covered(acc0).contains(x) {
                    assert(covered_by(graph.nodes@, a0).contains(x));
                    let w = choose|w: u64| a0.contains(w) && #[trigger] of_items(graph.nodes@[w].of).contains(x);
                    assert(w != u);
                    assert(graph.nodes@.contains_key(w));
                }
            }
            lemma_disjoint_extend(acc0, acc@, root, extra);
        }
        lemma_members_extend(graph.nodes@, acc0, acc@, root, u);
        let extra = of_items(u_ref.of);
        assert forall|x: u64| #[trigger] extra.contains(x) implies of_items(acc@[root].of).contains(x) by {
            let i = choose|i: int| 0 <= i < extra.len() && extra[i] == x;
            if acc0.contains_key(root) {
                let s0 = of_items(acc0[root].of);
                assert((s0 + extra)[s0.len() + i] == x);
            }
        }
        if acc0.contains_key(root) {
            assert forall|x: u64| #[trigger] of_items(acc0[root].of).contains(x) implies of_items(acc@[root].of).contains(
                x,
            ) by {
                let s0 = of_items(acc0[root].of);
                let i = choose|i: int| 0 <= i < s0.len() && s0[i] == x;
                assert((s0 + extra)[i] == x);
            }
        }
        assert(u_ref.from@.subset_of(acc@[root].from@));
    }
    let from = acc.get(&root).unwrap().from.iter();
    proof {
        assert forall|a: int| 0 <= a < from@.len() implies reaches(graph.nodes@, #[trigger] from@[a], root) by {
            assert(from@.to_set().contains(from@[a]));
            assert(acc@[root].from@.contains(from@[a]));
            let w = choose|w: u64|
                #[trigger] graph.nodes@.contains_key(w) && graph.nodes@[w].from@.contains(from@[a]) && reaches(
                    graph.nodes@,
                    w,
                    root,
                );
            assert(graph.nodes@.contains_key(from@[a]));
            lemma_reaches_pred(graph.nodes@, from@[a], w, root);
        }
    }
    let mut j: usize = 0;
    while j < from.len()
        invariant
            0 <= j <= from@.len(),
            graph.wf(),
            graph.edges_closed(),
            a0 == old(assigned)@,
            !a0.contains(u),
            graph.nodes@.contains_key(u),
            a0.insert(u).subset_of(assigned@),
            assigned@.subset_of(graph.nodes@.dom()),
            forall|a: int| 0 <= a < from@.len() ==> graph.nodes@.contains_key(#[trigger] from@[a]),
            parts_ok(graph.nodes@, acc@),
            covered(acc@) == covered_by(graph.nodes@, assigned@),
            acc@.dom() == acc0.dom().insert(root),
            crate::tarjan::parts_disjoint(graph.nodes@) ==> crate::tarjan::parts_disjoint(acc@),
            members_reach(graph.nodes@, acc@),
            forall|a: int| 0 <= a < from@.len() ==> reaches(graph.nodes@, #[trigger] from@[a], root),
            graph.nodes@[u].from@.subset_of(from@.to_set()),
            forall|a: int| 0 <= a < j ==> assigned@.contains(#[trigger] from@[a]),
            acc@.contains_key(root),
            forall|k: u64| #[trigger] acc0.contains_key(k) && k != root ==> acc@[k] == acc0[k],
            forall|x: u64| #[trigger]
                of_items(graph.nodes@[u].of).contains(x) ==> of_items(acc@[root].of).contains(x),
            acc0.contains_key(root) ==> forall|x: u64| #[trigger]
                of_items(acc0[root].of).contains(x) ==> of_items(acc@[root].of).contains(x),
            forall|y: u64| #[trigger]
                assigned@.contains(y) && !a0.contains(y) && y != u ==> graph.nodes@[y].from@.subset_of(assigned@),
            forall|y: u64, x: u64|
                #![trigger assigned@.contains(y), of_items(graph.nodes@[y].of).contains(x)]
                assigned@.contains(y) && !a0.contains(y) && of_items(graph.nodes@[y].of).contains(x)
                    ==> of_items(acc@[root].of).contains(x),
        decreases from@.len() - j,
    {
        let v = from[j];
        proof {
            broadcast use vstd::std_specs::btree::group_btree_axioms;

            lemma_fewer_unvisited(graph.nodes@.dom(), a0, assigned@, u);
        }
        let ghost ab = assigned@;
        let ghost accb = acc@;
        assign(graph, acc, assigned, v, root);
        proof {
            assert(acc@.dom() =~= acc0.dom().insert(root));
            assert forall|y: u64| #[trigger]
                assigned@.contains(y) && !a0.contains(y) && y != u implies graph.nodes@[y].from@.subset_of(assigned@) by {
                if ab.contains(y) {
                    assert(graph.nodes@[y].from@.subset_of(ab));
                }
            }
            assert forall|y: u64, x: u64|
                #![trigger assigned@.contains(y), of_items(graph.nodes@[y].of).contains(x)]
                assigned@.contains(y) && !a0.contains(y) && of_items(graph.nodes@[y].of).contains(x)
                    implies of_items(acc@[root].of).contains(x) by {
                if ab.contains(y) {
                    assert(of_items(accb[root].of).contains(x));
                }
            }
            assert forall|k: u64| #[trigger] acc0.contains_key(k) && k != root implies acc@[k] == acc0[k] by {
                assert(accb.contains_key(k));
            }
            assert forall|a: int| 0 <= a < j + 1 implies assigned@.contains(#[trigger] from@[a]) by {
                if a < j {
                    assert(ab.contains(from@[a]));
                }
            }
        }
        j = j + 1;
    }
    proof {
        assert forall|w: u64| graph.nodes@[u].from@.contains(w) implies assigned@.contains(w) by {
            assert(from@.to_set().contains(w));
            let a = choose|a: int| 0 <= a < from@.len() && from@[a] == w;
            assert(assigned@.contains(from@[a]));
        }
    }
}

/// The least id of a list comes first after sorting it.
fn sort_of(node: &mut Node)
    ensures
        final(node).id == old(node).id,
        final(node).from == old(node).from,
        final(node).to == old(node).to,
        of_items(final(node).of).to_multiset() == of_items(old(node).of).to_multiset(),
        forall|i: int, j: int|
            0 <= i < j < of_items(final(node).of).len() ==> #[trigger] of_items(final(node).of)[i]
                <= #[trigger] of_items(final(node).of)[j],
{
    node.of.sort_unstable();
}

/// The ids of each node, in ascending order.
pub open spec fn parts_sorted(acc: Map<u64, Node>) -> bool {
    forall|k: u64, i: int, j: int|
        #![trigger acc[k], of_items(acc[k].of)[i], of_items(acc[k].of)[j]]
        acc.contains_key(k) && 0 <= i < j < of_items(acc[k].of).len() ==> of_items(acc[k].of)[i]
            <= of_items(acc[k].of)[j]
}

/// Every predecessor of a node in `a` is in `a`.
pub open spec fn pred_closed(nodes: Map<u64, Node>, a: Set<u64>) -> bool {
    forall|y: u64, v: u64| #![trigger a.contains(y), nodes[y].from@.contains(v)]
        a.contains(y) && nodes[y].from@.contains(v) ==> a.contains(v)
}

/// Every id of `n` is an id of `part`.
pub open spec fn holds_all(part: Node, n: Node) -> bool {
    forall|x: u64| #[trigger] of_items(n.of).contains(x) ==> of_items(part.of).contains(x)
}

/// Two nodes that reach each other have all their ids in one part.
pub open spec fn parts_complete(nodes: Map<u64, Node>, acc: Map<u64, Node>) -> bool {
    forall|y: u64, z: u64|
        #![trigger reaches(nodes, y, z), reaches(nodes, z, y)]
        nodes.contains_key(y) && nodes.contains_key(z) && reaches(nodes, y, z) && reaches(nodes, z, y) ==> exists|
            k: u64,
        | #[trigger] acc.contains_key(k) && holds_all(acc[k], nodes[y]) && holds_all(acc[k], nodes[z])
}

/// A walk that ends in a set closed under predecessors lies in it.
proof fn lemma_closed_back(nodes: Map<u64, Node>, a: Set<u64>, p: Seq<u64>, i: int)
    requires
        is_walk(nodes, p),
        a.contains(p.last()),
        pred_closed(nodes, a),
        0 <= i < p.len(),
    ensures
        a.contains(p[i]),
    decreases p.len() - i,
{
    if i < p.len() - 1 {
        lemma_closed_back(nodes, a, p, i + 1);
        assert(nodes[p[i + 1]].from@.contains(p[i]));
    }
}

/// A node that reaches a node of a set closed under predecessors is in it.
proof fn lemma_closed_reach_back(nodes: Map<u64, Node>, a: Set<u64>, y: u64, z: u64)
    requires
        pred_closed(nodes, a),
        reaches(nodes, y, z),
        a.contains(z),
    ensures
        a.contains(y),
{
    let p = choose|p: Seq<u64>| #[trigger] is_walk(nodes, p) && p[0] == y && p.last() == z;
    lemma_closed_back(nodes, a, p, 0);
}

impl Graph {
    /// Find strongly connected components in a graph. Return them as a map
    /// of original id to new nodes
    pub fn kosaraju(&self) -> (acc: BTreeMap<u64, Node>)
        requires
            self.wf(),
            self.edges_closed(),
        ensures
            parts_ok(self.nodes@, acc@),
            covered(acc@) == covered(self.nodes@),
            parts_sorted(acc@),
            crate::tarjan::parts_disjoint(self.nodes@) ==> crate::tarjan::parts_disjoint(acc@),
            members_reach(self.nodes@, acc@),
            parts_complete(self.nodes@, acc@),
    {
        let mut l: Vec<u64> = Vec::new();
        let mut visited: BTreeSet<u64> = BTreeSet::new();
        let mut assigned: BTreeSet<u64> = BTreeSet::new();
        let mut acc: BTreeMap<u64, Node> = BTreeMap::new();
        let ks = crate::graph::sorted_keys(&self.nodes);
        let mut i: usize = 0;
        while i < ks.len()
            invariant
                0 <= i <= ks@.len(),
                self.wf(),
                self.edges_closed(),
                ks@.to_set() == self.nodes@.dom(),
                visited@.subset_of(self.nodes@.dom()),
                l@.to_set() == visited@,
                l@.no_duplicates(),
                forall|a: int| 0 <= a < i ==> visited@.contains(#[trigger] ks@[a]),
            decreases ks@.len() - i,
        {
            let u = ks[i];
            assert(ks@.to_set().contains(u));
            let ghost lb = l@;
            let ghost vb = visited@;
            visit(self, &mut visited, &mut l, u);
            proof {
                let d = l@.subrange(lb.len() as int, l@.len() as int);
                assert(l@ =~= lb + d);
                assert forall|x: u64| l@.to_set().contains(x) <==> visited@.contains(x) by {
                    if l@.to_set().contains(x) {
                        let a = choose|a: int| 0 <= a < l@.len() && l@[a] == x;
                        if a < lb.len() {
                            assert(lb[a] == x);
                            assert(lb.to_set().contains(x));
                        } else {
                            assert(d[a - lb.len()] == x);
                            assert(d.to_set().contains(x));
                        }
                    }
                    if visited@.contains(x) {
                        if vb.contains(x) {
                            assert(lb.to_set().contains(x));
                            let a = choose|a: int| 0 <= a < lb.len() && lb[a] == x;
                            assert(l@[a] == x);
                        } else {
                            assert(d.to_set().contains(x));
                            let a = choose|a: int| 0 <= a < d.len() && d[a] == x;
                            assert(l@[lb.len() + a] == x);
                        }
                    }
                }
                assert(l@.to_set() =~= visited@);
                assert(l@.no_duplicates()) by {
                    assert forall|a: int, b: int| 0 <= a < b < l@.len() implies l@[a] != l@[b] by {
                        if a < lb.len() && b >= lb.len() {
                            assert(lb.to_set().contains(lb[a]));
                            assert(d.to_set().contains(d[b - lb.len()]));
                        } else if a >= lb.len() {
                            assert(d[a - lb.len()] != d[b - lb.len()]);
                        }
                    }
                }
            }
            i = i + 1;
        }
        proof {
            assert forall|x: u64| self.nodes@.contains_key(x) implies visited@.contains(x) by {
                assert(ks@.to_set().contains(x));
                let a = choose|a: int| 0 <= a < ks@.len() && ks@[a] == x;
                assert(visited@.contains(ks@[a]));
            }
            assert(visited@ =~= self.nodes@.dom());
            assert(covered(acc@) =~= covered_by(self.nodes@, assigned@));
        }
        let mut i = l.len();
        let ghost mut owner: Map<u64, u64> = Map::empty();
        proof {
            assert(owner.dom() =~= assigned@);
        }
        while i > 0
            invariant
                owner.dom() == assigned@,
                forall|y: u64| #[trigger] owner.contains_key(y) ==> acc@.contains_key(owner[y]),
                pred_closed(self.nodes@, assigned@),
                forall|y: u64, x: u64|
                    #![trigger owner[y], of_items(self.nodes@[y].of).contains(x)]
                    owner.contains_key(y) && of_items(self.nodes@[y].of).contains(x) ==> acc@.contains_key(owner[y])
                        && of_items(acc@[owner[y]].of).contains(x),
                forall|y: u64, z: u64|
                    #![trigger owner[y], owner[z]]
                    owner.contains_key(y) && owner.contains_key(z) && reaches(self.nodes@, y, z) && reaches(
                        self.nodes@,
                        z,
                        y,
                    ) ==> owner[y] == owner[z],
                0 <= i <= l@.len(),
                self.wf(),
                self.edges_closed(),
                l@.to_set() == self.nodes@.dom(),
                assigned@.subset_of(self.nodes@.dom()),
                parts_ok(self.nodes@, acc@),
                covered(acc@) == covered_by(self.nodes@, assigned@),
                forall|a: int| i <= a < l@.len() ==> assigned@.contains(#[trigger] l@[a]),
                crate::tarjan::parts_disjoint(self.nodes@) ==> crate::tarjan::parts_disjoint(acc@),
                members_reach(self.nodes@, acc@),
            decreases i,
        {
            i = i - 1;
            let u = l[i];
            proof {
                assert(l@.to_set().contains(u));
            }
            let ghost ab = assigned@;
            proof {
                lemma_reaches_self(self.nodes@, u);
            }
            let ghost accb = acc@;
            assign(self, &mut acc, &mut assigned, u, u);
            proof {
                assert forall|a: int| i <= a < l@.len() implies assigned@.contains(#[trigger] l@[a]) by {
                    if a > i {
                        assert(ab.contains(l@[a]));
                    }
                }
                if !ab.contains(u) {
                    let ob = owner;
                    owner = Map::new(|y: u64| assigned@.contains(y), |y: u64| if ab.contains(y) { ob[y] } else { u });
                    assert(owner.dom() =~= assigned@);
                    assert forall|y: u64| #[trigger] owner.contains_key(y) implies acc@.contains_key(owner[y]) by {
                        if ab.contains(y) {
                            assert(accb.contains_key(ob[y]));
                        }
                    }
                    assert forall|y: u64, v: u64| #![trigger assigned@.contains(y), self.nodes@[y].from@.contains(v)]
                        assigned@.contains(y) && self.nodes@[y].from@.contains(v) implies assigned@.contains(v) by {
                        if ab.contains(y) {
                            assert(ab.contains(v));
                        } else {
                            assert(self.nodes@[y].from@.subset_of(assigned@));
                        }
                    }
                    assert forall|y: u64, x: u64|
                        #![trigger owner[y], of_items(self.nodes@[y].of).contains(x)]
                        owner.contains_key(y) && of_items(self.nodes@[y].of).contains(x) implies acc@.contains_key(owner[y])
                            && of_items(acc@[owner[y]].of).contains(x) by {
                        if ab.contains(y) {
                            let k = ob[y];
                            assert(accb.contains_key(k) && of_items(accb[k].of).contains(x));
                            if k != u {
                                assert(acc@[k] == accb[k]);
                            }
                        } else {
                            assert(assigned@.contains(y));
                        }
                    }
                    assert forall|y: u64, z: u64|
                        #![trigger owner[y], owner[z]]
                        owner.contains_key(y) && owner.contains_key(z) && reaches(self.nodes@, y, z) && reaches(
                            self.nodes@,
                            z,
                            y,
                        ) implies owner[y] == owner[z] by {
                        if ab.contains(y) && !ab.contains(z) {
                            lemma_closed_reach_back(self.nodes@, ab, z, y);
                        } else if !ab.contains(y) && ab.contains(z) {
                            lemma_closed_reach_back(self.nodes@, ab, y, z);
                        } else if ab.contains(y) && ab.contains(z) {
                            assert(ob[y] == ob[z]);
                        }
                    }
                }
            }
        }
        proof {
            assert forall|x: u64| self.nodes@.contains_key(x) implies assigned@.contains(x) by {
                assert(l@.to_set().contains(x));
                let a = choose|a: int| 0 <= a < l@.len() && l@[a] == x;
                assert(assigned@.contains(l@[a]));
            }
            assert(assigned@ =~= self.nodes@.dom());
            assert(covered_by(self.nodes@, assigned@) =~= covered(self.nodes@));
        }
        let keys = crate::graph::sorted_keys(&acc);
        let ghost acc_unsorted = acc@;
        let mut j: usize = 0;
        while j < keys.len()
            invariant
                0 <= j <= keys@.len(),
                keys@.to_set() == acc_unsorted.dom(),
                keys@.no_duplicates(),
                acc@.dom() == acc_unsorted.dom(),
                forall|k: u64| #[trigger] acc@.contains_key(k) ==> {
                    &&& acc@[k].from == acc_unsorted[k].from
                    &&& acc@[k].to == acc_unsorted[k].to
                    &&& of_items(acc@[k].of).to_multiset() == of_items(acc_unsorted[k].of).to_multiset()
                },
                forall|a: int| j <= a < keys@.len() ==> #[trigger] acc@[keys@[a]] == acc_unsorted[keys@[a]],
                crate::tarjan::parts_disjoint(self.nodes@) ==> crate::tarjan::parts_disjoint(acc_unsorted),
                members_reach(self.nodes@, acc_unsorted),
                forall|a: int, i1: int, i2: int|
                    #![trigger keys@[a], of_items(acc@[keys@[a]].of)[i1], of_items(acc@[keys@[a]].of)[i2]]
                    0 <= a < j && 0 <= i1 < i2 < of_items(acc@[keys@[a]].of).len() ==> of_items(
                        acc@[keys@[a]].of,
                    )[i1] <= of_items(acc@[keys@[a]].of)[i2],
            decreases keys@.len() - j,
        {
            let key = keys[j];
            assert(keys@.to_set().contains(key));
            let mut node = acc.remove(&key).unwrap();
            sort_of(&mut node);
            acc.insert(key, node);
            proof {
                assert(acc@.dom() =~= acc_unsorted.dom());
                assert forall|a: int| j + 1 <= a < keys@.len() implies #[trigger] acc@[keys@[a]] == acc_unsorted[keys@[a]] by {
                    assert(keys@[a] != keys@[j as int]);
                }
                assert forall|a: int, i1: int, i2: int|
                    #![trigger keys@[a], of_items(acc@[keys@[a]].of)[i1], of_items(acc@[keys@[a]].of)[i2]]
                    0 <= a < j + 1 && 0 <= i1 < i2 < of_items(acc@[keys@[a]].of).len() implies of_items(
                        acc@[keys@[a]].of,
                    )[i1] <= of_items(acc@[keys@[a]].of)[i2] by {
                    if a < j {
                        assert(keys@[a] != keys@[j as int]);
                    }
                }
            }
            j = j + 1;
        }
        proof {
            assert forall|k: u64| #[trigger] acc@.contains_key(k) implies {
                &&& acc@[k].wf()
                &&& acc@[k].to@.subset_of(self.nodes@.dom())
                &&& acc@[k].from@.subset_of(self.nodes@.dom())
            } by {
                assert(acc_unsorted.contains_key(k));
            }
            assert forall|x: u64| covered(acc@).contains(x) <==> covered(acc_unsorted).contains(x) by {
                broadcast use vstd::seq_lib::to_multiset_contains;

                if covered(acc@).contains(x) {
                    let k = choose|k: u64| acc@.contains_key(k) && #[trigger] of_items(acc@[k].of).contains(x);
                    assert(of_items(acc@[k].of).to_multiset().count(x) > 0);
                    assert(of_items(acc_unsorted[k].of).contains(x));
                }
                if covered(acc_unsorted).contains(x) {
                    let k = choose|k: u64| acc_unsorted.contains_key(k) && #[trigger] of_items(acc_unsorted[k].of).contains(x);
                    assert(of_items(acc_unsorted[k].of).to_multiset().count(x) > 0);
                    assert(of_items(acc@[k].of).contains(x));
                }
            }
            assert(covered(acc@) =~= covered(acc_unsorted));
            if crate::tarjan::parts_disjoint(self.nodes@) {
                lemma_disjoint_same_items(acc_unsorted, acc@);
            }
            lemma_members_same_items(self.nodes@, acc_unsorted, acc@);
            assert forall|y: u64, z: u64|
                #![trigger reaches(self.nodes@, y, z), reaches(self.nodes@, z, y)]
                self.nodes@.contains_key(y) && self.nodes@.contains_key(z) && reaches(self.nodes@, y, z) && reaches(
                    self.nodes@,
                    z,
                    y,
                ) implies exists|k: u64| #[trigger]
                acc@.contains_key(k) && holds_all(acc@[k], self.nodes@[y]) && holds_all(acc@[k], self.nodes@[z]) by {
                broadcast use vstd::seq_lib::to_multiset_contains;

                assert(owner.contains_key(y) && owner.contains_key(z));
                assert(owner[y] == owner[z]);
                let k = owner[y];
                assert forall|x: u64| #[trigger] of_items(self.nodes@[y].of).contains(x) implies of_items(
                    acc@[k].of,
                ).contains(x) by {
                    assert(acc_unsorted.contains_key(k) && of_items(acc_unsorted[k].of).contains(x));
                    assert(of_items(acc_unsorted[k].of).to_multiset().count(x) > 0);
                }
                assert forall|x: u64| #[trigger] of_items(self.nodes@[z].of).contains(x) implies of_items(
                    acc@[k].of,
                ).contains(x) by {
                    assert(acc_unsorted.contains_key(k) && of_items(acc_unsorted[k].of).contains(x));
                    assert(of_items(acc_unsorted[k].of).to_multiset().count(x) > 0);
                }
                assert(acc_unsorted.contains_key(k));
                assert(acc@.contains_key(k));
            }
            assert forall|k: u64, i1: int, i2: int|
                acc@.contains_key(k) && 0 <= i1 < i2 < of_items(acc@[k].of).len() implies #[trigger] of_items(acc@[k].of)[i1]
                <= #[trigger] of_items(acc@[k].of)[i2] by {
                assert(keys@.to_set().contains(k));
                let a = choose|a: int| 0 <= a < keys@.len() && keys@[a] == k;
                assert(of_items(acc@[keys@[a]].of)[i1] <= of_items(acc@[keys@[a]].of)[i2]);
            }
        }
        acc
    }
}

/// `nn` is the graph of the parts `scc`, with every edge end renamed by
/// `nid` to the id of a part that holds it, and edges within a part
/// dropped. `nid` sends each id that a part holds to the id of such a
/// part.
pub open spec fn dag_of(scc: Map<u64, Node>, nid: Map<u64, u64>, nn: Map<u64, Node>) -> bool {
    &&& nid.dom() == covered(scc)
    &&& forall|x: u64| #[trigger]
        nid.contains_key(x) ==> exists|k: u64|
            scc.contains_key(k) && #[trigger] of_items(scc[k].of).contains(x) && nid[x] == scc[k].id
    &&& forall|k: u64| #[trigger] scc.contains_key(k) ==> nn.contains_key(scc[k].id)
    &&& forall|j: u64| #[trigger]
        nn.contains_key(j) ==> exists|k: u64|
            #![trigger scc[k]]
            scc.contains_key(k) && scc[k].id == j && nn[j].id == j && of_items(nn[j].of) == of_items(scc[k].of)
                && nn[j].to@ == scc[k].to@.map(|x: u64| nid[x]).remove(j) && nn[j].from@ == scc[k].from@.map(
                |x: u64| nid[x],
            ).remove(j)
}

/// The edges of a set renamed by `nid`, without `own`.
fn renamed_without(set: &SmallU64Set, new_ids: &BTreeMap<u64, u64>, own: u64) -> (r: SmallU64Set)
    requires
        set.wf(),
        set@.subset_of(new_ids@.dom()),
    ensures
        r.wf(),
        r@ == set@.map(|x: u64| new_ids@[x]).remove(own),
{
    let items = set.iter();
    let mut r = SmallU64Set::new();
    let mut j: usize = 0;
    while j < items.len()
        invariant
            0 <= j <= items@.len(),
            items@.to_set() == set@,
            set@.subset_of(new_ids@.dom()),
            r.wf(),
            r@ == items@.take(j as int).to_set().map(|x: u64| new_ids@[x]).remove(own),
        decreases items@.len() - j,
    {
        let x = items[j];
        assert(items@.to_set().contains(x));
        let y = *new_ids.get(&x).unwrap();
        if y != own {
            r.insert(y);
        }
        proof {
            let f = |x: u64| new_ids@[x];
            assert(items@.take(j + 1) =~= items@.take(j as int).push(x));
            items@.take(j as int).lemma_push_to_set_commute(x);
            items@.take(j as int).to_set().lemma_set_map_insert_commute(x, f);
            assert(r@ =~= items@.take(j + 1).to_set().map(f).remove(own));
        }
        j = j + 1;
    }
    assert(items@.take(items@.len() as int) =~= items@);
    r
}

/// The graph of the parts `scc`: one node per part, named by its id, with
/// the edges between parts.
pub fn connect_dag(strongly_connected_components: BTreeMap<u64, Node>) -> (g: Graph)
    requires
        forall|k: u64| #[trigger]
            strongly_connected_components@.contains_key(k) ==> strongly_connected_components@[k].wf(),
        forall|k: u64, x: u64|
            #![trigger strongly_connected_components@[k].to@.contains(x)]
            #![trigger strongly_connected_components@[k].from@.contains(x)]
            strongly_connected_components@.contains_key(k) && (
            strongly_connected_components@[k].to@.contains(x)
                || strongly_connected_components@[k].from@.contains(x)) ==> covered(
                strongly_connected_components@,
            ).contains(x),
    ensures
        g.merges@ == Map::<u64, u64>::empty(),
        exists|nid: Map<u64, u64>| #[trigger] dag_of(strongly_connected_components@, nid, g.nodes@),
{
    let scc = strongly_connected_components;
    let keys = crate::graph::sorted_keys(&scc);
    let mut new_ids: BTreeMap<u64, u64> = BTreeMap::new();
    let mut i: usize = 0;
    while i < keys.len()
        invariant
            0 <= i <= keys@.len(),
            keys@.to_set() == scc@.dom(),
            forall|x: u64| #[trigger]
                new_ids@.contains_key(x) <==> exists|a: int|
                    0 <= a < i && #[trigger] of_items(scc@[keys@[a]].of).contains(x),
            forall|x: u64| #[trigger]
                new_ids@.contains_key(x) ==> exists|k: u64|
                    scc@.contains_key(k) && #[trigger] of_items(scc@[k].of).contains(x) && new_ids@[x]
                        == scc@[k].id,
        decreases keys@.len() - i,
    {
        let k = keys[i];
        assert(keys@.to_set().contains(k));
        let n = scc.get(&k).unwrap();
        let ofv = n.of.to_vec();
        let mut j: usize = 0;
        let ghost before = new_ids@;
        while j < ofv.len()
            invariant
                0 <= j <= ofv@.len(),
                ofv@ == of_items(scc@[k].of),
                scc@.contains_key(k),
                n == scc@[k],
                forall|x: u64| #[trigger]
                    new_ids@.contains_key(x) <==> (before.contains_key(x) || ofv@.take(j as int).contains(x)),
                forall|x: u64| #[trigger]
                    new_ids@.contains_key(x) ==> exists|k2: u64|
                        scc@.contains_key(k2) && #[trigger] of_items(scc@[k2].of).contains(x) && new_ids@[x]
                            == scc@[k2].id,
            decreases ofv@.len() - j,
        {
            let x = ofv[j];
            new_ids.insert(x, n.id);
            proof {
                assert(ofv@.take(j + 1) =~= ofv@.take(j as int).push(x));
                assert forall|y: u64| #[trigger]
                    new_ids@.contains_key(y) <==> (before.contains_key(y) || ofv@.take(j + 1).contains(y)) by {
                    let t0 = ofv@.take(j as int);
                    let t1 = ofv@.take(j + 1);
                    if t1.contains(y) && y != x {
                        let a = choose|a: int| 0 <= a < t1.len() && #[trigger] t1[a] == y;
                        assert(t0[a] == y);
                    }
                    if t0.contains(y) {
                        let a = choose|a: int| 0 <= a < t0.len() && #[trigger] t0[a] == y;
                        assert(t1[a] == y);
                    }
                    if y == x {
                        assert(t1[j as int] == y);
                    }
                }
                assert(of_items(scc@[k].of).contains(x)) by {
                    assert(ofv@[j as int] == x);
                }
                assert forall|y: u64| #[trigger] new_ids@.contains_key(y) implies exists|k2: u64|
                    scc@.contains_key(k2) && #[trigger] of_items(scc@[k2].of).contains(y) && new_ids@[y]
                        == scc@[k2].id by {
                    if y == x {
                        assert(scc@.contains_key(k) && of_items(scc@[k].of).contains(y) && new_ids@[y] == scc@[k].id);
                    }
                }
            }
            j = j + 1;
        }
        proof {
            assert(ofv@.take(ofv@.len() as int) =~= ofv@);
            assert forall|x: u64| #[trigger]
                new_ids@.contains_key(x) <==> exists|a: int|
                    0 <= a < i + 1 && #[trigger] of_items(scc@[keys@[a]].of).contains(x) by {
                if new_ids@.contains_key(x) && !before.contains_key(x) {
                    assert(of_items(scc@[keys@[i as int]].of).contains(x));
                }
                if exists|a: int| 0 <= a < i + 1 && #[trigger] of_items(scc@[keys@[a]].of).contains(x) {
                    let a = choose|a: int| 0 <= a < i + 1 && #[trigger] of_items(scc@[keys@[a]].of).contains(x);
                    if a == i {
                        assert(ofv@.take(ofv@.len() as int).contains(x));
                    } else {
                        assert(before.contains_key(x));
                    }
                }
            }
        }
        i = i + 1;
    }
    let ghost nid = new_ids@;
    proof {
        assert forall|x: u64| nid.contains_key(x) <==> covered(scc@).contains(x) by {
            if nid.contains_key(x) {
                let a = choose|a: int| 0 <= a < keys@.len() && #[trigger] of_items(scc@[keys@[a]].of).contains(x);
                assert(keys@.to_set().contains(keys@[a]));
                assert(scc@.contains_key(keys@[a]) && of_items(scc@[keys@[a]].of).contains(x));
            }
            if covered(scc@).contains(x) {
                let k = choose|k: u64| scc@.contains_key(k) && #[trigger] of_items(scc@[k].of).contains(x);
                assert(keys@.to_set().contains(k));
                let a = choose|a: int| 0 <= a < keys@.len() && keys@[a] == k;
                assert(of_items(scc@[keys@[a]].of).contains(x));
            }
        }
        assert(nid.dom() =~= covered(scc@));
    }
    let mut out: BTreeMap<u64, Node> = BTreeMap::new();
    let mut i: usize = 0;
    while i < keys.len()
        invariant
            0 <= i <= keys@.len(),
            keys@.to_set() == scc@.dom(),
            new_ids@ == nid,
            nid.dom() == covered(scc@),
            forall|k: u64| #[trigger] scc@.contains_key(k) ==> scc@[k].wf(),
            forall|k: u64, x: u64|
                #![trigger scc@[k].to@.contains(x)]
                #![trigger scc@[k].from@.contains(x)]
                scc@.contains_key(k) && (scc@[k].to@.contains(x) || scc@[k].from@.contains(x)) ==> covered(
                    scc@,
                ).contains(x),
            forall|a: int| 0 <= a < i ==> out@.contains_key(#[trigger] scc@[keys@[a]].id),
            forall|j: u64| #[trigger]
                out@.contains_key(j) ==> exists|k: u64|
                    #![trigger scc@[k]]
                    scc@.contains_key(k) && scc@[k].id == j && out@[j].id == j && of_items(out@[j].of)
                        == of_items(scc@[k].of) && out@[j].to@ == scc@[k].to@.map(|x: u64| nid[x]).remove(j)
                        && out@[j].from@ == scc@[k].from@.map(|x: u64| nid[x]).remove(j),
        decreases keys@.len() - i,
    {
        let k = keys[i];
        assert(keys@.to_set().contains(k));
        let n = scc.get(&k).unwrap();
        proof {
            assert forall|x: u64| n.from@.contains(x) implies new_ids@.contains_key(x) by {}
            assert forall|x: u64| n.to@.contains(x) implies new_ids@.contains_key(x) by {}
        }
        let from = renamed_without(&n.from, &new_ids, n.id);
        let to = renamed_without(&n.to, &new_ids, n.id);
        let id = n.id;
        let of = n.of.clone();
        let ghost ob = out@;
        out.insert(id, Node { id, from, to, of });
        proof {
            assert forall|a: int| 0 <= a < i + 1 implies out@.contains_key(#[trigger] scc@[keys@[a]].id) by {
                if a < i {
                    assert(ob.contains_key(scc@[keys@[a]].id));
                }
            }
            assert forall|j: u64| #[trigger] out@.contains_key(j) implies exists|k2: u64|
                #![trigger scc@[k2]]
                scc@.contains_key(k2) && scc@[k2].id == j && out@[j].id == j && of_items(out@[j].of)
                    == of_items(scc@[k2].of) && out@[j].to@ == scc@[k2].to@.map(|x: u64| nid[x]).remove(j)
                    && out@[j].from@ == scc@[k2].from@.map(|x: u64| nid[x]).remove(j) by {
                if j == id {
                    assert(scc@.contains_key(k) && scc@[k].id == j);
                } else {
                    assert(ob.contains_key(j));
                }
            }
        }
        i = i + 1;
    }
    let g = Graph { nodes: out, merges: BTreeMap::new() };
    proof {
        assert forall|k: u64| #[trigger] scc@.contains_key(k) implies g.nodes@.contains_key(scc@[k].id) by {
            assert(keys@.to_set().contains(k));
            let a = choose|a: int| 0 <= a < keys@.len() && keys@[a] == k;
            assert(out@.contains_key(scc@[keys@[a]].id));
        }
        assert(dag_of(scc@, nid, g.nodes@));
    }
    g
}

impl Graph {
    /// Returns a new graph of strongly connected components using
    /// [Kosaraju's Algorithm](https://en.wikipedia.org/wiki/Kosaraju%27s_algorithm)
    pub fn to_strongly_connected_components_kosaraju(&self) -> (g: Graph)
        requires
            self.wf(),
            self.edges_closed(),
        ensures
            g.merges@ == Map::<u64, u64>::empty(),
            exists|parts: Map<u64, Node>, nid: Map<u64, u64>|
                #![trigger dag_of(parts, nid, g.nodes@)]
                parts_ok(self.nodes@, parts) && covered(parts) == covered(self.nodes@) && parts_sorted(parts)
                    && members_reach(self.nodes@, parts) && parts_complete(self.nodes@, parts) && (
                crate::tarjan::parts_disjoint(self.nodes@) ==> crate::tarjan::parts_disjoint(parts)) && dag_of(
                    parts,
                    nid,
                    g.nodes@,
                ),
    {
        let scc = self.kosaraju();
        proof {
            assert forall|k: u64, x: u64|
                scc@.contains_key(k) && (scc@[k].to@.contains(x) || scc@[k].from@.contains(x)) implies covered(
                scc@,
            ).contains(x) by {
                assert(self.nodes@.contains_key(x));
                lemma_seq_min(of_items(self.nodes@[x].of));
                assert(self.nodes@.contains_key(x) && of_items(self.nodes@[x].of).contains(x));
                assert(covered(self.nodes@).contains(x));
            }
        }
        let g = connect_dag(scc);
        g
    }
}

} // verus!
