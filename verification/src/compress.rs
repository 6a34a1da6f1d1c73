use crate::graph::{
    is_self_loop, known, lemma_min_first_keeps, lemma_seq_min_concat, merges_decrease, min_first,
    of_items, root, seq_min, translate, Graph, Node, OfList,
};
use crate::small_set::SmallU64Set;
use std::collections::{BTreeMap, BTreeSet};
use vstd::prelude::*;

verus! {

/// `s` with `a` replaced by `b`, where it holds `a`.
pub open spec fn replaced(s: Set<u64>, a: u64, b: u64) -> Set<u64> {
    if s.contains(a) {
        s.remove(a).insert(b)
    } else {
        s
    }
}

impl Graph {
    /// Changing one node, keeping its id and giving it edges that name
    /// known ids, keeps a graph consistent.
    pub proof fn lemma_wf_node_changed(&self, old: Graph, k: u64)
        requires
            old.wf(),
            old.nodes@.contains_key(k),
            self.merges@ == old.merges@,
            self.nodes@.dom() == old.nodes@.dom(),
            forall|j: u64| #[trigger] old.nodes@.contains_key(j) && j != k ==> self.nodes@[j] == old.nodes@[j],
            self.nodes@[k].id == k,
            self.nodes@[k].wf(),
            of_items(self.nodes@[k].of).len() > 0,
            seq_min(of_items(self.nodes@[k].of)) == k,
            forall|x: u64|
                #![trigger self.nodes@[k].to@.contains(x)]
                #![trigger self.nodes@[k].from@.contains(x)]
                self.nodes@[k].to@.contains(x) || self.nodes@[k].from@.contains(x) ==> known(
                    old.nodes@,
                    old.merges@,
                    x,
                ),
        ensures
            self.wf(),
    {
        assert forall|j: u64, x: u64|
            self.nodes@.contains_key(j) && (self.nodes@[j].to@.contains(x) || self.nodes@[j].from@.contains(x))
            implies known(self.nodes@, self.merges@, x) by {
            if j != k {
                if self.nodes@[j].to@.contains(x) {
                    assert(old.nodes@[j].to@.contains(x));
                } else {
                    assert(old.nodes@[j].from@.contains(x));
                }
            }
        }
        assert forall|j: u64| #[trigger] self.merges@.contains_key(j) implies self.nodes@.contains_key(
            root(self.merges@, j),
        ) by {
            assert(old.nodes@.contains_key(root(old.merges@, j)));
        }
    }

    /// after a split, update other nodes "from" values to new node id
    pub fn update_from_after_split(&mut self, old_id: u64, new_id: u64, nodes: SmallU64Set)
        requires
            old(self).wf(),
            nodes.wf(),
            known(old(self).nodes@, old(self).merges@, new_id),
        ensures
            final(self).wf(),
            final(self).merges == old(self).merges,
            final(self).nodes@.dom() == old(self).nodes@.dom(),
            forall|k: u64| #[trigger]
                final(self).nodes@.contains_key(k) ==> {
                    let o = old(self).nodes@[k];
                    let n = final(self).nodes@[k];
                    &&& n.id == o.id
                    &&& n.to == o.to
                    &&& n.of == o.of
                    &&& n.from@ == if nodes@.contains(k) {
                        replaced(o.from@, old_id, new_id)
                    } else {
                        o.from@
                    }
                },
    {
        let items = nodes.iter();
        let mut j: usize = 0;
        while j < items.len()
            invariant
                0 <= j <= items@.len(),
                old(self).wf(),
                self.wf(),
                items@.to_set() == nodes@,
                items@.no_duplicates(),
                self.merges == old(self).merges,
                self.nodes@.dom() == old(self).nodes@.dom(),
                known(old(self).nodes@, old(self).merges@, new_id),
                forall|k: u64| #[trigger]
                    self.nodes@.contains_key(k) ==> {
                        let o = old(self).nodes@[k];
                        let n = self.nodes@[k];
                        &&& n.id == o.id
                        &&& n.to == o.to
                        &&& n.of == o.of
                        &&& n.from@ == if items@.take(j as int).contains(k) {
                            replaced(o.from@, old_id, new_id)
                        } else {
                            o.from@
                        }
                    },
            decreases items@.len() - j,
        {
            let k = items[j];
            let ghost before = *self;
            proof {
                assert(items@.take(j + 1) =~= items@.take(j as int).push(k));
                assert(!items@.take(j as int).contains(k)) by {
                    if items@.take(j as int).contains(k) {
                        let a = choose|a: int| 0 <= a < j && items@.take(j as int)[a] == k;
                        assert(items@[a] == items@[j as int]);
                    }
                }
            }
            if self.nodes.contains_key(&k) {
                let mut n = self.nodes.remove(&k).unwrap();
                if n.from.remove(&old_id) {
                    n.from.insert(new_id);
                }
                self.nodes.insert(k, n);
                proof {
                    assert(self.nodes@.dom() =~= before.nodes@.dom());
                    assert(self.nodes@[k].from@ =~= replaced(before.nodes@[k].from@, old_id, new_id));
                    assert(before.nodes@[k].from@ == old(self).nodes@[k].from@);
                    before.lemma_wf_node_changed_known(*self, k, new_id);
                }
            }
            proof {
                assert forall|k2: u64| #[trigger] self.nodes@.contains_key(k2) implies {
                    let o = old(self).nodes@[k2];
                    let n = self.nodes@[k2];
                    &&& n.id == o.id
                    &&& n.to == o.to
                    &&& n.of == o.of
                    &&& n.from@ == if items@.take(j + 1).contains(k2) {
                        replaced(o.from@, old_id, new_id)
                    } else {
                        o.from@
                    }
                } by {
                    assert(before.nodes@.contains_key(k2));
                    if k2 != k {
                        assert(items@.take(j + 1).contains(k2) <==> items@.take(j as int).contains(k2)) by {
                            let t1 = items@.take(j + 1);
                            let t0 = items@.take(j as int);
                            if t1.contains(k2) {
                                let a = choose|a: int| 0 <= a < t1.len() && #[trigger] t1[a] == k2;
                                assert(t0[a] == k2);
                            }
                            if t0.contains(k2) {
                                let a = choose|a: int| 0 <= a < t0.len() && #[trigger] t0[a] == k2;
                                assert(t1[a] == k2);
                            }
                        }
                    } else {
                        assert(items@.take(j + 1)[j as int] == k);
                    }
                }
            }
            j = j + 1;
        }
        proof {
            assert(items@.take(items@.len() as int) =~= items@);
            assert forall|k: u64| nodes@.contains(k) <==> items@.contains(k) by {
                assert(items@.to_set().contains(k) <==> items@.contains(k));
            }
        }
    }

    /// after a split, update other nodes "to" value to new node id
    pub fn update_to_after_split(&mut self, old_id: u64, new_id: u64, nodes: SmallU64Set)
        requires
            old(self).wf(),
            nodes.wf(),
            known(old(self).nodes@, old(self).merges@, new_id),
        ensures
            final(self).wf(),
            final(self).merges == old(self).merges,
            final(self).nodes@.dom() == old(self).nodes@.dom(),
            forall|k: u64| #[trigger]
                final(self).nodes@.contains_key(k) ==> {
                    let o = old(self).nodes@[k];
                    let n = final(self).nodes@[k];
                    &&& n.id == o.id
                    &&& n.from == o.from
                    &&& n.of == o.of
                    &&& n.to@ == if nodes@.contains(k) {
                        replaced(o.to@, old_id, new_id)
                    } else {
                        o.to@
                    }
                },
    {
        let items = nodes.iter();
        let mut j: usize = 0;
        while j < items.len()
            invariant
                0 <= j <= items@.len(),
                old(self).wf(),
                self.wf(),
                items@.to_set() == nodes@,
                items@.no_duplicates(),
                self.merges == old(self).merges,
                self.nodes@.dom() == old(self).nodes@.dom(),
                known(old(self).nodes@, old(self).merges@, new_id),
                forall|k: u64| #[trigger]
                    self.nodes@.contains_key(k) ==> {
                        let o = old(self).nodes@[k];
                        let n = self.nodes@[k];
                        &&& n.id == o.id
                        &&& n.from == o.from
                        &&& n.of == o.of
                        &&& n.to@ == if items@.take(j as int).contains(k) {
                            replaced(o.to@, old_id, new_id)
                        } else {
                            o.to@
                        }
                    },
            decreases items@.len() - j,
        {
            let k = items[j];
            let ghost before = *self;
            proof {
                assert(items@.take(j + 1) =~= items@.take(j as int).push(k));
                assert(!items@.take(j as int).contains(k)) by {
                    if items@.take(j as int).contains(k) {
                        let a = choose|a: int| 0 <= a < j && items@.take(j as int)[a] == k;
                        assert(items@[a] == items@[j as int]);
                    }
                }
            }
            if self.nodes.contains_key(&k) {
                let mut n = self.nodes.remove(&k).unwrap();
                if n.to.remove(&old_id) {
                    n.to.insert(new_id);
                }
                self.nodes.insert(k, n);
                proof {
                    assert(self.nodes@.dom() =~= before.nodes@.dom());
                    assert(self.nodes@[k].to@ =~= replaced(before.nodes@[k].to@, old_id, new_id));
                    assert(before.nodes@[k].to@ == old(self).nodes@[k].to@);
                    before.lemma_wf_node_changed_known(*self, k, new_id);
                }
            }
            proof {
                assert forall|k2: u64| #[trigger] self.nodes@.contains_key(k2) implies {
                    let o = old(self).nodes@[k2];
                    let n = self.nodes@[k2];
                    &&& n.id == o.id
                    &&& n.from == o.from
                    &&& n.of == o.of
                    &&& n.to@ == if items@.take(j + 1).contains(k2) {
                        replaced(o.to@, old_id, new_id)
                    } else {
                        o.to@
                    }
                } by {
                    assert(before.nodes@.contains_key(k2));
                    if k2 != k {
                        assert(items@.take(j + 1).contains(k2) <==> items@.take(j as int).contains(k2)) by {
                            let t1 = items@.take(j + 1);
                            let t0 = items@.take(j as int);
                            if t1.contains(k2) {
                                let a = choose|a: int| 0 <= a < t1.len() && #[trigger] t1[a] == k2;
                                assert(t0[a] == k2);
                            }
                            if t0.contains(k2) {
                                let a = choose|a: int| 0 <= a < t0.len() && #[trigger] t0[a] == k2;
                                assert(t1[a] == k2);
                            }
                        }
                    } else {
                        assert(items@.take(j + 1)[j as int] == k);
                    }
                }
            }
            j = j + 1;
        }
        proof {
            assert(items@.take(items@.len() as int) =~= items@);
            assert forall|k: u64| nodes@.contains(k) <==> items@.contains(k) by {
                assert(items@.to_set().contains(k) <==> items@.contains(k));
            }
        }
    }

    /// A node whose edges changed only by gaining the known id `extra`
    /// keeps the graph consistent.
    proof fn lemma_wf_node_changed_known(&self, new: Graph, k: u64, extra: u64)
        requires
            self.wf(),
            self.nodes@.contains_key(k),
            known(self.nodes@, self.merges@, extra),
            new.merges == self.merges,
            new.nodes@.dom() == self.nodes@.dom(),
            forall|j: u64| #[trigger] self.nodes@.contains_key(j) && j != k ==> new.nodes@[j] == self.nodes@[j],
            new.nodes@[k].id == k,
            new.nodes@[k].wf(),
            new.nodes@[k].of == self.nodes@[k].of,
            new.nodes@[k].to@.subset_of(self.nodes@[k].to@.insert(extra)),
            new.nodes@[k].from@.subset_of(self.nodes@[k].from@.insert(extra)),
        ensures
            new.wf(),
    {
        assert forall|x: u64|
            new.nodes@[k].to@.contains(x) || new.nodes@[k].from@.contains(x) implies known(
            self.nodes@,
            self.merges@,
            x,
        ) by {
            if x != extra {
                if new.nodes@[k].to@.contains(x) {
                    assert(self.nodes@[k].to@.insert(extra).contains(x));
                    assert(self.nodes@[k].to@.contains(x));
                } else {
                    assert(self.nodes@[k].from@.insert(extra).contains(x));
                    assert(self.nodes@[k].from@.contains(x));
                }
            }
        }
        new.lemma_wf_node_changed(*self, k);
    }
}

/// `x` with `hi` replaced by `lo`.
pub open spec fn redirect(x: u64, hi: u64, lo: u64) -> u64 {
    if x == hi {
        lo
    } else {
        x
    }
}

/// Pointing the root `hi` at the root `lo` sends everything that ended in
/// `hi` to `lo` and leaves every other root alone.
pub proof fn lemma_root_redirect(m: Map<u64, u64>, hi: u64, lo: u64, x: u64)
    requires
        merges_decrease(m),
        !m.contains_key(hi),
        !m.contains_key(lo),
        lo < hi,
    ensures
        root(m.insert(hi, lo), x) == redirect(root(m, x), hi, lo),
    decreases x,
{
    let m2 = m.insert(hi, lo);
    if x == hi {
        assert(root(m2, lo) == lo);
    } else if m.contains_key(x) {
        lemma_root_redirect(m, hi, lo, m[x]);
    }
}

/// Some edge into `k` comes, through merges, from `p`.
pub open spec fn has_pred(nodes: Map<u64, Node>, merges: Map<u64, u64>, k: u64, p: u64) -> bool {
    exists|i: u64| #[trigger] nodes[k].from@.contains(i) && root(merges, i) == p
}

/// `l` and `r` each have an edge from the other.
pub open spec fn loops(nodes: Map<u64, Node>, merges: Map<u64, u64>, l: u64, r: u64) -> bool {
    l == r || (has_pred(nodes, merges, l, r) && has_pred(nodes, merges, r, l))
}

pub open spec fn min_id(l: u64, r: u64) -> u64 {
    if l < r {
        l
    } else {
        r
    }
}

pub open spec fn max_id(l: u64, r: u64) -> u64 {
    if l < r {
        r
    } else {
        l
    }
}

/// The ids that the node merged from `l` and `r` stands for: those of `l`,
/// then those of `r`.
pub open spec fn merged_of(nodes: Map<u64, Node>, l: u64, r: u64) -> Seq<u64> {
    of_items(nodes[l].of) + of_items(nodes[r].of)
}

/// The edges of the node merged from `l` and `r`: those of both, without
/// the ids it stands for, and an edge to itself where the two formed a loop.
pub open spec fn merged_edges(
    nodes: Map<u64, Node>,
    merges: Map<u64, u64>,
    l: u64,
    r: u64,
    el: Set<u64>,
    er: Set<u64>,
) -> Set<u64> {
    el.union(er).difference(merged_of(nodes, l, r).to_set()).union(
        if loops(nodes, merges, l, r) {
            set![min_id(l, r)]
        } else {
            Set::empty()
        },
    )
}

pub open spec fn merged_to(nodes: Map<u64, Node>, merges: Map<u64, u64>, l: u64, r: u64) -> Set<u64> {
    merged_edges(nodes, merges, l, r, nodes[l].to@, nodes[r].to@)
}

pub open spec fn merged_from(nodes: Map<u64, Node>, merges: Map<u64, u64>, l: u64, r: u64) -> Set<u64> {
    merged_edges(nodes, merges, l, r, nodes[l].from@, nodes[r].from@)
}

/// The union of two sets, inserting the smaller into the larger.
fn combine_sets(a: SmallU64Set, b: SmallU64Set) -> (s: SmallU64Set)
    requires
        a.wf(),
        b.wf(),
    ensures
        s.wf(),
        s@ == a@.union(b@),
{
    let ghost u = a@.union(b@);
    let mut left_set = a;
    let mut right_set = b;
    if left_set.len() < right_set.len() {
        let t = left_set;
        left_set = right_set;
        right_set = t;
        proof {
            assert(left_set@.union(right_set@) =~= u);
        }
    }
    left_set.union(&right_set);
    left_set
}

impl Graph {
    /// Whether some edge into `k` comes, through merges, from `p`.
    fn any_pred(&mut self, k: u64, p: u64) -> (b: bool)
        requires
            old(self).wf(),
            old(self).nodes@.contains_key(k),
        ensures
            final(self).wf(),
            final(self).nodes == old(self).nodes,
            final(self).merges@.dom() == old(self).merges@.dom(),
            forall|x: u64| #[trigger] root(final(self).merges@, x) == root(old(self).merges@, x),
            b == has_pred(old(self).nodes@, old(self).merges@, k, p),
    {
        let items = self.nodes.get(&k).unwrap().from.iter();
        let ghost fr = old(self).nodes@[k].from@;
        let mut j: usize = 0;
        while j < items.len()
            invariant
                0 <= j <= items@.len(),
                old(self).wf(),
                items@.to_set() == fr,
                fr == old(self).nodes@[k].from@,
                self.nodes == old(self).nodes,
                merges_decrease(self.merges@),
                self.merges@.dom() == old(self).merges@.dom(),
                forall|x: u64| #[trigger] root(self.merges@, x) == root(old(self).merges@, x),
                forall|a: int| 0 <= a < j ==> root(old(self).merges@, #[trigger] items@[a]) != p,
            decreases items@.len() - j,
        {
            let t = translate(items[j], &mut self.merges);
            if t == p {
                proof {
                    assert(items@.to_set().contains(items@[j as int]));
                    self.lemma_wf_merges_change(*old(self));
                }
                return true;
            }
            j = j + 1;
        }
        proof {
            self.lemma_wf_merges_change(*old(self));
            if has_pred(old(self).nodes@, old(self).merges@, k, p) {
                let i = choose|i: u64| #[trigger] fr.contains(i) && root(old(self).merges@, i) == p;
                assert(items@.to_set().contains(i));
                let a = choose|a: int| 0 <= a < items@.len() && items@[a] == i;
                assert(root(old(self).merges@, items@[a]) != p);
            }
        }
        false
    }

    /// Whether `l` and `r` are one node or each has an edge from the other.
    pub fn are_loop(&mut self, l: u64, r: u64) -> (b: bool)
        requires
            old(self).wf(),
            old(self).nodes@.contains_key(l),
            old(self).nodes@.contains_key(r),
        ensures
            final(self).wf(),
            final(self).nodes == old(self).nodes,
            final(self).merges@.dom() == old(self).merges@.dom(),
            forall|x: u64| #[trigger] root(final(self).merges@, x) == root(old(self).merges@, x),
            b == loops(old(self).nodes@, old(self).merges@, l, r),
    {
        if l == r {
            return true;
        }
        let there = self.any_pred(l, r);
        let ghost mid = *self;
        let back_again = self.any_pred(r, l);
        proof {
            assert(has_pred(mid.nodes@, mid.merges@, r, l) == has_pred(old(self).nodes@, old(self).merges@, r, l)) by {
                if has_pred(mid.nodes@, mid.merges@, r, l) {
                    let i = choose|i: u64| #[trigger] mid.nodes@[r].from@.contains(i) && root(mid.merges@, i) == l;
                    assert(root(old(self).merges@, i) == l);
                }
                if has_pred(old(self).nodes@, old(self).merges@, r, l) {
                    let i = choose|i: u64| #[trigger] old(self).nodes@[r].from@.contains(i) && root(old(self).merges@, i) == l;
                    assert(root(mid.merges@, i) == l);
                }
            }
        }
        there && back_again
    }
}

/// `nn`, `nm` are what merging `l` and `r` makes of the graph `on`, `om`:
/// the larger id is merged straight into the smaller, which takes both
/// nodes' ids and edges; every edge that named the larger id next to the merged node
/// names the smaller one.
pub open spec fn merge_result(
    on: Map<u64, Node>,
    om: Map<u64, u64>,
    nn: Map<u64, Node>,
    nm: Map<u64, u64>,
    l: u64,
    r: u64,
) -> bool {
    let lo = min_id(l, r);
    let hi = max_id(l, r);
    let t = merged_to(on, om, l, r);
    let f = merged_from(on, om, l, r);
    let cat = merged_of(on, l, r);
    &&& nn.dom() == on.dom().remove(hi)
    &&& nm.dom() == om.dom().insert(hi)
    &&& nm[hi] == lo
    &&& forall|x: u64| #[trigger] root(nm, x) == redirect(root(om, x), hi, lo)
    &&& nn[lo].id == lo
    &&& of_items(nn[lo].of) == if t == set![lo] && f == set![lo] {
        min_first(cat)
    } else {
        cat
    }
    &&& nn[lo].to@ == if f.contains(lo) {
        replaced(t, hi, lo)
    } else {
        t
    }
    &&& nn[lo].from@ == if t.contains(lo) {
        replaced(f, hi, lo)
    } else {
        f
    }
    &&& forall|k: u64| #[trigger]
        nn.contains_key(k) && k != lo ==> {
            &&& nn[k].id == on[k].id
            &&& nn[k].of == on[k].of
            &&& nn[k].to@ == if f.contains(k) {
                replaced(on[k].to@, hi, lo)
            } else {
                on[k].to@
            }
            &&& nn[k].from@ == if t.contains(k) {
                replaced(on[k].from@, hi, lo)
            } else {
                on[k].from@
            }
        }
}

impl Graph {
    /// The state right after two nodes are replaced by their merge is
    /// consistent.
    proof fn lemma_merge_mid_wf(g1: Graph, g2: Graph, l: u64, r: u64, nd: Node)
        requires
            g1.wf(),
            g1.nodes@.contains_key(l),
            g1.nodes@.contains_key(r),
            l != r,
            g2.merges@ == g1.merges@.insert(max_id(l, r), min_id(l, r)),
            g2.nodes@ == g1.nodes@.remove(max_id(l, r)).insert(min_id(l, r), nd),
            nd.id == min_id(l, r),
            nd.wf(),
            of_items(nd.of).len() > 0,
            seq_min(of_items(nd.of)) == min_id(l, r),
            nd.to@.subset_of(g1.nodes@[l].to@.union(g1.nodes@[r].to@).insert(min_id(l, r))),
            nd.from@.subset_of(g1.nodes@[l].from@.union(g1.nodes@[r].from@).insert(min_id(l, r))),
        ensures
            g2.wf(),
            forall|x: u64| #[trigger] root(g2.merges@, x) == redirect(root(g1.merges@, x), max_id(l, r), min_id(l, r)),
    {
        let hi = max_id(l, r);
        let lo = min_id(l, r);
        let m = g1.merges@;
        let n2 = g2.nodes@;
        assert forall|x: u64| #[trigger] root(g2.merges@, x) == redirect(root(m, x), hi, lo) by {
            lemma_root_redirect(m, hi, lo, x);
        }
        assert forall|k: u64| #[trigger] g2.merges@.contains_key(k) implies n2.contains_key(root(g2.merges@, k)) by {
            lemma_root_redirect(m, hi, lo, k);
            if k != hi {
                assert(g1.nodes@.contains_key(root(m, k)));
            }
        }
        assert forall|k: u64, x: u64|
            n2.contains_key(k) && (n2[k].to@.contains(x) || n2[k].from@.contains(x)) implies known(n2, g2.merges@, x) by {
            if k == lo {
                if x != lo {
                    if nd.to@.contains(x) {
                        assert(g1.nodes@[l].to@.union(g1.nodes@[r].to@).insert(lo).contains(x));
                        if g1.nodes@[l].to@.contains(x) {
                            assert(known(g1.nodes@, m, x));
                        } else {
                            assert(known(g1.nodes@, m, x));
                        }
                    } else {
                        assert(g1.nodes@[l].from@.union(g1.nodes@[r].from@).insert(lo).contains(x));
                        if g1.nodes@[l].from@.contains(x) {
                            assert(known(g1.nodes@, m, x));
                        } else {
                            assert(known(g1.nodes@, m, x));
                        }
                    }
                }
            } else {
                assert(n2[k] == g1.nodes@[k]);
                if n2[k].to@.contains(x) {
                    assert(g1.nodes@[k].to@.contains(x));
                } else {
                    assert(g1.nodes@[k].from@.contains(x));
                }
                assert(known(g1.nodes@, m, x));
            }
        }
        assert forall|k: u64| #[trigger] n2.contains_key(k) implies {
            &&& n2[k].id == k
            &&& n2[k].wf()
            &&& !g2.merges@.contains_key(k)
            &&& of_items(n2[k].of).len() > 0
        } by {
            if k != lo {
                assert(g1.nodes@.contains_key(k));
            }
        }
    }

    /// Returns the id of the merged node
    #[verifier::rlimit(100)]
    #[verifier::spinoff_prover]
    pub fn merge_nodes(&mut self, l: u64, r: u64) -> (m: u64)
        requires
            old(self).wf(),
            old(self).nodes@.contains_key(l),
            old(self).nodes@.contains_key(r),
        ensures
            final(self).wf(),
            m == min_id(l, r),
            l == r ==> *final(self) == *old(self),
            l != r ==> merge_result(
                old(self).nodes@,
                old(self).merges@,
                final(self).nodes@,
                final(self).merges@,
                l,
                r,
            ),
    {
        if l == r {
            return l;
        }
        let lp = self.are_loop(l, r);
        let ghost g1 = *self;
        let hi = if l > r {
            l
        } else {
            r
        };
        let lo = if l > r {
            r
        } else {
            l
        };
        self.merges.insert(hi, lo);
        self.merges.remove(&lo);
        proof {
            assert(self.merges@ =~= g1.merges@.insert(hi, lo));
        }
        let rn = self.nodes.remove(&hi).unwrap();
        let ln = self.nodes.remove(&lo).unwrap();
        let Node { id: lid, from: from_l, to: to_l, of: mut of_l } = ln;
        let Node { id: _, from: from_r, to: to_r, of: mut of_r } = rn;
        let mut to = combine_sets(to_l, to_r);
        let mut from = combine_sets(from_l, from_r);
        let mut of = OfList::new();
        if l > r {
            of.append(&mut of_r);
            of.append(&mut of_l);
        } else {
            of.append(&mut of_l);
            of.append(&mut of_r);
        }
        let ghost cat = merged_of(g1.nodes@, l, r);
        let ghost ut = g1.nodes@[l].to@.union(g1.nodes@[r].to@);
        let ghost uf = g1.nodes@[l].from@.union(g1.nodes@[r].from@);
        proof {
            assert(of_items(of) =~= cat);
            assert(to@ =~= ut);
            assert(from@ =~= uf);
        }
        let n = of.len();
        let mut i: usize = 0;
        while i < n
            invariant
                0 <= i <= n,
                n == of_items(of).len(),
                of_items(of) == cat,
                to.wf(),
                from.wf(),
                to@ == ut.difference(cat.take(i as int).to_set()),
                from@ == uf.difference(cat.take(i as int).to_set()),
            decreases n - i,
        {
            let p = of.get(i);
            to.remove(&p);
            from.remove(&p);
            proof {
                assert(cat.take(i + 1) =~= cat.take(i as int).push(p));
                cat.take(i as int).lemma_push_to_set_commute(p);
                assert(to@ =~= ut.difference(cat.take(i + 1).to_set()));
                assert(from@ =~= uf.difference(cat.take(i + 1).to_set()));
            }
            i = i + 1;
        }
        proof {
            assert(cat.take(n as int) =~= cat);
        }
        if lp {
            from.insert(lo);
            to.insert(lo);
        }
        let ghost t = merged_to(g1.nodes@, g1.merges@, l, r);
        let ghost f = merged_from(g1.nodes@, g1.merges@, l, r);
        proof {
            assert(to@ =~= t);
            assert(from@ =~= f);
        }
        let tos = to.clone();
        let froms = from.clone();
        self.nodes.insert(lo, Node { id: lid, from, to, of });
        proof {
            assert(self.nodes@ =~= g1.nodes@.remove(hi).insert(lo, self.nodes@[lo]));
            assert(t.subset_of(ut.insert(lo)));
            assert(f.subset_of(uf.insert(lo)));
            lemma_seq_min_concat(of_items(g1.nodes@[l].of), of_items(g1.nodes@[r].of));
            Graph::lemma_merge_mid_wf(g1, *self, l, r, self.nodes@[lo]);
        }
        let ghost g2 = *self;
        let is_lp = self.is_loop(lo);
        if is_lp {
            self.rotate_of(lo);
        }
        let ghost g3 = *self;
        proof {
            assert(root(g2.merges@, lo) == lo);
            assert(g3.nodes@[lo].of == g2.nodes@[lo].of || of_items(g3.nodes@[lo].of) == min_first(cat));
        }
        self.update_from_after_split(hi, lo, tos);
        let ghost g4 = *self;
        self.update_to_after_split(hi, lo, froms);
        proof {
            assert forall|x: u64| #[trigger] root(self.merges@, x) == redirect(root(old(self).merges@, x), hi, lo) by {
                assert(root(g3.merges@, x) == root(g2.merges@, x));
                assert(root(g1.merges@, x) == root(old(self).merges@, x));
            }
            assert(self.merges@.dom() =~= old(self).merges@.dom().insert(hi));
            assert(self.nodes@.dom() =~= old(self).nodes@.dom().remove(hi));
            assert(self.nodes@[lo].id == lo);
            assert forall|k: u64| #[trigger] self.nodes@.contains_key(k) && k != lo implies {
                &&& self.nodes@[k].id == old(self).nodes@[k].id
                &&& self.nodes@[k].of == old(self).nodes@[k].of
                &&& self.nodes@[k].to@ == if f.contains(k) {
                    replaced(old(self).nodes@[k].to@, hi, lo)
                } else {
                    old(self).nodes@[k].to@
                }
                &&& self.nodes@[k].from@ == if t.contains(k) {
                    replaced(old(self).nodes@[k].from@, hi, lo)
                } else {
                    old(self).nodes@[k].from@
                }
            } by {
                assert(g4.nodes@.contains_key(k));
                assert(g3.nodes@.contains_key(k));
                assert(g2.nodes@.contains_key(k));
                assert(g3.nodes@[k] == g2.nodes@[k]);
                assert(g2.nodes@[k] == g1.nodes@[k]);
            }
        }
        lo
    }
}

/// Two merge maps that agree on their keys and on every root.
pub open spec fn same_roots(a: Map<u64, u64>, b: Map<u64, u64>) -> bool {
    a.dom() == b.dom() && forall|x: u64| #[trigger] root(a, x) == root(b, x)
}

/// One step of a compression: the ends of `p`, followed through the
/// merges, are merged, unless they are one node already.
pub open spec fn merge_step(
    on: Map<u64, Node>,
    om: Map<u64, u64>,
    nn: Map<u64, Node>,
    nm: Map<u64, u64>,
    p: (u64, u64),
) -> bool {
    let l = root(om, p.0);
    let r = root(om, p.1);
    if l == r {
        nn == on && same_roots(nm, om)
    } else {
        on.contains_key(l) && on.contains_key(r) && merge_result(on, om, nn, nm, l, r)
    }
}

/// `states` is a run of merges: each state follows from the one before by
/// the merge of the pair at the same position.
pub open spec fn merge_run(states: Seq<(Map<u64, Node>, Map<u64, u64>)>, pairs: Seq<(u64, u64)>) -> bool {
    &&& states.len() == pairs.len() + 1
    &&& forall|i: int|
        #![trigger pairs[i]]
        0 <= i < pairs.len() ==> merge_step(
            states[i].0,
            states[i].1,
            states[i + 1].0,
            states[i + 1].1,
            pairs[i],
        )
}

/// Merging the pairs of `pairs` one after the other leads from `on`, `om`
/// to `nn`, `nm`.
pub open spec fn merges_applied(
    on: Map<u64, Node>,
    om: Map<u64, u64>,
    nn: Map<u64, Node>,
    nm: Map<u64, u64>,
    pairs: Seq<(u64, u64)>,
) -> bool {
    exists|states: Seq<(Map<u64, Node>, Map<u64, u64>)>|
        #[trigger] merge_run(states, pairs) && states[0] == (on, om) && states.last().0 == nn
            && same_roots(states.last().1, nm)
}

/// The pairs that `compress` merges: each node with a single edge out,
/// paired with the node that edge leads to where that node has a single
/// edge in, by ascending id of the first.
pub open spec fn compress_plan(on: Map<u64, Node>, om: Map<u64, u64>, pairs: Seq<(u64, u64)>) -> bool {
    &&& forall|a: int, b: int| 0 <= a < b < pairs.len() ==> #[trigger] pairs[a].0 < #[trigger] pairs[b].0
    &&& forall|p: (u64, u64)| #[trigger]
        pairs.contains(p) <==> {
            &&& on.contains_key(p.0)
            &&& on[p.0].to@.len() == 1
            &&& p.1 == root(om, on[p.0].to@.choose())
            &&& on.contains_key(p.1)
            &&& on[p.1].from@.len() == 1
        }
}

/// `merge_result` reads the merges only through their keys and roots.
proof fn lemma_merge_result_same_roots(
    on: Map<u64, Node>,
    m1: Map<u64, u64>,
    m2: Map<u64, u64>,
    nn: Map<u64, Node>,
    nm: Map<u64, u64>,
    l: u64,
    r: u64,
)
    requires
        same_roots(m1, m2),
        merge_result(on, m1, nn, nm, l, r),
    ensures
        merge_result(on, m2, nn, nm, l, r),
{
    assert(has_pred(on, m1, l, r) == has_pred(on, m2, l, r)) by {
        if has_pred(on, m1, l, r) {
            let i = choose|i: u64| #[trigger] on[l].from@.contains(i) && root(m1, i) == r;
            assert(root(m2, i) == r);
        }
        if has_pred(on, m2, l, r) {
            let i = choose|i: u64| #[trigger] on[l].from@.contains(i) && root(m2, i) == r;
            assert(root(m1, i) == r);
        }
    }
    assert(has_pred(on, m1, r, l) == has_pred(on, m2, r, l)) by {
        if has_pred(on, m1, r, l) {
            let i = choose|i: u64| #[trigger] on[r].from@.contains(i) && root(m1, i) == l;
            assert(root(m2, i) == l);
        }
        if has_pred(on, m2, r, l) {
            let i = choose|i: u64| #[trigger] on[r].from@.contains(i) && root(m2, i) == l;
            assert(root(m1, i) == l);
        }
    }
    assert(merged_to(on, m1, l, r) == merged_to(on, m2, l, r));
    assert(merged_from(on, m1, l, r) == merged_from(on, m2, l, r));
    assert forall|x: u64| #[trigger] root(nm, x) == redirect(root(m2, x), max_id(l, r), min_id(l, r)) by {
        assert(root(m1, x) == root(m2, x));
    }
}

/// A one-element set's chosen element is its element.
proof fn lemma_choose_single(s: SmallU64Set, x: u64)
    requires
        s.wf(),
        s@.len() == 1,
        s@.contains(x),
    ensures
        s@.choose() == x,
{
    s.lemma_len_one(x);
    assert(set![x].contains(set![x].choose()));
}

impl Graph {
    /// Compresses graph by merging every node pair that always go
    /// from one to the other
    pub fn compress(&mut self)
        requires
            old(self).wf(),
        ensures
            final(self).wf(),
            exists|pairs: Seq<(u64, u64)>|
                compress_plan(old(self).nodes@, old(self).merges@, pairs) && #[trigger] merges_applied(
                    old(self).nodes@,
                    old(self).merges@,
                    final(self).nodes@,
                    final(self).merges@,
                    pairs,
                ),
    {
        let ks = crate::graph::sorted_keys(&self.nodes);
        let mut to_merge: Vec<(u64, u64)> = Vec::new();
        let mut i: usize = 0;
        while i < ks.len()
            invariant
                0 <= i <= ks@.len(),
                old(self).wf(),
                ks@.to_set() == old(self).nodes@.dom(),
                ks@.no_duplicates(),
                forall|a: int, b: int| 0 <= a < b < ks@.len() ==> #[trigger] ks@[a] < #[trigger] ks@[b],
                self.nodes == old(self).nodes,
                merges_decrease(self.merges@),
                self.merges@.dom() == old(self).merges@.dom(),
                forall|x: u64| #[trigger] root(self.merges@, x) == root(old(self).merges@, x),
                forall|a: int, b: int| 0 <= a < b < to_merge@.len() ==> #[trigger] to_merge@[a].0 < #[trigger] to_merge@[b].0,
                forall|a: int| 0 <= a < to_merge@.len() ==> i > 0 && #[trigger] to_merge@[a].0 <= ks@[i - 1],
                forall|p: (u64, u64)| #[trigger]
                    to_merge@.contains(p) <==> {
                        &&& (exists|a: int| 0 <= a < i && ks@[a] == p.0)
                        &&& old(self).nodes@.contains_key(p.0)
                        &&& old(self).nodes@[p.0].to@.len() == 1
                        &&& p.1 == root(old(self).merges@, old(self).nodes@[p.0].to@.choose())
                        &&& old(self).nodes@.contains_key(p.1)
                        &&& old(self).nodes@[p.1].from@.len() == 1
                    },
            decreases ks@.len() - i,
        {
            let k = ks[i];
            assert(ks@.to_set().contains(k));
            let ghost before = to_merge@;
            let ln = self.nodes.get(&k).unwrap();
            if ln.to.len() == 1 {
                let a = ln.to.get_any();
                proof {
                    lemma_choose_single(ln.to, a);
                    assert(known(old(self).nodes@, old(self).merges@, a));
                }
                let key = translate(a, &mut self.merges);
                proof {
                    if old(self).merges@.contains_key(a) {
                        assert(old(self).nodes@.contains_key(root(old(self).merges@, a)));
                    }
                }
                let rn = self.nodes.get(&key).unwrap();
                if rn.from.len() == 1 {
                    to_merge.push((k, rn.id));
                }
            }
            proof {
                assert forall|p: (u64, u64)| #[trigger]
                    to_merge@.contains(p) <==> {
                        &&& (exists|a: int| 0 <= a < i + 1 && ks@[a] == p.0)
                        &&& old(self).nodes@.contains_key(p.0)
                        &&& old(self).nodes@[p.0].to@.len() == 1
                        &&& p.1 == root(old(self).merges@, old(self).nodes@[p.0].to@.choose())
                        &&& old(self).nodes@.contains_key(p.1)
                        &&& old(self).nodes@[p.1].from@.len() == 1
                    } by {
                    if to_merge@.contains(p) {
                        let c = choose|c: int| 0 <= c < to_merge@.len() && to_merge@[c] == p;
                        if c < before.len() {
                            assert(before[c] == p);
                            assert(before.contains(p));
                            let a = choose|a: int| 0 <= a < i && ks@[a] == p.0;
                            assert(0 <= a < i + 1 && ks@[a] == p.0);
                        } else {
                            assert(0 <= i < i + 1 && ks@[i as int] == p.0);
                        }
                    }
                    if exists|a: int| 0 <= a < i + 1 && ks@[a] == p.0 {
                        let a = choose|a: int| 0 <= a < i + 1 && ks@[a] == p.0;
                        if a < i {
                            if old(self).nodes@.contains_key(p.0) && old(self).nodes@[p.0].to@.len() == 1
                                && p.1 == root(old(self).merges@, old(self).nodes@[p.0].to@.choose())
                                && old(self).nodes@.contains_key(p.1) && old(self).nodes@[p.1].from@.len() == 1 {
                                assert(before.contains(p));
                                let c = choose|c: int| 0 <= c < before.len() && before[c] == p;
                                assert(to_merge@[c] == p);
                            }
                        } else {
                            if old(self).nodes@.contains_key(p.0) && old(self).nodes@[p.0].to@.len() == 1
                                && p.1 == root(old(self).merges@, old(self).nodes@[p.0].to@.choose())
                                && old(self).nodes@.contains_key(p.1) && old(self).nodes@[p.1].from@.len() == 1 {
                                assert(to_merge@[to_merge@.len() - 1] == p);
                            }
                        }
                    }
                }
                assert forall|a: int| 0 <= a < to_merge@.len() implies #[trigger] to_merge@[a].0 <= ks@[i as int] by {
                    if a < before.len() {
                        assert(before[a].0 <= ks@[i - 1]);
                        assert(ks@[i - 1] < ks@[i as int]);
                    }
                }
                assert forall|a: int, b: int| 0 <= a < b < to_merge@.len() implies #[trigger] to_merge@[a].0 < #[trigger] to_merge@[b].0 by {
                    if b >= before.len() && a < before.len() {
                        assert(before[a].0 <= ks@[i - 1]);
                        assert(ks@[i - 1] < ks@[i as int]);
                    }
                }
            }
            i = i + 1;
        }
        let ghost plan = to_merge@;
        proof {
            assert forall|p: (u64, u64)| #[trigger] plan.contains(p) implies old(self).nodes@.contains_key(p.0) && old(self).nodes@.contains_key(p.1) by {}
            assert forall|p: (u64, u64)| #[trigger]
                plan.contains(p) <==> {
                    &&& old(self).nodes@.contains_key(p.0)
                    &&& old(self).nodes@[p.0].to@.len() == 1
                    &&& p.1 == root(old(self).merges@, old(self).nodes@[p.0].to@.choose())
                    &&& old(self).nodes@.contains_key(p.1)
                    &&& old(self).nodes@[p.1].from@.len() == 1
                } by {
                if old(self).nodes@.contains_key(p.0) {
                    assert(ks@.to_set().contains(p.0));
                }
            }
            self.lemma_wf_merges_change(*old(self));
            assert(compress_plan(old(self).nodes@, old(self).merges@, plan));
        }
        let ghost mut states: Seq<(Map<u64, Node>, Map<u64, u64>)> = seq![(old(self).nodes@, old(self).merges@)];
        let mut j: usize = 0;
        while j < to_merge.len()
            invariant
                0 <= j <= to_merge@.len(),
                to_merge@ == plan,
                compress_plan(old(self).nodes@, old(self).merges@, plan),
                self.wf(),
                forall|p: (u64, u64)| #[trigger] plan.contains(p) ==> old(self).nodes@.contains_key(p.0) && old(self).nodes@.contains_key(p.1),
                forall|k: u64| #[trigger] old(self).nodes@.contains_key(k) ==> known(self.nodes@, self.merges@, k),
                merge_run(states, plan.take(j as int)),
                states[0] == (old(self).nodes@, old(self).merges@),
                states.last().0 == self.nodes@,
                same_roots(states.last().1, self.merges@),
            decreases to_merge@.len() - j,
        {
            let (l0, r0) = to_merge[j];
            let ghost before = *self;
            proof {
                assert(plan.contains(plan[j as int]));
            }
            let l = translate(l0, &mut self.merges);
            let r = translate(r0, &mut self.merges);
            proof {
                self.lemma_wf_merges_change(before);
                assert(known(before.nodes@, before.merges@, l0));
                assert(known(before.nodes@, before.merges@, r0));
                if before.merges@.contains_key(l0) {
                    assert(before.nodes@.contains_key(root(before.merges@, l0)));
                }
                if before.merges@.contains_key(r0) {
                    assert(before.nodes@.contains_key(root(before.merges@, r0)));
                }
            }
            let ghost mid = *self;
            self.merge_nodes(l, r);
            proof {
                let sm = states.last().1;
                assert(plan.take(j + 1)[j as int] == (l0, r0));
                assert(root(sm, l0) == l);
                assert(root(sm, r0) == r);
                if l != r {
                    lemma_merge_result_same_roots(mid.nodes@, mid.merges@, sm, self.nodes@, self.merges@, l, r);
                    assert forall|k: u64| #[trigger] old(self).nodes@.contains_key(k) implies known(self.nodes@, self.merges@, k) by {
                        assert(known(before.nodes@, before.merges@, k));
                    }
                } else {
                    assert(same_roots(self.merges@, sm));
                }
                assert(merge_step(before.nodes@, sm, self.nodes@, self.merges@, (l0, r0)));
                let old_states = states;
                states = states.push((self.nodes@, self.merges@));
                assert forall|i: int| 0 <= i < j + 1 implies #[trigger] merge_step(
                    states[i].0,
                    states[i].1,
                    states[i + 1].0,
                    states[i + 1].1,
                    plan.take(j + 1)[i],
                ) by {
                    if i < j {
                        assert(plan.take(j + 1)[i] == plan.take(j as int)[i]);
                        assert(merge_step(
                            old_states[i].0,
                            old_states[i].1,
                            old_states[i + 1].0,
                            old_states[i + 1].1,
                            plan.take(j as int)[i],
                        ));
                    }
                }
            }
            j = j + 1;
        }
        proof {
            assert(plan.take(plan.len() as int) =~= plan);
            assert(merge_run(states, plan));
            assert(merges_applied(old(self).nodes@, old(self).merges@, self.nodes@, self.merges@, plan));
        }
    }
}

/// `x` has a single edge out and `y` a single edge in, and through the
/// merges the two are that one edge.
pub open spec fn mergeable(n: Map<u64, Node>, m: Map<u64, u64>, x: u64, y: u64) -> bool {
    &&& n[x].to@.len() == 1
    &&& n[y].from@.len() == 1
    &&& root(m, n[x].to@.choose()) == y
    &&& root(m, n[y].from@.choose()) == x
}

/// One step of a compression around hints: two distinct nodes joined by
/// a mergeable link are merged.
pub open spec fn hint_step(
    on: Map<u64, Node>,
    om: Map<u64, u64>,
    nn: Map<u64, Node>,
    nm: Map<u64, u64>,
    p: (u64, u64),
) -> bool {
    &&& p.0 != p.1
    &&& on.contains_key(p.0)
    &&& on.contains_key(p.1)
    &&& mergeable(on, om, p.0, p.1)
    &&& merge_result(on, om, nn, nm, p.0, p.1)
}

/// `states` is a run of merges of mergeable links, the pair at each
/// position leading from one state to the next.
pub open spec fn hint_run(states: Seq<(Map<u64, Node>, Map<u64, u64>)>, pairs: Seq<(u64, u64)>) -> bool {
    &&& states.len() == pairs.len() + 1
    &&& forall|i: int|
        #![trigger pairs[i]]
        0 <= i < pairs.len() ==> hint_step(
            states[i].0,
            states[i].1,
            states[i + 1].0,
            states[i + 1].1,
            pairs[i],
        )
}

/// `nn`, `nm` follow from `on`, `om` by merging mergeable links, one after
/// the other.
pub open spec fn hint_merged(on: Map<u64, Node>, om: Map<u64, u64>, nn: Map<u64, Node>, nm: Map<u64, u64>) -> bool {
    exists|states: Seq<(Map<u64, Node>, Map<u64, u64>)>, pairs: Seq<(u64, u64)>|
        #[trigger] hint_run(states, pairs) && states[0] == (on, om) && states.last().0 == nn
            && same_roots(states.last().1, nm)
}

/// The ends of `p`, followed through the merges, are two nodes joined by
/// a mergeable link.
pub open spec fn link_mergeable(n: Map<u64, Node>, m: Map<u64, u64>, p: (u64, u64)) -> bool {
    &&& root(m, p.0) != root(m, p.1)
    &&& mergeable(n, m, root(m, p.0), root(m, p.1))
}

/// `q` and `p` join the same two nodes through the merges.
pub open spec fn same_link(m: Map<u64, u64>, q: (u64, u64), p: (u64, u64)) -> bool {
    root(m, q.0) == root(m, p.0) && root(m, q.1) == root(m, p.1)
}

/// Every link of `xs` that is still mergeable joins the same two nodes as
/// a link still waiting in `queue`.
pub open spec fn settled(n: Map<u64, Node>, m: Map<u64, u64>, xs: Set<(u64, u64)>, queue: Set<(u64, u64)>) -> bool {
    forall|p: (u64, u64)| #[trigger]
        xs.contains(p) && link_mergeable(n, m, p) ==> exists|q: (u64, u64)| #[trigger]
            queue.contains(q) && same_link(m, q, p)
}

/// Merges with the same roots settle the same links.
proof fn lemma_settled_same_roots(
    n: Map<u64, Node>,
    m1: Map<u64, u64>,
    m2: Map<u64, u64>,
    xs: Set<(u64, u64)>,
    queue: Set<(u64, u64)>,
)
    requires
        settled(n, m1, xs, queue),
        forall|x: u64| #[trigger] root(m2, x) == root(m1, x),
    ensures
        settled(n, m2, xs, queue),
{
    assert forall|p: (u64, u64)| #[trigger] xs.contains(p) && link_mergeable(n, m2, p) implies exists|q: (u64, u64)|
        #[trigger] queue.contains(q) && same_link(m2, q, p) by {
        assert(root(m2, p.0) == root(m1, p.0));
        assert(root(m2, p.1) == root(m1, p.1));
        assert(root(m2, n[root(m1, p.0)].to@.choose()) == root(m1, n[root(m1, p.0)].to@.choose()));
        assert(root(m2, n[root(m1, p.1)].from@.choose()) == root(m1, n[root(m1, p.1)].from@.choose()));
        assert(link_mergeable(n, m1, p));
        let q = choose|q: (u64, u64)| #[trigger] queue.contains(q) && same_link(m1, q, p);
        assert(root(m2, q.0) == root(m1, q.0));
        assert(root(m2, q.1) == root(m1, q.1));
    }
}

/// Taking from the queue a link that is not mergeable leaves every link
/// settled.
proof fn lemma_settled_pop(n: Map<u64, Node>, m: Map<u64, u64>, xs: Set<(u64, u64)>, q0: Set<(u64, u64)>, p0: (u64, u64))
    requires
        settled(n, m, xs, q0),
        !link_mergeable(n, m, p0),
    ensures
        settled(n, m, xs, q0.remove(p0)),
{
    assert forall|p: (u64, u64)| #[trigger] xs.contains(p) && link_mergeable(n, m, p) implies exists|q: (u64, u64)|
        #[trigger] q0.remove(p0).contains(q) && same_link(m, q, p) by {
        let q = choose|q: (u64, u64)| #[trigger] q0.contains(q) && same_link(m, q, p);
        assert(q != p0);
        assert(q0.remove(p0).contains(q));
    }
}

/// Adding links to the queue and to the examined ones keeps them settled.
proof fn lemma_settled_grow(
    n: Map<u64, Node>,
    m: Map<u64, u64>,
    xs: Set<(u64, u64)>,
    q0: Set<(u64, u64)>,
    q1: Set<(u64, u64)>,
)
    requires
        settled(n, m, xs, q0),
        q0.subset_of(q1),
    ensures
        settled(n, m, xs.union(q1), q1),
{
    assert forall|p: (u64, u64)| #[trigger] xs.union(q1).contains(p) && link_mergeable(n, m, p) implies exists|q: (u64, u64)|
        #[trigger] q1.contains(q) && same_link(m, q, p) by {
        if q1.contains(p) {
            assert(same_link(m, p, p));
        } else {
            let q = choose|q: (u64, u64)| #[trigger] q0.contains(q) && same_link(m, q, p);
            assert(q1.contains(q));
        }
    }
}

/// A merge makes no link mergeable between two nodes other than the merged
/// one that was not mergeable before.
proof fn lemma_mergeable_before_merge(
    on: Map<u64, Node>,
    om: Map<u64, u64>,
    nn: Map<u64, Node>,
    nm: Map<u64, u64>,
    l: u64,
    r: u64,
    x: u64,
    y: u64,
)
    requires
        merge_result(on, om, nn, nm, l, r),
        !om.contains_key(min_id(l, r)),
        nn.contains_key(x),
        nn.contains_key(y),
        x != min_id(l, r),
        y != min_id(l, r),
        nn[x].wf(),
        nn[y].wf(),
        mergeable(nn, nm, x, y),
    ensures
        mergeable(on, om, x, y),
{
    let lo = min_id(l, r);
    let hi = max_id(l, r);
    assert(root(om, lo) == lo);
    assert(root(nm, lo) == lo);
    nn[x].to.lemma_finite();
    nn[y].from.lemma_finite();
    // The edges of `x` and `y` did not change: a change would have put the
    // merged node in place of `hi`, and the one edge left would lead there.
    if nn[x].to@ != on[x].to@ {
        assert(on[x].to@.contains(hi));
        assert(nn[x].to@ == on[x].to@.remove(hi).insert(lo));
        nn[x].to.lemma_len_one(lo);
        assert(set![lo].contains(nn[x].to@.choose()));
    }
    if nn[y].from@ != on[y].from@ {
        assert(on[y].from@.contains(hi));
        assert(nn[y].from@ == on[y].from@.remove(hi).insert(lo));
        nn[y].from.lemma_len_one(lo);
        assert(set![lo].contains(nn[y].from@.choose()));
    }
    let cx = on[x].to@.choose();
    let cy = on[y].from@.choose();
    assert(root(nm, cx) == redirect(root(om, cx), hi, lo));
    assert(root(nm, cy) == redirect(root(om, cy), hi, lo));
}

/// Merging the two ends of the link taken from the queue and queueing the
/// links of the merged node keeps every examined link settled.
proof fn lemma_settled_after_merge(
    on: Map<u64, Node>,
    om: Map<u64, u64>,
    nn: Map<u64, Node>,
    nm: Map<u64, u64>,
    from: u64,
    to: u64,
    xs: Set<(u64, u64)>,
    q0: Set<(u64, u64)>,
    p0: (u64, u64),
    q1: Set<(u64, u64)>,
    tos: Seq<u64>,
    froms: Seq<u64>,
)
    requires
        settled(on, om, xs, q0),
        root(om, p0.0) == from,
        root(om, p0.1) == to,
        from != to,
        merge_result(on, om, nn, nm, from, to),
        !om.contains_key(min_id(from, to)),
        forall|p: (u64, u64)| #[trigger]
            xs.contains(p) ==> nn.contains_key(root(nm, p.0)) && nn.contains_key(root(nm, p.1)),
        forall|k: u64| #[trigger] nn.contains_key(k) ==> nn[k].wf(),
        nn.contains_key(min_id(from, to)),
        tos.to_set() == nn[min_id(from, to)].to@,
        froms.to_set() == nn[min_id(from, to)].from@,
        q1 == q0.remove(p0).union(links_of(tos, min_id(from, to), false, true)).union(
            links_of(froms, min_id(from, to), true, true),
        ),
    ensures
        settled(nn, nm, xs.union(q1), q1),
{
    let lo = min_id(from, to);
    let hi = max_id(from, to);
    assert(root(om, lo) == lo);
    assert(root(nm, lo) == lo);
    assert forall|p: (u64, u64)| #[trigger] xs.contains(p) && link_mergeable(nn, nm, p) implies exists|q: (u64, u64)|
        #[trigger] q1.contains(q) && same_link(nm, q, p) by {
        let r0 = root(om, p.0);
        let r1 = root(om, p.1);
        let s0 = root(nm, p.0);
        let s1 = root(nm, p.1);
        assert(s0 == redirect(r0, hi, lo));
        assert(s1 == redirect(r1, hi, lo));
        if s0 != lo && s1 != lo {
            lemma_mergeable_before_merge(on, om, nn, nm, from, to, s0, s1);
            assert(link_mergeable(on, om, p));
            let q = choose|q: (u64, u64)| #[trigger] q0.contains(q) && same_link(om, q, p);
            assert(q != p0);
            assert(q1.contains(q));
            assert(root(nm, q.0) == redirect(root(om, q.0), hi, lo));
            assert(root(nm, q.1) == redirect(root(om, q.1), hi, lo));
        } else if s0 == lo {
            let t = nn[lo].to@;
            nn[lo].to.lemma_finite();
            vstd::set_lib::lemma_set_empty_equivalency_len(t);
            let c = t.choose();
            assert(t.contains(c));
            assert(c != lo);
            assert(tos.to_set().contains(c));
            let a = choose|a: int| 0 <= a < tos.len() && tos[a] == c;
            assert(links_of(tos, lo, false, true).contains((lo, c)));
            assert(q1.contains((lo, c)));
            assert(same_link(nm, (lo, c), p));
        } else {
            let f = nn[lo].from@;
            nn[lo].from.lemma_finite();
            vstd::set_lib::lemma_set_empty_equivalency_len(f);
            let c = f.choose();
            assert(f.contains(c));
            assert(c != lo);
            assert(froms.to_set().contains(c));
            let a = choose|a: int| 0 <= a < froms.len() && froms[a] == c;
            assert(links_of(froms, lo, true, true).contains((c, lo)));
            assert(q1.contains((c, lo)));
            assert(same_link(nm, (c, lo), p));
        }
    }
    lemma_settled_grow(nn, nm, xs, q1, q1);
}

/// The links around a new edge between the nodes `a` and `b`: the edge
/// itself, and every edge into or out of either end.
pub open spec fn hint_links(n: Map<u64, Node>, a: u64, b: u64) -> Set<(u64, u64)> {
    Set::new(
        |p: (u64, u64)|
            p == (a, b) || (p.1 == a && n[a].from@.contains(p.0)) || (p.0 == a && n[a].to@.contains(p.1)) || (p.0 == b
                && n[b].to@.contains(p.1)) || (p.1 == b && n[b].from@.contains(p.0)),
    )
}

/// `BTreeSet::pop_first` on a set of pairs: removes and returns the least
/// pair (pairs order by their first, then their second element), or
/// returns `None` for an empty set.
#[verifier::external_body]
fn pop_first_pair(s: &mut BTreeSet<(u64, u64)>) -> (r: Option<(u64, u64)>)
    ensures
        match r {
            None => old(s)@ == Set::<(u64, u64)>::empty() && final(s)@ == old(s)@,
            Some(p) => {
                &&& old(s)@.contains(p)
                &&& final(s)@ == old(s)@.remove(p)
                &&& forall|q: (u64, u64)| #[trigger]
                    old(s)@.contains(q) ==> p.0 < q.0 || (p.0 == q.0 && p.1 <= q.1)
            },
        },
{
    s.pop_first()
}

impl Graph {
    fn are_mergable_link(&mut self, l: u64, r: u64) -> (b: bool)
        requires
            old(self).wf(),
            known(old(self).nodes@, old(self).merges@, l),
            known(old(self).nodes@, old(self).merges@, r),
        ensures
            final(self).wf(),
            final(self).nodes == old(self).nodes,
            final(self).merges@.dom() == old(self).merges@.dom(),
            forall|x: u64| #[trigger] root(final(self).merges@, x) == root(old(self).merges@, x),
            b == mergeable(
                old(self).nodes@,
                old(self).merges@,
                root(old(self).merges@, l),
                root(old(self).merges@, r),
            ),
    {
        proof {
            old(self).lemma_root_node(l);
            old(self).lemma_root_node(r);
        }
        let l = translate(l, &mut self.merges);
        let r = translate(r, &mut self.merges);
        proof {
            self.lemma_wf_merges_change(*old(self));
        }
        let xn = self.nodes.get(&l).unwrap();
        let yn = self.nodes.get(&r).unwrap();
        if xn.to.len() != 1 || yn.from.len() != 1 {
            return false;
        }
        let to_link = xn.to.get_any();
        let from_link = yn.from.get_any();
        proof {
            lemma_choose_single(xn.to, to_link);
            lemma_choose_single(yn.from, from_link);
        }
        let a = translate(to_link, &mut self.merges);
        let b = translate(from_link, &mut self.merges);
        proof {
            self.lemma_wf_merges_change(*old(self));
        }
        a == r && b == l
    }

    /// Compress around given candidates. If a candidate gets
    /// compressed its neighbours will be checked too, growing out
    /// from there. Nodes are only ever merged, along mergeable links;
    /// where the hinted ends form such a link, at least one merge is made.
    pub fn compress_with_hint(&mut self, from: u64, to: u64)
        requires
            old(self).wf(),
            known(old(self).nodes@, old(self).merges@, from),
            known(old(self).nodes@, old(self).merges@, to),
        ensures
            final(self).wf(),
            hint_merged(old(self).nodes@, old(self).merges@, final(self).nodes@, final(self).merges@),
            final(self).nodes@.len() <= old(self).nodes@.len(),
            link_mergeable(old(self).nodes@, old(self).merges@, (from, to))
                ==> final(self).nodes@.len() < old(self).nodes@.len(),
            forall|p: (u64, u64)| #[trigger]
                hint_links(old(self).nodes@, root(old(self).merges@, from), root(old(self).merges@, to)).contains(p)
                    ==> !link_mergeable(final(self).nodes@, final(self).merges@, p),
    {
        proof {
            old(self).lemma_root_node(from);
            old(self).lemma_root_node(to);
        }
        let ghost f0 = from;
        let ghost t0 = to;
        let from = translate(from, &mut self.merges);
        let to = translate(to, &mut self.merges);
        proof {
            self.lemma_wf_merges_change(*old(self));
        }
        // The queue is a set so we can guarantee that there are no
        // duplicates in the queue and it has a pop function.
        let mut candidates: BTreeSet<(u64, u64)> = BTreeSet::new();
        proof {
            broadcast use vstd::laws_cmp::group_laws_cmp;

            assert(vstd::laws_cmp::obeys_cmp::<(u64, u64)>());
        }
        candidates.insert((from, to));
        let ff = self.nodes.get(&from).unwrap().from.iter();
        let ft = self.nodes.get(&from).unwrap().to.iter();
        let tt = self.nodes.get(&to).unwrap().to.iter();
        let tf = self.nodes.get(&to).unwrap().from.iter();
        proof {
            assert forall|a: int| 0 <= a < ff@.len() implies known(self.nodes@, self.merges@, #[trigger] ff@[a]) by {
                assert(ff@.to_set().contains(ff@[a]));
            }
            assert forall|a: int| 0 <= a < ft@.len() implies known(self.nodes@, self.merges@, #[trigger] ft@[a]) by {
                assert(ft@.to_set().contains(ft@[a]));
            }
            assert forall|a: int| 0 <= a < tt@.len() implies known(self.nodes@, self.merges@, #[trigger] tt@[a]) by {
                assert(tt@.to_set().contains(tt@[a]));
            }
            assert forall|a: int| 0 <= a < tf@.len() implies known(self.nodes@, self.merges@, #[trigger] tf@[a]) by {
                assert(tf@.to_set().contains(tf@[a]));
            }
        }
        self.queue_links(&mut candidates, &ff, from, true);
        self.queue_links(&mut candidates, &ft, from, false);
        self.queue_links(&mut candidates, &tt, to, false);
        self.queue_links(&mut candidates, &tf, to, true);
        let ghost mid = *self;
        proof {
            assert(candidates@.contains((from, to)));
            if link_mergeable(old(self).nodes@, old(self).merges@, (f0, t0)) {
                crate::graph::lemma_root_idempotent(old(self).merges@, f0);
                crate::graph::lemma_root_idempotent(old(self).merges@, t0);
                assert(root(mid.merges@, from) == from);
                assert(root(mid.merges@, to) == to);
                assert(mid.nodes@ == old(self).nodes@);
                assert(link_mergeable(mid.nodes@, mid.merges@, (from, to)));
            }
        }
        proof {
            assert(mid.nodes@ == old(self).nodes@);
            assert forall|p: (u64, u64)| #[trigger] hint_links(old(self).nodes@, from, to).contains(p) implies candidates@.contains(p) by {
                let n = old(self).nodes@;
                if p == (from, to) {
                } else if p.1 == from && n[from].from@.contains(p.0) {
                    assert(ff@.to_set().contains(p.0));
                    let a = choose|a: int| 0 <= a < ff@.len() && ff@[a] == p.0;
                    assert(links_of(ff@, from, true, false).contains(p));
                } else if p.0 == from && n[from].to@.contains(p.1) {
                    assert(ft@.to_set().contains(p.1));
                    let a = choose|a: int| 0 <= a < ft@.len() && ft@[a] == p.1;
                    assert(links_of(ft@, from, false, false).contains(p));
                } else if p.0 == to && n[to].to@.contains(p.1) {
                    assert(tt@.to_set().contains(p.1));
                    let a = choose|a: int| 0 <= a < tt@.len() && tt@[a] == p.1;
                    assert(links_of(tt@, to, false, false).contains(p));
                } else {
                    assert(tf@.to_set().contains(p.0));
                    let a = choose|a: int| 0 <= a < tf@.len() && tf@[a] == p.0;
                    assert(links_of(tf@, to, true, false).contains(p));
                }
            }
        }
        self.compress_with_hint_2(candidates);
        proof {
            lemma_hint_merged_same_roots(mid.nodes@, mid.merges@, old(self).merges@, self.nodes@, self.merges@);
        }
    }

    /// Queues the links between `end` and each of `items`: into `end`
    /// where `incoming`, out of it otherwise.
    fn queue_links(&self, queued: &mut BTreeSet<(u64, u64)>, items: &Vec<u64>, end: u64, incoming: bool)
        requires
            old(queued)@.finite(),
            known(self.nodes@, self.merges@, end),
            forall|a: int| 0 <= a < items@.len() ==> known(self.nodes@, self.merges@, #[trigger] items@[a]),
            forall|p: (u64, u64)| #[trigger]
                old(queued)@.contains(p) ==> known(self.nodes@, self.merges@, p.0) && known(
                    self.nodes@,
                    self.merges@,
                    p.1,
                ),
        ensures
            final(queued)@ == old(queued)@.union(links_of(items@, end, incoming, false)),
            final(queued)@.finite(),
            forall|p: (u64, u64)| #[trigger]
                final(queued)@.contains(p) ==> known(self.nodes@, self.merges@, p.0) && known(
                    self.nodes@,
                    self.merges@,
                    p.1,
                ),
    {
        proof {
            broadcast use vstd::laws_cmp::group_laws_cmp;

            assert(vstd::laws_cmp::obeys_cmp::<(u64, u64)>());
        }
        let ghost q0 = queued@;
        let mut j: usize = 0;
        while j < items.len()
            invariant
                0 <= j <= items@.len(),
                queued@ == q0.union(links_upto(items@, j, end, incoming, false)),
                vstd::laws_cmp::obeys_cmp::<(u64, u64)>(),
                queued@.finite(),
                known(self.nodes@, self.merges@, end),
                forall|a: int| 0 <= a < items@.len() ==> known(self.nodes@, self.merges@, #[trigger] items@[a]),
                forall|p: (u64, u64)| #[trigger]
                    queued@.contains(p) ==> known(self.nodes@, self.merges@, p.0) && known(
                        self.nodes@,
                        self.merges@,
                        p.1,
                    ),
            decreases items@.len() - j,
        {
            let x = items[j];
            if incoming {
                queued.insert((x, end));
            } else {
                queued.insert((end, x));
            }
            let ghost jb = j;
            j = j + 1;
            proof {
                lemma_links_step(items@, jb, j, end, incoming, false);
                assert(queued@ =~= q0.union(links_upto(items@, j, end, incoming, false)));
            }
        }
        proof {
            lemma_links_all(items@, j, end, incoming, false);
        }
    }

    fn compress_with_hint_2(&mut self, queued: BTreeSet<(u64, u64)>)
        requires
            old(self).wf(),
            queued@.finite(),
            forall|p: (u64, u64)| #[trigger]
                queued@.contains(p) ==> known(old(self).nodes@, old(self).merges@, p.0) && known(
                    old(self).nodes@,
                    old(self).merges@,
                    p.1,
                ),
        ensures
            final(self).wf(),
            hint_merged(old(self).nodes@, old(self).merges@, final(self).nodes@, final(self).merges@),
            final(self).nodes@.len() <= old(self).nodes@.len(),
            forall|p: (u64, u64)| #[trigger]
                queued@.contains(p) && link_mergeable(old(self).nodes@, old(self).merges@, p)
                    ==> final(self).nodes@.len() < old(self).nodes@.len(),
            forall|p: (u64, u64)| #[trigger]
                queued@.contains(p) ==> !link_mergeable(final(self).nodes@, final(self).merges@, p),
    {
        proof {
            broadcast use vstd::laws_cmp::group_laws_cmp;

            assert(vstd::laws_cmp::obeys_cmp::<(u64, u64)>());
        }
        let ghost q_init = queued@;
        let ghost mut xs: Set<(u64, u64)> = q_init;
        proof {
            assert(settled(old(self).nodes@, old(self).merges@, Set::empty(), Set::empty()));
            lemma_settled_grow(old(self).nodes@, old(self).merges@, Set::empty(), Set::empty(), q_init);
            assert(Set::<(u64, u64)>::empty().union(q_init) =~= q_init);
        }
        let mut queued = queued;
        let ghost mut states: Seq<(Map<u64, Node>, Map<u64, u64>)> = seq![(old(self).nodes@, old(self).merges@)];
        let ghost mut pairs: Seq<(u64, u64)> = Seq::empty();
        loop
            invariant
                vstd::laws_cmp::obeys_cmp::<(u64, u64)>(),
                self.wf(),
                queued@.finite(),
                forall|p: (u64, u64)| #[trigger]
                    queued@.contains(p) ==> known(self.nodes@, self.merges@, p.0) && known(
                        self.nodes@,
                        self.merges@,
                        p.1,
                    ),
                hint_run(states, pairs),
                states[0] == (old(self).nodes@, old(self).merges@),
                states.last().0 == self.nodes@,
                same_roots(states.last().1, self.merges@),
                self.nodes@.dom().finite(),
                self.nodes@.len() <= old(self).nodes@.len(),
                self.nodes@.len() < old(self).nodes@.len() || (self.nodes@ == old(self).nodes@ && same_roots(
                    self.merges@,
                    old(self).merges@,
                ) && forall|p: (u64, u64)| #[trigger]
                    q_init.contains(p) && link_mergeable(old(self).nodes@, old(self).merges@, p) ==> queued@.contains(p)),
                settled(self.nodes@, self.merges@, xs, queued@),
                q_init.subset_of(xs),
                forall|p: (u64, u64)| #[trigger]
                    xs.contains(p) ==> known(self.nodes@, self.merges@, p.0) && known(self.nodes@, self.merges@, p.1),
            ensures
                forall|p: (u64, u64)| #[trigger]
                    q_init.contains(p) && link_mergeable(old(self).nodes@, old(self).merges@, p)
                        ==> self.nodes@.len() < old(self).nodes@.len(),
                forall|p: (u64, u64)| #[trigger] q_init.contains(p) ==> !link_mergeable(self.nodes@, self.merges@, p),
            decreases self.nodes@.len(), queued@.len(),
        {
            let ghost q0 = queued@;
            match pop_first_pair(&mut queued) {
                None => {
                    proof {
                        assert forall|p: (u64, u64)| #[trigger]
                            q_init.contains(p) && link_mergeable(old(self).nodes@, old(self).merges@, p) implies self.nodes@.len()
                            < old(self).nodes@.len() by {
                            assert(!queued@.contains(p));
                        }
                        assert forall|p: (u64, u64)| #[trigger] q_init.contains(p) implies !link_mergeable(
                            self.nodes@,
                            self.merges@,
                            p,
                        ) by {
                            assert(xs.contains(p));
                            if link_mergeable(self.nodes@, self.merges@, p) {
                                let q = choose|q: (u64, u64)| #[trigger] queued@.contains(q) && same_link(self.merges@, q, p);
                            }
                        }
                    }
                    break;
                },
                Some(p) => {
                    let (f0, t0) = p;
                    proof {
                        assert(q0.contains(p));
                        self.lemma_root_node(f0);
                        self.lemma_root_node(t0);
                    }
                    let ghost before = *self;
                    let from = translate(f0, &mut self.merges);
                    let to = translate(t0, &mut self.merges);
                    proof {
                        self.lemma_wf_merges_change(before);
                        assert forall|q: (u64, u64)| #[trigger] queued@.contains(q) implies known(
                            self.nodes@,
                            self.merges@,
                            q.0,
                        ) && known(self.nodes@, self.merges@, q.1) by {
                            assert(q0.contains(q));
                        }
                    }
                    let ghost after_translate = *self;
                    let mergeable_link = self.are_mergable_link(from, to);
                    proof {
                        lemma_settled_same_roots(self.nodes@, before.merges@, self.merges@, xs, q0);
                        assert(root(self.merges@, f0) == from);
                        assert(root(self.merges@, t0) == to);
                        assert(root(after_translate.merges@, from) == from);
                        assert(root(after_translate.merges@, to) == to);
                        assert(root(self.merges@, self.nodes@[from].to@.choose()) == root(after_translate.merges@, self.nodes@[from].to@.choose()));
                        assert(root(self.merges@, self.nodes@[to].from@.choose()) == root(after_translate.merges@, self.nodes@[to].from@.choose()));
                        if !mergeable_link || from == to {
                            assert(!link_mergeable(self.nodes@, self.merges@, p));
                            lemma_settled_pop(self.nodes@, self.merges@, xs, q0, p);
                            assert(queued@ =~= q0.remove(p));
                            assert forall|q: (u64, u64)| #[trigger] xs.contains(q) implies known(self.nodes@, self.merges@, q.0)
                                && known(self.nodes@, self.merges@, q.1) by {
                                assert(known(before.nodes@, before.merges@, q.0));
                                assert(known(before.nodes@, before.merges@, q.1));
                            }
                        }
                    }
                    if !mergeable_link {
                        continue;
                    }
                    // A link whose ends are one node already changes
                    // nothing; requeueing its neighbours would only bring
                    // the same link back.
                    if from == to {
                        continue;
                    }
                    let ghost mid = *self;
                    proof {
                        assert(root(before.merges@, f0) == from);
                        assert(root(before.merges@, t0) == to);
                        assert(root(mid.merges@, from) == from);
                        assert(root(mid.merges@, to) == to);
                    }
                    let this = self.merge_nodes(from, to);
                    proof {
                        let sm = states.last().1;
                        lemma_merge_result_same_roots(mid.nodes@, mid.merges@, sm, self.nodes@, self.merges@, from, to);
                        assert(mergeable(mid.nodes@, sm, from, to)) by {
                            assert(root(sm, mid.nodes@[from].to@.choose()) == root(mid.merges@, mid.nodes@[from].to@.choose()));
                            assert(root(sm, mid.nodes@[to].from@.choose()) == root(mid.merges@, mid.nodes@[to].from@.choose()));
                        }
                        assert(hint_step(mid.nodes@, sm, self.nodes@, self.merges@, (from, to)));
                        let old_states = states;
                        let old_pairs = pairs;
                        states = states.push((self.nodes@, self.merges@));
                        pairs = pairs.push((from, to));
                        assert forall|i: int| 0 <= i < pairs.len() implies #[trigger] hint_step(
                            states[i].0,
                            states[i].1,
                            states[i + 1].0,
                            states[i + 1].1,
                            pairs[i],
                        ) by {
                            if i < old_pairs.len() {
                                assert(pairs[i] == old_pairs[i]);
                                assert(hint_step(
                                    old_states[i].0,
                                    old_states[i].1,
                                    old_states[i + 1].0,
                                    old_states[i + 1].1,
                                    old_pairs[i],
                                ));
                            }
                        }
                        assert(self.nodes@.len() < before.nodes@.len()) by {
                            assert(before.nodes@.dom().contains(max_id(from, to)));
                        }
                        assert forall|q: (u64, u64)| #[trigger] queued@.contains(q) implies known(
                            self.nodes@,
                            self.merges@,
                            q.0,
                        ) && known(self.nodes@, self.merges@, q.1) by {
                            assert(known(mid.nodes@, mid.merges@, q.0));
                            assert(known(mid.nodes@, mid.merges@, q.1));
                        }
                    }
                    let tos = self.nodes.get(&this).unwrap().to.iter();
                    let froms = self.nodes.get(&this).unwrap().from.iter();
                    proof {
                        assert forall|a: int| 0 <= a < tos@.len() implies known(self.nodes@, self.merges@, #[trigger] tos@[a]) by {
                            assert(tos@.to_set().contains(tos@[a]));
                        }
                        assert forall|a: int| 0 <= a < froms@.len() implies known(self.nodes@, self.merges@, #[trigger] froms@[a]) by {
                            assert(froms@.to_set().contains(froms@[a]));
                        }
                    }
                    let ghost q_mid = queued@;
                    self.queue_links_except(&mut queued, &tos, this, false);
                    self.queue_links_except(&mut queued, &froms, this, true);
                    proof {
                        assert(q_mid =~= q0.remove(p));
                        assert forall|q: (u64, u64)| #[trigger] xs.contains(q) implies self.nodes@.contains_key(root(self.merges@, q.0))
                            && self.nodes@.contains_key(root(self.merges@, q.1)) by {
                            assert(known(mid.nodes@, mid.merges@, q.0));
                            assert(known(mid.nodes@, mid.merges@, q.1));
                            self.lemma_root_node(q.0);
                            self.lemma_root_node(q.1);
                        }
                        assert forall|k: u64| #[trigger] self.nodes@.contains_key(k) implies self.nodes@[k].wf() by {}
                        lemma_settled_after_merge(
                            mid.nodes@,
                            mid.merges@,
                            self.nodes@,
                            self.merges@,
                            from,
                            to,
                            xs,
                            q0,
                            p,
                            queued@,
                            tos@,
                            froms@,
                        );
                        let old_xs = xs;
                        xs = xs.union(queued@);
                        assert forall|q: (u64, u64)| #[trigger] xs.contains(q) implies known(self.nodes@, self.merges@, q.0)
                            && known(self.nodes@, self.merges@, q.1) by {
                            if old_xs.contains(q) {
                                assert(known(mid.nodes@, mid.merges@, q.0));
                                assert(known(mid.nodes@, mid.merges@, q.1));
                            }
                        }
                    }
                },
            }
        }
    }

    /// Queues the links between `end` and each of `items` other than
    /// `end` itself: into `end` where `incoming`, out of it otherwise.
    fn queue_links_except(&self, queued: &mut BTreeSet<(u64, u64)>, items: &Vec<u64>, end: u64, incoming: bool)
        requires
            old(queued)@.finite(),
            known(self.nodes@, self.merges@, end),
            forall|a: int| 0 <= a < items@.len() ==> known(self.nodes@, self.merges@, #[trigger] items@[a]),
            forall|p: (u64, u64)| #[trigger]
                old(queued)@.contains(p) ==> known(self.nodes@, self.merges@, p.0) && known(
                    self.nodes@,
                    self.merges@,
                    p.1,
                ),
        ensures
            final(queued)@ == old(queued)@.union(links_of(items@, end, incoming, true)),
            final(queued)@.finite(),
            forall|p: (u64, u64)| #[trigger]
                final(queued)@.contains(p) ==> known(self.nodes@, self.merges@, p.0) && known(
                    self.nodes@,
                    self.merges@,
                    p.1,
                ),
    {
        proof {
            broadcast use vstd::laws_cmp::group_laws_cmp;

            assert(vstd::laws_cmp::obeys_cmp::<(u64, u64)>());
        }
        let ghost q0 = queued@;
        let mut j: usize = 0;
        while j < items.len()
            invariant
                0 <= j <= items@.len(),
                queued@ == q0.union(links_upto(items@, j, end, incoming, true)),
                vstd::laws_cmp::obeys_cmp::<(u64, u64)>(),
                queued@.finite(),
                known(self.nodes@, self.merges@, end),
                forall|a: int| 0 <= a < items@.len() ==> known(self.nodes@, self.merges@, #[trigger] items@[a]),
                forall|p: (u64, u64)| #[trigger]
                    queued@.contains(p) ==> known(self.nodes@, self.merges@, p.0) && known(
                        self.nodes@,
                        self.merges@,
                        p.1,
                    ),
            decreases items@.len() - j,
        {
            let x = items[j];
            if x != end {
                if incoming {
                    queued.insert((x, end));
                } else {
                    queued.insert((end, x));
                }
            }
            let ghost jb = j;
            j = j + 1;
            proof {
                lemma_links_step(items@, jb, j, end, incoming, true);
                assert(queued@ =~= q0.union(links_upto(items@, j, end, incoming, true)));
            }
        }
        proof {
            lemma_links_all(items@, j, end, incoming, true);
        }
    }
}

/// Merging mergeable links reads the starting merges only through their
/// keys and roots.
proof fn lemma_hint_merged_same_roots(
    on: Map<u64, Node>,
    m1: Map<u64, u64>,
    m2: Map<u64, u64>,
    nn: Map<u64, Node>,
    nm: Map<u64, u64>,
)
    requires
        same_roots(m1, m2),
        hint_merged(on, m1, nn, nm),
    ensures
        hint_merged(on, m2, nn, nm),
{
    let (states, pairs) = choose|states: Seq<(Map<u64, Node>, Map<u64, u64>)>, pairs: Seq<(u64, u64)>|
        #[trigger] hint_run(states, pairs) && states[0] == (on, m1) && states.last().0 == nn
            && same_roots(states.last().1, nm);
    let s2 = states.update(0, (on, m2));
    if pairs.len() > 0 {
        let p = pairs[0];
        assert(hint_step(states[0].0, states[0].1, states[1].0, states[1].1, p));
        lemma_merge_result_same_roots(on, m1, m2, states[1].0, states[1].1, p.0, p.1);
        assert(root(m1, on[p.0].to@.choose()) == root(m2, on[p.0].to@.choose()));
        assert(root(m1, on[p.1].from@.choose()) == root(m2, on[p.1].from@.choose()));
        assert forall|i: int| 0 <= i < pairs.len() implies #[trigger] hint_step(
            s2[i].0,
            s2[i].1,
            s2[i + 1].0,
            s2[i + 1].1,
            pairs[i],
        ) by {
            if i > 0 {
                assert(hint_step(states[i].0, states[i].1, states[i + 1].0, states[i + 1].1, pairs[i]));
            }
        }
        assert(hint_run(s2, pairs));
        assert(s2.last() == states.last());
    } else {
        assert(hint_run(s2, pairs));
        assert(s2.last() == s2[0]);
        assert forall|x: u64| #[trigger] root(m2, x) == root(nm, x) by {
            assert(root(m1, x) == root(m2, x));
            assert(root(states.last().1, x) == root(nm, x));
        }
        assert(same_roots(s2.last().1, nm));
    }
    assert(s2[0] == (on, m2));
    assert(hint_run(s2, pairs) && s2[0] == (on, m2) && s2.last().0 == nn && same_roots(s2.last().1, nm));
}

/// The ids that the nodes of a graph stand for.
pub open spec fn covered(nodes: Map<u64, Node>) -> Set<u64> {
    Set::new(
        |x: u64| exists|k: u64| nodes.contains_key(k) && #[trigger] of_items(nodes[k].of).contains(x),
    )
}

/// Merging two nodes keeps the ids that the graph's nodes stand for: the
/// merged node stands for the ids of both.
pub proof fn law_merge_keeps_ids(
    on: Map<u64, Node>,
    om: Map<u64, u64>,
    nn: Map<u64, Node>,
    nm: Map<u64, u64>,
    l: u64,
    r: u64,
)
    requires
        l != r,
        on.contains_key(l),
        on.contains_key(r),
        merge_result(on, om, nn, nm, l, r),
    ensures
        covered(nn) == covered(on),
{
    broadcast use vstd::seq_lib::to_multiset_contains;

    let lo = min_id(l, r);
    let hi = max_id(l, r);
    let cat = merged_of(on, l, r);
    lemma_min_first_keeps(cat);
    assert forall|x: u64| #[trigger] of_items(nn[lo].of).contains(x) <==> cat.contains(x) by {
        if of_items(nn[lo].of) != cat {
            assert(of_items(nn[lo].of) == min_first(cat));
            if min_first(cat).contains(x) {
                assert(min_first(cat).to_multiset().count(x) > 0);
            }
            if cat.contains(x) {
                assert(cat.to_multiset().count(x) > 0);
            }
        }
    }
    assert forall|x: u64| cat.contains(x) <==> (of_items(on[l].of).contains(x) || of_items(on[r].of).contains(x)) by {
        let a = of_items(on[l].of);
        let b = of_items(on[r].of);
        if cat.contains(x) {
            let i = choose|i: int| 0 <= i < cat.len() && cat[i] == x;
            if i < a.len() {
                assert(a[i] == x);
            } else {
                assert(b[i - a.len()] == x);
            }
        }
        if a.contains(x) {
            let i = choose|i: int| 0 <= i < a.len() && a[i] == x;
            assert(cat[i] == x);
        }
        if b.contains(x) {
            let i = choose|i: int| 0 <= i < b.len() && b[i] == x;
            assert(cat[a.len() + i] == x);
        }
    }
    assert forall|x: u64| covered(nn).contains(x) <==> covered(on).contains(x) by {
        if covered(nn).contains(x) {
            let k = choose|k: u64| nn.contains_key(k) && #[trigger] of_items(nn[k].of).contains(x);
            if k == lo {
                if of_items(on[l].of).contains(x) {
                    assert(on.contains_key(l) && of_items(on[l].of).contains(x));
                } else {
                    assert(on.contains_key(r) && of_items(on[r].of).contains(x));
                }
            } else {
                assert(on.contains_key(k) && of_items(on[k].of).contains(x));
            }
        }
        if covered(on).contains(x) {
            let k = choose|k: u64| on.contains_key(k) && #[trigger] of_items(on[k].of).contains(x);
            if k == l || k == r {
                assert(nn.contains_key(lo) && of_items(nn[lo].of).contains(x));
            } else {
                assert(nn.contains_key(k) && of_items(nn[k].of).contains(x));
            }
        }
    }
    assert(covered(nn) =~= covered(on));
}

/// Along a run of merges every state stands for the ids of the first.
proof fn lemma_run_covered(states: Seq<(Map<u64, Node>, Map<u64, u64>)>, pairs: Seq<(u64, u64)>, i: int)
    requires
        merge_run(states, pairs),
        0 <= i <= pairs.len(),
    ensures
        covered(states[i].0) == covered(states[0].0),
    decreases i,
{
    if i > 0 {
        lemma_run_covered(states, pairs, i - 1);
        let p = pairs[i - 1];
        assert(merge_step(states[i - 1].0, states[i - 1].1, states[i].0, states[i].1, p));
        let l = root(states[i - 1].1, p.0);
        let r = root(states[i - 1].1, p.1);
        if l != r {
            law_merge_keeps_ids(states[i - 1].0, states[i - 1].1, states[i].0, states[i].1, l, r);
        }
    }
}

/// Along a run of merges of mergeable links every state stands for the
/// ids of the first.
proof fn lemma_hint_run_covered(states: Seq<(Map<u64, Node>, Map<u64, u64>)>, pairs: Seq<(u64, u64)>, i: int)
    requires
        hint_run(states, pairs),
        0 <= i <= pairs.len(),
    ensures
        covered(states[i].0) == covered(states[0].0),
    decreases i,
{
    if i > 0 {
        lemma_hint_run_covered(states, pairs, i - 1);
        let p = pairs[i - 1];
        assert(hint_step(states[i - 1].0, states[i - 1].1, states[i].0, states[i].1, p));
        law_merge_keeps_ids(states[i - 1].0, states[i - 1].1, states[i].0, states[i].1, p.0, p.1);
    }
}

/// Compressing a graph keeps the ids that its nodes stand for: every
/// original block ends up in some compressed node.
pub proof fn law_compress_keeps_ids(
    on: Map<u64, Node>,
    om: Map<u64, u64>,
    nn: Map<u64, Node>,
    nm: Map<u64, u64>,
    pairs: Seq<(u64, u64)>,
)
    requires
        merges_applied(on, om, nn, nm, pairs),
    ensures
        covered(nn) == covered(on),
{
    let states = choose|states: Seq<(Map<u64, Node>, Map<u64, u64>)>|
        #[trigger] merge_run(states, pairs) && states[0] == (on, om) && states.last().0 == nn
            && same_roots(states.last().1, nm);
    lemma_run_covered(states, pairs, pairs.len() as int);
}

/// Compressing around hints keeps the ids that the graph's nodes stand
/// for.
pub proof fn law_hint_keeps_ids(on: Map<u64, Node>, om: Map<u64, u64>, nn: Map<u64, Node>, nm: Map<u64, u64>)
    requires
        hint_merged(on, om, nn, nm),
    ensures
        covered(nn) == covered(on),
{
    let (states, pairs) = choose|states: Seq<(Map<u64, Node>, Map<u64, u64>)>, pairs: Seq<(u64, u64)>|
        #[trigger] hint_run(states, pairs) && states[0] == (on, om) && states.last().0 == nn
            && same_roots(states.last().1, nm);
    lemma_hint_run_covered(states, pairs, pairs.len() as int);
}

/// The links between `end` and each of `items` (other than `end` itself
/// where `except_end`): into `end` where `incoming`, out of it otherwise.
pub open spec fn links_of(items: Seq<u64>, end: u64, incoming: bool, except_end: bool) -> Set<(u64, u64)> {
    Set::new(
        |p: (u64, u64)|
            exists|a: int|
                0 <= a < items.len() && !(except_end && items[a] == end) && p == (if incoming {
                    (#[trigger] items[a], end)
                } else {
                    (end, items[a])
                }),
    )
}

/// The links of the first `j` of `items`, as `links_of` gives them.
pub open spec fn links_upto(items: Seq<u64>, j: usize, end: u64, incoming: bool, except_end: bool) -> Set<(u64, u64)> {
    links_of(items.take(j as int), end, incoming, except_end)
}

/// One more item adds its link, unless it is `end` and `end` is left out.
proof fn lemma_links_step(items: Seq<u64>, j: usize, j1: usize, end: u64, incoming: bool, except_end: bool)
    requires
        j < items.len(),
        j1 == j + 1,
    ensures
        links_upto(items, j1, end, incoming, except_end) == links_upto(items, j, end, incoming, except_end).union(
            if except_end && items[j as int] == end {
                Set::empty()
            } else {
                set![if incoming { (items[j as int], end) } else { (end, items[j as int]) }]
            },
        ),
{
    let t0 = items.take(j as int);
    let t1 = items.take(j + 1);
    let x = items[j as int];
    assert(t1[j as int] == x);
    assert forall|p: (u64, u64)| links_of(t1, end, incoming, except_end).contains(p) <==> links_of(t0, end, incoming, except_end).contains(p) || (!(except_end && x == end) && p == (if incoming { (x, end) } else { (end, x) })) by {
        if links_of(t1, end, incoming, except_end).contains(p) {
            let a = choose|a: int| 0 <= a < t1.len() && !(except_end && t1[a] == end) && p == (if incoming { (#[trigger] t1[a], end) } else { (end, t1[a]) });
            if a < j {
                assert(t0[a] == t1[a]);
            }
        }
        if links_of(t0, end, incoming, except_end).contains(p) {
            let a = choose|a: int| 0 <= a < t0.len() && !(except_end && t0[a] == end) && p == (if incoming { (#[trigger] t0[a], end) } else { (end, t0[a]) });
            assert(t1[a] == t0[a]);
        }
    }
    assert(links_of(t1, end, incoming, except_end) =~= links_of(t0, end, incoming, except_end).union(
        if except_end && x == end {
            Set::empty()
        } else {
            set![if incoming { (x, end) } else { (end, x) }]
        },
    ));
}

/// All the items give all the links.
proof fn lemma_links_all(items: Seq<u64>, n: usize, end: u64, incoming: bool, except_end: bool)
    requires
        n == items.len(),
    ensures
        links_upto(items, n, end, incoming, except_end) == links_of(items, end, incoming, except_end),
{
    assert(items.take(n as int) =~= items);
}

} // verus!
