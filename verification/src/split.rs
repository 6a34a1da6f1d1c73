use crate::compress::replaced;
use crate::graph::{
    first_index_of, is_self_loop, known, lemma_first_exists, lemma_min_first_keeps, lemma_seq_min,
    lemma_seq_min_concat, merges_decrease, min_first, of_items, root, seq_min, updated, Graph, Node,
    OfList,
};
use crate::small_set::SmallU64Set;
use vstd::prelude::*;

verus! {

/// The ids at positions `lo..hi` of a list, as a new list.
fn of_slice(of: &OfList, lo: usize, hi: usize) -> (r: OfList)
    requires
        lo <= hi <= of_items(*of).len(),
    ensures
        of_items(r) == of_items(*of).subrange(lo as int, hi as int),
{
    let mut r = OfList::new();
    let mut i = lo;
    while i < hi
        invariant
            lo <= i <= hi <= of_items(*of).len(),
            of_items(r) == of_items(*of).subrange(lo as int, i as int),
        decreases hi - i,
    {
        r.push(of.get(i));
        proof {
            assert(of_items(r) =~= of_items(*of).subrange(lo as int, i + 1));
        }
        i = i + 1;
    }
    r
}

/// Taking an id out of the merges ends some chains at it and leaves every
/// other root alone.
proof fn lemma_root_remove(m: Map<u64, u64>, k: u64, x: u64)
    requires
        merges_decrease(m),
    ensures
        root(m.remove(k), x) == root(m, x) || root(m.remove(k), x) == k,
    decreases x,
{
    if x != k && m.contains_key(x) {
        lemma_root_remove(m, k, m[x]);
    }
}

/// What the node `m` becomes when split into the ids before position
/// `cut` (`p1`'s part) and those from `cut` on (`p2`'s part); used by
/// `split_result`.
pub open spec fn split_parts(s: Seq<u64>, cut: int) -> (Seq<u64>, Seq<u64>) {
    (s.subrange(0, cut), s.subrange(cut, s.len() as int))
}

/// `nn`, `nm` are what splitting the node `m` of `on`, `om`, holding the
/// ids `s`, before position `cut` makes of the graph: two nodes, each named by
/// the least id of its part, the first taking the edges into `m` and an
/// edge to the second, the second taking the edges out of `m`; the nodes
/// that `m` had edges with name the new nodes instead.
pub open spec fn split_result(
    on: Map<u64, Node>,
    om: Map<u64, u64>,
    nn: Map<u64, Node>,
    nm: Map<u64, u64>,
    m: u64,
    s: Seq<u64>,
    cut: int,
) -> bool {
    let a = split_parts(s, cut).0;
    let b = split_parts(s, cut).1;
    let p1 = seq_min(a);
    let p2 = seq_min(b);
    let nf = on[m].from@;
    let nt = on[m].to@;
    &&& nm == om.remove(p2).remove(p1)
    &&& nn.dom() == on.dom().remove(m).insert(p1).insert(p2)
    &&& forall|k: u64| #[trigger]
        nn.contains_key(k) ==> {
            let bid = if k == p2 {
                p2
            } else if k == p1 {
                p1
            } else {
                on[k].id
            };
            let bof = if k == p2 {
                b
            } else if k == p1 {
                a
            } else {
                of_items(on[k].of)
            };
            let bfrom = if k == p2 {
                set![p1]
            } else if k == p1 {
                nf
            } else {
                on[k].from@
            };
            let bto = if k == p2 {
                nt
            } else if k == p1 {
                set![p2]
            } else {
                on[k].to@
            };
            &&& nn[k].id == bid
            &&& of_items(nn[k].of) == bof
            &&& nn[k].from@ == if nt.contains(k) {
                replaced(bfrom, m, p2)
            } else {
                bfrom
            }
            &&& nn[k].to@ == if nf.contains(k) {
                replaced(bto, m, p1)
            } else {
                bto
            }
        }
}

impl Graph {
    /// Splits the node `merged_in` before position `cut` of its ids.
    #[verifier::rlimit(60)]
    fn split_at(&mut self, merged_in: u64, cut: usize) -> (parts: (u64, u64))
        requires
            old(self).wf(),
            old(self).nodes@.contains_key(merged_in),
            0 < cut < of_items(old(self).nodes@[merged_in].of).len(),
        ensures
            final(self).wf(),
            parts == (
                seq_min(split_parts(of_items(old(self).nodes@[merged_in].of), cut as int).0),
                seq_min(split_parts(of_items(old(self).nodes@[merged_in].of), cut as int).1),
            ),
            split_result(
                old(self).nodes@,
                old(self).merges@,
                final(self).nodes@,
                final(self).merges@,
                merged_in,
                of_items(old(self).nodes@[merged_in].of),
                cut as int,
            ),
    {
        let ghost on = old(self).nodes@;
        let ghost om = old(self).merges@;
        let ghost s = of_items(on[merged_in].of);
        let node = self.nodes.get(&merged_in).unwrap().clone();
        let len = node.of.len();
        let part1_of = of_slice(&node.of, 0, cut);
        let part2_of = of_slice(&node.of, cut, len);
        let part1 = crate::graph::of_min_all(&part1_of);
        let part2 = crate::graph::of_min_all(&part2_of);
        let ghost a = of_items(part1_of);
        let ghost b = of_items(part2_of);
        proof {
            assert(a =~= split_parts(s, cut as int).0);
            assert(b =~= split_parts(s, cut as int).1);
            assert(s =~= a + b);
            lemma_seq_min_concat(a, b);
            lemma_seq_min(a);
            lemma_seq_min(b);
        }
        let partition_1 = Node {
            id: part1,
            from: node.from.clone(),
            to: SmallU64Set::collect(&[part2]),
            of: part1_of,
        };
        let partition_2 = Node {
            id: part2,
            from: SmallU64Set::collect(&[part1]),
            to: node.to.clone(),
            of: part2_of,
        };
        self.merges.remove(&part2);
        self.merges.remove(&part1);
        self.nodes.remove(&merged_in);
        self.nodes.insert(part1, partition_1);
        self.nodes.insert(part2, partition_2);
        let ghost g1 = *self;
        proof {
            crate::graph::lemma_singleton_to_set(part1);
            crate::graph::lemma_singleton_to_set(part2);
            assert(self.merges@ =~= om.remove(part2).remove(part1));
            assert(self.nodes@.dom() =~= on.dom().remove(merged_in).insert(part1).insert(part2));
            assert(self.nodes@ =~= on.remove(merged_in).insert(part1, self.nodes@[part1]).insert(part2, self.nodes@[part2]));
            assert(self.nodes@[part2].id == part2);
            assert(of_items(self.nodes@[part2].of) == b);
            assert(self.nodes@[part2].from@ == set![part1]);
            assert(self.nodes@[part2].to@ == on[merged_in].to@);
            assert(self.nodes@[part2].wf());
            if part1 != part2 {
                assert(self.nodes@[part1].id == part1);
                assert(of_items(self.nodes@[part1].of) == a);
                assert(self.nodes@[part1].from@ == on[merged_in].from@);
                assert(self.nodes@[part1].to@ == set![part2]);
                assert(self.nodes@[part1].wf());
            }
            Graph::lemma_split_mid_wf(*old(self), *self, merged_in, cut as int);
        }
        let tos = node.to.clone();
        let froms = node.from.clone();
        self.update_from_after_split(merged_in, part2, tos);
        let ghost g2 = *self;
        self.update_to_after_split(merged_in, part1, froms);
        proof {
            assert forall|k: u64| #[trigger] self.nodes@.contains_key(k) implies {
                &&& self.nodes@[k].id == g1.nodes@[k].id
                &&& self.nodes@[k].of == g1.nodes@[k].of
                &&& self.nodes@[k].from@ == if on[merged_in].to@.contains(k) {
                    replaced(g1.nodes@[k].from@, merged_in, part2)
                } else {
                    g1.nodes@[k].from@
                }
                &&& self.nodes@[k].to@ == if on[merged_in].from@.contains(k) {
                    replaced(g1.nodes@[k].to@, merged_in, part1)
                } else {
                    g1.nodes@[k].to@
                }
            } by {
                assert(g2.nodes@.contains_key(k));
            }
        }
        (part1, part2)
    }

    /// The state right after a node is replaced by its two parts is
    /// consistent.
    proof fn lemma_split_mid_wf(g0: Graph, g1: Graph, m: u64, cut: int)
        requires
            g0.wf(),
            g0.nodes@.contains_key(m),
            0 < cut < of_items(g0.nodes@[m].of).len(),
            ({
                let a = split_parts(of_items(g0.nodes@[m].of), cut).0;
                let b = split_parts(of_items(g0.nodes@[m].of), cut).1;
                let p1 = seq_min(a);
                let p2 = seq_min(b);
                &&& g1.merges@ == g0.merges@.remove(p2).remove(p1)
                &&& g1.nodes@ == g0.nodes@.remove(m).insert(p1, g1.nodes@[p1]).insert(p2, g1.nodes@[p2])
                &&& p1 != p2 ==> g1.nodes@[p1].id == p1 && of_items(g1.nodes@[p1].of) == a
                    && g1.nodes@[p1].from@ == g0.nodes@[m].from@ && g1.nodes@[p1].to@ == set![p2]
                    && g1.nodes@[p1].wf()
                &&& g1.nodes@[p2].id == p2
                &&& of_items(g1.nodes@[p2].of) == b
                &&& g1.nodes@[p2].from@ == set![p1]
                &&& g1.nodes@[p2].to@ == g0.nodes@[m].to@
                &&& g1.nodes@[p2].wf()
            }),
        ensures
            g1.wf(),
    {
        let on = g0.nodes@;
        let om = g0.merges@;
        let a = split_parts(of_items(on[m].of), cut).0;
        let b = split_parts(of_items(on[m].of), cut).1;
        let s = of_items(on[m].of);
        let p1 = seq_min(a);
        let p2 = seq_min(b);
        let n1 = g1.nodes@;
        let m1 = g1.merges@;
        assert(s =~= a + b);
        lemma_seq_min_concat(a, b);
        assert(m == p1 || m == p2);
        assert forall|x: u64| known(on, om, x) implies #[trigger] known(n1, m1, x) by {
            if on.contains_key(x) && x != m {
                assert(n1.contains_key(x));
            } else if om.contains_key(x) && x != p1 && x != p2 {
                assert(m1.contains_key(x));
            }
        }
        assert forall|k: u64| #[trigger] m1.contains_key(k) implies n1.contains_key(root(m1, k)) by {
            lemma_root_remove(om, p2, k);
            lemma_root_remove(om.remove(p2), p1, k);
            assert(on.contains_key(root(om, k)));
        }
        assert forall|k: u64, x: u64|
            n1.contains_key(k) && (n1[k].to@.contains(x) || n1[k].from@.contains(x)) implies known(n1, m1, x) by {
            if k == p2 {
                if n1[k].from@.contains(x) {
                    assert(x == p1);
                } else {
                    assert(on[m].to@.contains(x));
                    assert(known(on, om, x));
                }
            } else if k == p1 {
                if n1[k].to@.contains(x) {
                    assert(x == p2);
                } else {
                    assert(on[m].from@.contains(x));
                    assert(known(on, om, x));
                }
            } else {
                assert(n1[k] == on[k]);
                if n1[k].to@.contains(x) {
                    assert(on[k].to@.contains(x));
                } else {
                    assert(on[k].from@.contains(x));
                }
                assert(known(on, om, x));
            }
        }
        assert forall|k: u64| #[trigger] n1.contains_key(k) implies {
            &&& n1[k].id == k
            &&& n1[k].wf()
            &&& !m1.contains_key(k)
            &&& of_items(n1[k].of).len() > 0
            &&& seq_min(of_items(n1[k].of)) == k
        } by {
            if k != p1 && k != p2 {
                assert(on.contains_key(k));
            }
        }
    }
}

/// The first position of `v` in a list, if it holds it.
fn of_find(of: &OfList, v: u64) -> (r: Option<usize>)
    ensures
        match r {
            None => !of_items(*of).contains(v),
            Some(i) => of_items(*of).contains(v) && i == first_index_of(of_items(*of), v) && i < of_items(
                *of,
            ).len(),
        },
{
    let n = of.len();
    let mut i: usize = 0;
    while i < n
        invariant
            0 <= i <= n,
            n == of_items(*of).len(),
            forall|j: int| 0 <= j < i ==> of_items(*of)[j] != v,
        decreases n - i,
    {
        if of.get(i) == v {
            proof {
                crate::graph::lemma_first_index_of(of_items(*of), v, i as int);
                assert(of_items(*of)[i as int] == v);
            }
            return Some(i);
        }
        i = i + 1;
    }
    None
}

/// The list turned so that the element at `idx` comes last.
pub open spec fn last_at(s: Seq<u64>, idx: int) -> Seq<u64> {
    s.subrange(idx + 1, s.len() as int) + s.subrange(0, idx + 1)
}

impl Graph {
    /// Split merged node before occurrence of new "to" connection
    /// returns the node id's of new nodes after split
    pub fn split_before(&mut self, before: u64, merged_in: u64) -> (parts: (u64, u64))
        requires
            old(self).wf(),
            old(self).nodes@.contains_key(merged_in),
        ensures
            final(self).wf(),
            ({
                let s = of_items(old(self).nodes@[merged_in].of);
                let i = first_index_of(s, before);
                if !s.contains(before) {
                    parts == (before, before) && final(self).nodes@ == old(self).nodes@
                        && final(self).merges@ == old(self).merges@
                } else if i == 0 {
                    parts == (merged_in, merged_in) && final(self).nodes@ == old(self).nodes@
                        && final(self).merges@ == old(self).merges@
                } else {
                    &&& parts == (seq_min(split_parts(s, i).0), seq_min(split_parts(s, i).1))
                    &&& split_result(
                        old(self).nodes@,
                        old(self).merges@,
                        final(self).nodes@,
                        final(self).merges@,
                        merged_in,
                        s,
                        i,
                    )
                }
            }),
    {
        let node = self.get(merged_in).unwrap().clone();
        match of_find(&node.of, before) {
            None => (before, before),
            Some(i) => {
                if i > 0 {
                    self.split_at(merged_in, i)
                } else {
                    (node.id, node.id)
                }
            },
        }
    }

    /// Split a merged node after occurence of "after" node
    /// returns the node id's of new nodes after split
    #[verifier::rlimit(40)]
    pub fn split_after(&mut self, after: u64, merged_in: u64) -> (parts: (u64, u64))
        requires
            old(self).wf(),
            old(self).nodes@.contains_key(merged_in),
        ensures
            final(self).wf(),
            ({
                let o = old(self).nodes@[merged_in];
                let s0 = of_items(o.of);
                let s = if is_self_loop(o) && s0.contains(after) {
                    last_at(s0, first_index_of(s0, after))
                } else {
                    s0
                };
                let i = first_index_of(s, after);
                if !s.contains(after) || i == s.len() - 1 {
                    &&& parts == (if s.contains(after) {
                        (merged_in, merged_in)
                    } else {
                        (after, after)
                    })
                    &&& final(self).merges@ == old(self).merges@
                    &&& final(self).nodes@.dom() == old(self).nodes@.dom()
                    &&& forall|k: u64| #[trigger]
                        final(self).nodes@.contains_key(k) && k != merged_in ==> final(self).nodes@[k]
                            == old(self).nodes@[k]
                    &&& final(self).nodes@[merged_in].id == o.id
                    &&& final(self).nodes@[merged_in].from == o.from
                    &&& final(self).nodes@[merged_in].to == o.to
                    &&& of_items(final(self).nodes@[merged_in].of) == s
                } else {
                    &&& parts == (seq_min(split_parts(s, i + 1).0), seq_min(split_parts(s, i + 1).1))
                    &&& split_result(
                        old(self).nodes@,
                        old(self).merges@,
                        final(self).nodes@,
                        final(self).merges@,
                        merged_in,
                        s,
                        i + 1,
                    )
                }
            }),
            of_items(old(self).nodes@[merged_in].of).contains(after) ==> final(self).nodes@.contains_key(parts.0)
                && final(self).nodes@.contains_key(parts.1),
    {
        let node = self.get(merged_in).unwrap().clone();
        let ghost o = old(self).nodes@[merged_in];
        let ghost s0 = of_items(o.of);
        if self.is_loop(merged_in) {
            if let Some(index) = of_find(&node.of, after) {
                self.rotate_to_end(merged_in, index);
                proof {
                    lemma_last_at_contains(s0, index as int, after);
                }
            }
        }
        let ghost mid = *self;
        let cur = self.nodes.get(&merged_in).unwrap().of.clone();
        let len = cur.len();
        match of_find(&cur, after) {
            None => (after, after),
            Some(i) => {
                if i < len - 1 {
                    let parts = self.split_at(merged_in, i + 1);
                    proof {
                        lemma_seq_min(split_parts(of_items(mid.nodes@[merged_in].of), i + 1).0);
                        lemma_seq_min(split_parts(of_items(mid.nodes@[merged_in].of), i + 1).1);
                        assert(split_result(
                            old(self).nodes@,
                            old(self).merges@,
                            self.nodes@,
                            self.merges@,
                            merged_in,
                            of_items(mid.nodes@[merged_in].of),
                            i + 1,
                        ));
                    }
                    parts
                } else {
                    (node.id, node.id)
                }
            },
        }
    }
}

/// Lists with one multiset have one least element.
proof fn lemma_seq_min_same_multiset(a: Seq<u64>, b: Seq<u64>)
    requires
        a.len() > 0,
        a.to_multiset() == b.to_multiset(),
    ensures
        seq_min(a) == seq_min(b),
{
    broadcast use vstd::seq_lib::to_multiset_contains;

    vstd::seq_lib::to_multiset_len(a);
    vstd::seq_lib::to_multiset_len(b);
    lemma_seq_min(a);
    assert(a.to_multiset().count(seq_min(a)) > 0);
    assert(b.contains(seq_min(a)));
    assert forall|i: int| 0 <= i < b.len() implies seq_min(a) <= #[trigger] b[i] by {
        assert(b.contains(b[i]));
        assert(b.to_multiset().count(b[i]) > 0);
        assert(a.contains(b[i]));
    }
    crate::graph::lemma_seq_min_is(b, seq_min(a));
}

impl Graph {
    /// Turns the ids of the node `merged_in` so that the one at `index`
    /// comes last.
    fn rotate_to_end(&mut self, merged_in: u64, index: usize)
        requires
            old(self).wf(),
            old(self).nodes@.contains_key(merged_in),
            index < of_items(old(self).nodes@[merged_in].of).len(),
        ensures
            final(self).wf(),
            final(self).merges@ == old(self).merges@,
            final(self).nodes@.dom() == old(self).nodes@.dom(),
            forall|k: u64| #[trigger]
                final(self).nodes@.contains_key(k) && k != merged_in ==> final(self).nodes@[k]
                    == old(self).nodes@[k],
            final(self).nodes@[merged_in].id == old(self).nodes@[merged_in].id,
            final(self).nodes@[merged_in].from == old(self).nodes@[merged_in].from,
            final(self).nodes@[merged_in].to == old(self).nodes@[merged_in].to,
            of_items(final(self).nodes@[merged_in].of) == last_at(
                of_items(old(self).nodes@[merged_in].of),
                index as int,
            ),
    {
        let ghost s0 = of_items(old(self).nodes@[merged_in].of);
        let mut n = self.nodes.remove(&merged_in).unwrap();
        let rotate = n.of.len() - index - 1;
        n.of.rotate_right(rotate);
        self.nodes.insert(merged_in, n);
        proof {
            let s1 = of_items(self.nodes@[merged_in].of);
            assert(s1 =~= last_at(s0, index as int));
            assert(self.nodes@.dom() =~= old(self).nodes@.dom());
            assert(s1.to_multiset() == s0.to_multiset()) by {
                vstd::seq_lib::lemma_multiset_commutative(
                    s0.subrange(index + 1, s0.len() as int),
                    s0.subrange(0, index + 1),
                );
                assert(s0 =~= s0.subrange(0, index + 1) + s0.subrange(index + 1, s0.len() as int));
                vstd::seq_lib::lemma_multiset_commutative(
                    s0.subrange(0, index + 1),
                    s0.subrange(index + 1, s0.len() as int),
                );
            }
            lemma_seq_min_same_multiset(s0, s1);
            vstd::seq_lib::to_multiset_len(s0);
            vstd::seq_lib::to_multiset_len(s1);
            self.lemma_wf_replace_of(*old(self), merged_in);
        }
    }
}

/// Turning a list keeps what it holds.
proof fn lemma_last_at_contains(s: Seq<u64>, idx: int, x: u64)
    requires
        0 <= idx < s.len(),
        s.contains(x),
    ensures
        last_at(s, idx).contains(x),
{
    let t = last_at(s, idx);
    let j = choose|j: int| 0 <= j < s.len() && s[j] == x;
    if j > idx {
        assert(t[j - idx - 1] == x);
    } else {
        assert(t[s.len() - idx - 1 + j] == x);
    }
}

/// `n` is what `split_after(after, m)` makes of `o`, with `parts` its
/// result, as its contract states.
pub open spec fn after_split(o: Graph, n: Graph, after: u64, m: u64, parts: (u64, u64)) -> bool {
    let on = o.nodes@[m];
    let s0 = of_items(on.of);
    let s = if is_self_loop(on) && s0.contains(after) {
        last_at(s0, first_index_of(s0, after))
    } else {
        s0
    };
    let i = first_index_of(s, after);
    &&& n.wf()
    &&& if !s.contains(after) || i == s.len() - 1 {
        &&& parts == (if s.contains(after) {
            (m, m)
        } else {
            (after, after)
        })
        &&& n.merges@ == o.merges@
        &&& n.nodes@.dom() == o.nodes@.dom()
        &&& forall|k: u64| #[trigger] n.nodes@.contains_key(k) && k != m ==> n.nodes@[k] == o.nodes@[k]
        &&& n.nodes@[m].id == on.id
        &&& n.nodes@[m].from == on.from
        &&& n.nodes@[m].to == on.to
        &&& of_items(n.nodes@[m].of) == s
    } else {
        &&& parts == (seq_min(split_parts(s, i + 1).0), seq_min(split_parts(s, i + 1).1))
        &&& split_result(o.nodes@, o.merges@, n.nodes@, n.merges@, m, s, i + 1)
    }
    &&& s0.contains(after) ==> n.nodes@.contains_key(parts.0) && n.nodes@.contains_key(parts.1)
}

/// `n` is what `split_before(before, m)` makes of `o`, with `parts` its
/// result, as its contract states.
pub open spec fn before_split(o: Graph, n: Graph, before: u64, m: u64, parts: (u64, u64)) -> bool {
    let s = of_items(o.nodes@[m].of);
    let i = first_index_of(s, before);
    &&& n.wf()
    &&& if !s.contains(before) {
        parts == (before, before) && n.nodes@ == o.nodes@ && n.merges@ == o.merges@
    } else if i == 0 {
        parts == (m, m) && n.nodes@ == o.nodes@ && n.merges@ == o.merges@
    } else {
        &&& parts == (seq_min(split_parts(s, i).0), seq_min(split_parts(s, i).1))
        &&& split_result(o.nodes@, o.merges@, n.nodes@, n.merges@, m, s, i)
    }
}

/// `n` is what `update_known(from, to)` makes of `o`.
pub open spec fn known_updated(o: Graph, n: Graph, from: u64, to: u64) -> bool {
    &&& n.wf()
    &&& if !o.merges@.contains_key(from) && !o.merges@.contains_key(to) {
        updated(o, n, from, to)
    } else {
        n == o
    }
}

/// The node taken to hold `x`, as `picks` chooses it, if any holds it.
pub open spec fn holder(nodes: Map<u64, Node>, x: u64) -> Option<u64> {
    if exists|k: u64| #[trigger] picks(nodes, k, x) {
        Some(choose|k: u64| #[trigger] picks(nodes, k, x))
    } else {
        None
    }
}

/// The last part of adding an edge from `from_node` to `to` in `s`: the
/// node holding `to` is split before it, and the edge is added.
pub open spec fn reverted_to(s: Graph, n: Graph, from_node: u64, to: u64) -> bool {
    match holder(s.nodes@, to) {
        Some(k) => exists|g: Graph, p: (u64, u64)|
            #[trigger] before_split(s, g, to, k, p) && known_updated(g, n, from_node, p.1),
        None => known_updated(s, n, from_node, to),
    }
}

/// `n` is what `revert_and_update(from, to)` makes of `o`: the nodes
/// holding the ends are split so that `from` ends its node and `to` starts
/// its own, and the edge is added between the parts; nothing changes where
/// `to` already follows `from` inside one node.
pub open spec fn reverted(o: Graph, n: Graph, from: u64, to: u64) -> bool {
    let on = o.nodes@;
    if from == to && holder(on, from) is Some {
        let k = holder(on, from)->0;
        if on[k].id == from && of_items(on[k].of).len() == 1 {
            known_updated(o, n, from, from)
        } else {
            exists|g1: Graph, p1: (u64, u64), g2: Graph, p2: (u64, u64)|
                #[trigger] after_split(o, g1, from, k, p1) && #[trigger] before_split(g1, g2, to, p1.0, p2)
                    && known_updated(g2, n, p2.1, p2.1)
        }
    } else {
        match holder(on, from) {
            Some(k) => {
                let s = of_items(on[k].of);
                if s.contains(to) && first_index_of(s, to) > 0 && first_index_of(s, to) - 1 == first_index_of(
                    s,
                    from,
                ) {
                    n == o
                } else {
                    exists|g1: Graph, p1: (u64, u64)|
                        #[trigger] after_split(o, g1, from, k, p1) && if s.contains(to) {
                            if of_items(g1.nodes@[p1.0].of).contains(to) {
                                exists|g2: Graph, p2: (u64, u64)|
                                    #[trigger] before_split(g1, g2, to, p1.0, p2) && known_updated(g2, n, p2.1, p2.1)
                            } else {
                                exists|g2: Graph, p2: (u64, u64)|
                                    #[trigger] before_split(g1, g2, to, p1.1, p2) && known_updated(g2, n, p1.0, p2.1)
                            }
                        } else {
                            reverted_to(g1, n, p1.0, to)
                        }
                }
            },
            None => reverted_to(o, n, from, to),
        }
    }
}

/// The node that `picks` takes is the only one it takes.
proof fn lemma_holder(nodes: Map<u64, Node>, x: u64, k: u64)
    requires
        picks(nodes, k, x),
    ensures
        holder(nodes, x) == Some(k),
{
    let k2 = choose|k2: u64| #[trigger] picks(nodes, k2, x);
    assert(picks(nodes, k2, x));
    if !nodes.contains_key(x) {
        assert(k <= k2);
        assert(k2 <= k);
    }
}

/// No node holds `x`, so `picks` takes none.
proof fn lemma_no_holder(nodes: Map<u64, Node>, x: u64)
    requires
        !nodes.contains_key(x),
        forall|k: u64| #[trigger] nodes.contains_key(k) ==> !of_items(nodes[k].of).contains(x),
    ensures
        holder(nodes, x) is None,
{
    if exists|k: u64| #[trigger] picks(nodes, k, x) {
        let k = choose|k: u64| #[trigger] picks(nodes, k, x);
        assert(nodes.contains_key(k));
    }
}

/// `k` is the node taken to hold `x`: the one named `x`, else the least,
/// by id, whose ids include `x`.
pub open spec fn picks(nodes: Map<u64, Node>, k: u64, x: u64) -> bool {
    &&& nodes.contains_key(k)
    &&& of_items(nodes[k].of).contains(x)
    &&& nodes.contains_key(x) ==> k == x
    &&& !nodes.contains_key(x) ==> forall|k2: u64| #[trigger]
        nodes.contains_key(k2) && of_items(nodes[k2].of).contains(x) ==> k <= k2
}

impl Graph {
    /// The node that holds `x`: the one named `x`, else the first, by id,
    /// whose ids include `x`.
    fn find_holding(&self, x: u64) -> (r: Option<u64>)
        requires
            self.wf(),
        ensures
            match r {
                Some(k) => picks(self.nodes@, k, x),
                None => !self.nodes@.contains_key(x) && forall|k: u64| #[trigger]
                    self.nodes@.contains_key(k) ==> !of_items(self.nodes@[k].of).contains(x),
            },
            r == holder(self.nodes@, x),
    {
        if self.nodes.contains_key(&x) {
            proof {
                lemma_seq_min(of_items(self.nodes@[x].of));
                lemma_holder(self.nodes@, x, x);
            }
            return Some(x);
        }
        let ks = crate::graph::sorted_keys(&self.nodes);
        let mut i: usize = 0;
        while i < ks.len()
            invariant
                0 <= i <= ks@.len(),
                ks@.to_set() == self.nodes@.dom(),
                !self.nodes@.contains_key(x),
                forall|a: int, b: int| 0 <= a < b < ks@.len() ==> #[trigger] ks@[a] < #[trigger] ks@[b],
                forall|a: int| 0 <= a < i ==> !of_items(self.nodes@[#[trigger] ks@[a]].of).contains(x),
            decreases ks@.len() - i,
        {
            let k = ks[i];
            assert(ks@.to_set().contains(k));
            let n = self.nodes.get(&k).unwrap();
            if of_find(&n.of, x).is_some() {
                proof {
                    assert forall|k2: u64| #[trigger] self.nodes@.contains_key(k2) && of_items(self.nodes@[k2].of).contains(x) implies k <= k2 by {
                        assert(ks@.to_set().contains(k2));
                        let a = choose|a: int| 0 <= a < ks@.len() && ks@[a] == k2;
                        if a < i {
                            assert(!of_items(self.nodes@[ks@[a]].of).contains(x));
                        } else if a > i {
                            assert(ks@[i as int] < ks@[a]);
                        }
                    }
                    lemma_holder(self.nodes@, x, k);
                }
                return Some(k);
            }
            i = i + 1;
        }
        proof {
            assert forall|k: u64| #[trigger] self.nodes@.contains_key(k) implies !of_items(self.nodes@[k].of).contains(x) by {
                assert(ks@.to_set().contains(k));
                let a = choose|a: int| 0 <= a < ks@.len() && ks@[a] == k;
                assert(!of_items(self.nodes@[ks@[a]].of).contains(x));
            }
            lemma_no_holder(self.nodes@, x);
        }
        None
    }

    /// `update`, for ids that were not merged away: an id that was merged
    /// into another node, and that no node holds any more, starts no node
    /// of its own.
    fn update_known(&mut self, from: u64, to: u64)
        requires
            old(self).wf(),
        ensures
            final(self).wf(),
            if !old(self).merges@.contains_key(from) && !old(self).merges@.contains_key(to) {
                updated(*old(self), *final(self), from, to)
            } else {
                *final(self) == *old(self)
            },
    {
        if !self.merges.contains_key(&from) && !self.merges.contains_key(&to) {
            self.update(from, to);
        }
    }

    /// Adds the edge from `from` to `to` to a compressed graph: where an
    /// end lies inside a compressed node, that node is split so that
    /// `from` ends one part and `to` starts another (a node with an
    /// incoming edge to a non-first id, or an outgoing edge from a non-last
    /// one, cannot stay compressed), and the edge is added between the
    /// parts, as `reverted` states.
    #[verifier::rlimit(40)]
    pub fn revert_and_update(&mut self, from: u64, to: u64)
        requires
            old(self).wf(),
        ensures
            final(self).wf(),
            reverted(*old(self), *final(self), from, to),
    {
        let ghost o = *old(self);
        let mut from_node = from;
        let mut to_node = to;
        // Self loop
        if from == to {
            if let Some(k) = self.find_holding(from) {
                let n = self.nodes.get(&k).unwrap();
                if n.id == from && n.of.len() == 1 {
                    // no need to split any compressed nodes
                    self.update_known(from, from);
                    return ;
                } else {
                    // self loop in a compressed node, split around it
                    let (f, r1) = self.split_after(from, k);
                    let ghost g1 = *self;
                    proof {
                        assert(after_split(o, g1, from, k, (f, r1)));
                    }
                    from_node = f;
                    let (r2, t) = self.split_before(to, from_node);
                    let ghost g2 = *self;
                    proof {
                        assert(before_split(g1, g2, to, f, (r2, t)));
                    }
                    to_node = t;
                    self.update_known(to_node, to_node);
                    proof {
                        assert(known_updated(g2, *self, t, t));
                    }
                    return ;
                }
            }
        }
        // find from node
        if let Some(k) = self.find_holding(from) {
            // from node exists
            let of = self.nodes.get(&k).unwrap().of.clone();
            // is to node in same node?
            let to_pos = of_find(&of, to);
            let same = to_pos.is_some();
            if let Some(tp) = to_pos {
                match of_find(&of, from) {
                    Some(fp) => {
                        // to-node is directly after from-node, nothing to do
                        if tp > 0 && tp - 1 == fp {
                            return ;
                        }
                    },
                    None => {},
                }
            }
            let (f, rest) = self.split_after(from, k);
            let ghost g1 = *self;
            proof {
                assert(after_split(o, g1, from, k, (f, rest)));
            }
            from_node = f;
            // to was somewhere else in same
            if same {
                let in_from = of_find(&self.nodes.get(&from_node).unwrap().of, to).is_some();
                if in_from {
                    // to node still in same after first split
                    let (r2, t) = self.split_before(to, from_node);
                    let ghost g2 = *self;
                    proof {
                        assert(before_split(g1, g2, to, f, (r2, t)));
                    }
                    self.update_known(t, t);
                    proof {
                        assert(known_updated(g2, *self, t, t));
                    }
                    return ;
                } else {
                    // to node ended up in the other partition after first split
                    let (r2, t) = self.split_before(to, rest);
                    let ghost g2 = *self;
                    proof {
                        assert(before_split(g1, g2, to, rest, (r2, t)));
                    }
                    self.update_known(from_node, t);
                    proof {
                        assert(known_updated(g2, *self, f, t));
                    }
                    return ;
                }
            }
        }
        // to node wasn't found in same as from node
        let ghost s1 = *self;
        if let Some(k) = self.find_holding(to) {
            let (r2, t) = self.split_before(to, k);
            let ghost g2 = *self;
            proof {
                assert(before_split(s1, g2, to, k, (r2, t)));
            }
            to_node = t;
            self.update_known(from_node, to_node);
            proof {
                assert(known_updated(g2, *self, from_node, t));
                assert(reverted_to(s1, *self, from_node, to));
            }
        } else {
            self.update_known(from_node, to_node);
            proof {
                assert(reverted_to(s1, *self, from_node, to));
            }
        }
    }
}

} // verus!
