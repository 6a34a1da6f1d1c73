use std::collections::HashMap;
use vstd::prelude::*;

verus! {

/// Values of `parent_or_size` at or above this mark a root; the part above
/// the mark is the size of the root's group. Elements themselves lie below it.
pub const LIMIT: u64 = 0x8000_0000_0000_0000;

/// A disjoint-sets data structure
///
/// See <https://en.wikipedia.org/wiki/Disjoint-set_data_structure>
///
/// Conceptually we start with an empty graph with 2^63 nodes numbered 0, 1, ..
/// We have two operations that take amortized near-constant time:
/// - Merge: Connecting nodes `a` and `b` with an edge
/// - Canonicalize: Querying the minimum node within the component including `x`
pub struct DisjointSets {
    parent_or_size: HashMap<u64, u64>,
    root_names: HashMap<u64, u64>,
    /// The root of the tree that holds each element that has been touched.
    root_of: Ghost<Map<u64, u64>>,
    /// A rank that strictly grows from child to parent.
    rank: Ghost<Map<u64, nat>>,
}

/// The canonical element of `x` after a merge of the groups of `a` and `b`,
/// given the canonical elements before it.
pub open spec fn merged_canonical(before: spec_fn(u64) -> u64, a: u64, b: u64, x: u64) -> u64 {
    let ca = before(a);
    let cb = before(b);
    if before(x) == ca || before(x) == cb {
        if ca <= cb { ca } else { cb }
    } else {
        before(x)
    }
}

impl DisjointSets {
    /// Number of elements that the structure has touched so far.
    pub closed spec fn population(&self) -> nat {
        self.parent_or_size@.len()
    }

    spec fn is_root(&self, x: u64) -> bool {
        self.parent_or_size@.contains_key(x) && self.parent_or_size@[x] >= LIMIT
    }

    spec fn name_of(&self, r: u64) -> u64 {
        if self.root_names@.contains_key(r) {
            self.root_names@[r]
        } else {
            r
        }
    }

    spec fn members(&self, r: u64) -> Set<u64> {
        self.parent_or_size@.dom().filter(|y: u64| self.root_of@[y] == r)
    }

    /// The minimum element of the group holding `x`; an element that no
    /// operation has mentioned yet is a group of its own.
    pub closed spec fn canonical(&self, x: u64) -> u64 {
        if self.root_of@.contains_key(x) {
            self.name_of(self.root_of@[x])
        } else {
            x
        }
    }

    /// The canonical element of every element, as one function.
    pub open spec fn canonical_fn(&self) -> spec_fn(u64) -> u64 {
        |x: u64| self.canonical(x)
    }

    /// Internal consistency of the structure.
    pub closed spec fn wf(&self) -> bool {
        let p = self.parent_or_size@;
        let r = self.root_of@;
        let k = self.rank@;
        &&& p.dom() =~= r.dom()
        &&& p.dom() =~= k.dom()
        &&& self.root_names@.dom().subset_of(p.dom())
        &&& forall|x: u64| #[trigger] p.contains_key(x) ==> x < LIMIT
        &&& forall|x: u64| #[trigger]
            p.contains_key(x) ==> {
                &&& p.contains_key(r[x])
                &&& r[r[x]] == r[x]
                &&& p[r[x]] >= LIMIT
            }
        &&& forall|x: u64| #[trigger]
            self.is_root(x) ==> {
                &&& r[x] == x
                &&& (k[x] as int) < p[x] - LIMIT
                &&& self.members(x).finite()
                &&& p[x] - LIMIT == self.members(x).len()
                &&& p.contains_key(self.name_of(x))
                &&& r[self.name_of(x)] == x
                &&& forall|y: u64| #[trigger]
                    p.contains_key(y) && r[y] == x ==> self.name_of(x) <= y
            }
        &&& forall|x: u64| #[trigger]
            p.contains_key(x) && p[x] < LIMIT ==> {
                &&& p.contains_key(p[x])
                &&& r[p[x]] == r[x]
                &&& k[x] < k[p[x]]
                &&& k[x] < k[r[x]]
            }
    }

    /// An empty structure: every element is a group of its own.
    pub fn new() -> (s: Self)
        ensures
            s.wf(),
            s.population() == 0,
            forall|x: u64| s.canonical(x) == x,
    {
        DisjointSets {
            parent_or_size: HashMap::new(),
            root_names: HashMap::new(),
            root_of: Ghost(Map::empty()),
            rank: Ghost(Map::empty()),
        }
    }

    /// Retrieve the root element of the group containing `x`
    fn find(&mut self, x: u64) -> (root: u64)
        requires
            old(self).wf(),
            x < LIMIT,
        ensures
            final(self).wf(),
            final(self).is_root(root),
            final(self).root_of@.contains_key(x),
            final(self).root_of@[x] == root,
            final(self).root_names@ == old(self).root_names@,
            final(self).population() <= old(self).population() + 1,
            final(self).parent_or_size@.dom() == old(self).parent_or_size@.dom().insert(x),
            forall|y: u64| #[trigger]
                old(self).root_of@.contains_key(y) ==> final(self).root_of@[y] == old(self).root_of@[y],
            !old(self).root_of@.contains_key(x) ==> root == x,
            forall|y: u64| #[trigger] final(self).canonical(y) == old(self).canonical(y),
    {
        let first = match self.parent_or_size.get(&x) {
            Some(v) => *v,
            None => {
                proof {
                    self.lemma_fresh_members(x);
                }
                self.parent_or_size.insert(x, LIMIT + 1);
                proof {
                    self.root_of@ = self.root_of@.insert(x, x);
                    self.rank@ = self.rank@.insert(x, 0);
                    assert(self.members(x) =~= set![x]);
                    assert(!self.root_names@.contains_key(x));
                    assert forall|z: u64| #[trigger] self.is_root(z) implies {
                        &&& self.root_of@[z] == z
                        &&& (self.rank@[z] as int) < self.parent_or_size@[z] - LIMIT
                        &&& self.members(z).finite()
                        &&& self.parent_or_size@[z] - LIMIT == self.members(z).len()
                        &&& self.parent_or_size@.contains_key(self.name_of(z))
                        &&& self.root_of@[self.name_of(z)] == z
                        &&& forall|y: u64| #[trigger]
                            self.parent_or_size@.contains_key(y) && self.root_of@[y] == z ==> self.name_of(z) <= y
                    } by {
                        if z != x {
                            assert(old(self).is_root(z));
                            assert(self.members(z) =~= old(self).members(z));
                        }
                    }
                    assert(self.parent_or_size@.dom() =~= old(self).parent_or_size@.dom().insert(x));
                }
                return x;
            },
        };
        if first >= LIMIT {
            assert(self.is_root(x));
            return x;
        }
        let ghost root = self.root_of@[x];
        let mut along: Vec<u64> = vec![x];
        let mut cur = first;
        loop
            invariant
                self.wf(),
                *self == *old(self),
                self.parent_or_size@.contains_key(cur),
                self.root_of@[cur] == root,
                root == self.root_of@[x],
                self.parent_or_size@.contains_key(x),
                forall|i: int|
                    0 <= i < along.len() ==> {
                        &&& self.parent_or_size@.contains_key(#[trigger] along[i])
                        &&& self.parent_or_size@[along[i]] < LIMIT
                        &&& self.root_of@[along[i]] == root
                    },
            decreases LIMIT - self.rank@[cur],
        {
            proof {
                self.lemma_rank_bound(cur);
            }
            let y = *self.parent_or_size.get(&cur).unwrap();
            if y < LIMIT {
                assert(self.rank@[cur] < self.rank@[y]);
                along.push(cur);
                cur = y;
                proof {
                    self.lemma_rank_bound(cur);
                }
            } else {
                assert(self.is_root(cur));
                let ghost before = *self;
                let mut i: usize = 0;
                while i < along.len()
                    invariant
                        self.wf(),
                        0 <= i <= along.len(),
                        self.is_root(cur),
                        cur == root,
                        self.root_of@ == before.root_of@,
                        self.rank@ == before.rank@,
                        self.root_names@ == before.root_names@,
                        self.parent_or_size@.dom() == before.parent_or_size@.dom(),
                        before == *old(self),
                        root == self.root_of@[x],
                        forall|j: int|
                            0 <= j < along.len() ==> {
                                &&& self.parent_or_size@.contains_key(#[trigger] along[j])
                                &&& self.parent_or_size@[along[j]] < LIMIT
                                &&& self.root_of@[along[j]] == root
                            },
                    decreases along.len() - i,
                {
                    let v = along[i];
                    let ghost prev = *self;
                    self.parent_or_size.insert(v, cur);
                    proof {
                        assert(self.parent_or_size@.dom() =~= prev.parent_or_size@.dom());
                        assert forall|z: u64| #[trigger] self.is_root(z) implies self.members(z)
                            =~= prev.members(z) by {}
                        assert forall|z: u64| #[trigger] self.is_root(z) implies prev.is_root(z) by {}
                    }
                    i = i + 1;
                }
                return cur;
            }
        }
    }

    /// Merge the groups containing elements `a` and `b`
    pub fn merge(&mut self, a: u64, b: u64) -> (changed: bool)
        requires
            old(self).wf(),
            a < LIMIT,
            b < LIMIT,
            old(self).population() + 2 < LIMIT,
        ensures
            final(self).wf(),
            changed == (old(self).canonical(a) != old(self).canonical(b)),
            forall|x: u64| #[trigger]
                final(self).canonical(x) == merged_canonical(old(self).canonical_fn(), a, b, x),
            final(self).population() <= old(self).population() + 2,
    {
        let mut a = self.find(a);
        let mut b = self.find(b);
        if a == b {
            return false;
        }
        let ghost s1 = *self;
        proof {
            assert(self.parent_or_size@.contains_key(a));
            assert(self.root_of@[a] == a);
            assert(self.is_root(a));
            assert(self.is_root(b));
            self.lemma_names_distinct(a, b);
        }
        let size_a = *self.parent_or_size.get(&a).unwrap() - LIMIT;
        let size_b = *self.parent_or_size.get(&b).unwrap() - LIMIT;
        if size_a < size_b {
            std::mem::swap(&mut a, &mut b);
        }
        proof {
            self.lemma_disjoint_members(a, b);
            vstd::set_lib::lemma_set_disjoint_lens(self.members(a), self.members(b));
            vstd::set_lib::lemma_len_subset(
                self.members(a).union(self.members(b)),
                self.parent_or_size@.dom(),
            );
        }
        self.parent_or_size.insert(a, LIMIT + size_a + size_b);
        self.parent_or_size.insert(b, a);
        let name_b = match self.root_names.get(&b) {
            Some(v) => *v,
            None => b,
        };
        let mut name_a = match self.root_names.get(&a) {
            Some(v) => *v,
            None => a,
        };
        min_eq(&mut name_a, name_b);
        self.root_names.insert(a, name_a);
        proof {
            let old_root_of = self.root_of@;
            self.root_of@ = Map::new(
                |y: u64| old_root_of.contains_key(y),
                |y: u64|
                    if old_root_of[y] == b {
                        a
                    } else {
                        old_root_of[y]
                    },
            );
            let ka = self.rank@[a];
            let kb = self.rank@[b];
            self.rank@ = self.rank@.insert(
                a,
                if ka > kb + 1 {
                    ka
                } else {
                    kb + 1
                },
            );
            self.lemma_merge_wf(s1, a, b);
        }
        true
    }

    proof fn lemma_merge_wf(&self, old: DisjointSets, a: u64, b: u64)
        requires
            old.wf(),
            old.is_root(a),
            old.is_root(b),
            a != b,
            old.members(a).len() + old.members(b).len() < LIMIT,
            self.parent_or_size@ == old.parent_or_size@.insert(
                a,
                (old.parent_or_size@[a] + old.parent_or_size@[b] - LIMIT) as u64,
            ).insert(b, a),
            self.root_names@ == old.root_names@.insert(
                a,
                if old.name_of(a) <= old.name_of(b) {
                    old.name_of(a)
                } else {
                    old.name_of(b)
                },
            ),
            self.root_of@ == Map::new(
                |y: u64| old.root_of@.contains_key(y),
                |y: u64|
                    if old.root_of@[y] == b {
                        a
                    } else {
                        old.root_of@[y]
                    },
            ),
            self.rank@ == old.rank@.insert(
                a,
                if old.rank@[a] > old.rank@[b] + 1 {
                    old.rank@[a]
                } else {
                    old.rank@[b] + 1
                },
            ),
        ensures
            self.wf(),
            self.population() == old.population(),
            forall|x: u64| #[trigger]
                self.canonical(x) == if old.canonical(x) == old.name_of(a) || old.canonical(x)
                    == old.name_of(b) {
                    if old.name_of(a) <= old.name_of(b) {
                        old.name_of(a)
                    } else {
                        old.name_of(b)
                    }
                } else {
                    old.canonical(x)
                },
    {
        let p = self.parent_or_size@;
        let r = self.root_of@;
        let k = self.rank@;
        let op = old.parent_or_size@;
        let or = old.root_of@;
        assert(p.dom() =~= op.dom());
        assert(p.dom() =~= r.dom());
        assert(p.dom() =~= k.dom());
        assert(self.members(a) =~= old.members(a).union(old.members(b)));
        old.lemma_disjoint_members(a, b);
        vstd::set_lib::lemma_set_disjoint_lens(old.members(a), old.members(b));
        assert forall|z: u64| #[trigger] self.is_root(z) && z != a implies self.members(z)
            =~= old.members(z) by {
            assert(old.is_root(z));
        }
        assert forall|x: u64| #[trigger] p.contains_key(x) implies {
            &&& p.contains_key(r[x])
            &&& r[r[x]] == r[x]
            &&& p[r[x]] >= LIMIT
        } by {
            assert(op.contains_key(x));
            assert(old.is_root(or[x]));
        }
        assert forall|x: u64| #[trigger] self.is_root(x) implies {
            &&& r[x] == x
            &&& (k[x] as int) < p[x] - LIMIT
            &&& self.members(x).finite()
            &&& p[x] - LIMIT == self.members(x).len()
            &&& p.contains_key(self.name_of(x))
            &&& r[self.name_of(x)] == x
            &&& forall|y: u64| #[trigger] p.contains_key(y) && r[y] == x ==> self.name_of(x) <= y
        } by {
            assert(old.is_root(x));
            if x == a {
                assert forall|y: u64| #[trigger] p.contains_key(y) && r[y] == x implies self.name_of(
                    x,
                ) <= y by {
                    if or[y] == a {
                    } else {
                        assert(or[y] == b);
                    }
                }
            } else {
                assert(x != b);
                assert(self.name_of(x) == old.name_of(x));
                assert forall|y: u64| #[trigger] p.contains_key(y) && r[y] == x implies self.name_of(
                    x,
                ) <= y by {
                    assert(or[y] == x);
                }
            }
        }
        assert forall|x: u64| #[trigger] p.contains_key(x) && p[x] < LIMIT implies {
            &&& p.contains_key(p[x])
            &&& r[p[x]] == r[x]
            &&& k[x] < k[p[x]]
            &&& k[x] < k[r[x]]
        } by {
            if x == b {
                assert(old.is_root(b));
            } else {
                assert(x != a);
                assert(op[x] < LIMIT);
                assert(old.is_root(or[x]));
                assert(op[x] != a || or[x] == a);
            }
        }
        assert forall|x: u64| #[trigger]
            self.canonical(x) == if old.canonical(x) == old.name_of(a) || old.canonical(x)
                == old.name_of(b) {
                if old.name_of(a) <= old.name_of(b) {
                    old.name_of(a)
                } else {
                    old.name_of(b)
                }
            } else {
                old.canonical(x)
            } by {
            if or.contains_key(x) {
                let rx = or[x];
                assert(old.is_root(rx));
                assert(old.is_root(a));
                assert(old.is_root(b));
                if rx != a && rx != b {
                    assert(or[old.name_of(rx)] == rx);
                    assert(old.name_of(rx) != old.name_of(a));
                    assert(old.name_of(rx) != old.name_of(b));
                }
            } else {
                assert(or[old.name_of(a)] == a);
                assert(or[old.name_of(b)] == b);
            }
        }
    }

    proof fn lemma_names_distinct(&self, a: u64, b: u64)
        requires
            self.wf(),
            self.is_root(a),
            self.is_root(b),
            a != b,
        ensures
            self.name_of(a) != self.name_of(b),
    {
    }

    proof fn lemma_disjoint_members(&self, a: u64, b: u64)
        requires
            self.wf(),
            self.is_root(a),
            self.is_root(b),
            a != b,
        ensures
            self.members(a).disjoint(self.members(b)),
            self.members(a).union(self.members(b)).subset_of(self.parent_or_size@.dom()),
    {
    }

    /// Retrieve the minimum element of the group containing `x`
    pub fn canonicalize(&mut self, x: u64) -> (c: u64)
        requires
            old(self).wf(),
            x < LIMIT,
        ensures
            final(self).wf(),
            c == old(self).canonical(x),
            forall|y: u64| #[trigger] final(self).canonical(y) == old(self).canonical(y),
            final(self).population() <= old(self).population() + 1,
    {
        let r = self.find(x);
        match self.root_names.get(&r) {
            Some(v) => *v,
            None => r,
        }
    }

    /// Do `a` and `b` belong to the same group?
    pub fn same_set(&mut self, a: u64, b: u64) -> (same: bool)
        requires
            old(self).wf(),
            a < LIMIT,
            b < LIMIT,
        ensures
            final(self).wf(),
            same == (old(self).canonical(a) == old(self).canonical(b)),
            forall|y: u64| #[trigger] final(self).canonical(y) == old(self).canonical(y),
            final(self).population() <= old(self).population() + 2,
    {
        let ca = self.canonicalize(a);
        let cb = self.canonicalize(b);
        ca == cb
    }

    proof fn lemma_rank_bound(&self, x: u64)
        requires
            self.wf(),
            self.parent_or_size@.contains_key(x),
        ensures
            self.rank@[x] < LIMIT,
    {
        let r = self.root_of@[x];
        assert(self.is_root(r));
        if self.parent_or_size@[x] < LIMIT {
            assert(self.rank@[x] < self.rank@[r]);
        } else {
            assert(self.is_root(x));
        }
    }

    proof fn lemma_fresh_members(&self, x: u64)
        requires
            self.wf(),
            !self.parent_or_size@.contains_key(x),
        ensures
            forall|z: u64| self.is_root(z) ==> !#[trigger] self.members(z).contains(x),
    {
    }
}

fn min_eq(slot: &mut u64, v: u64)
    ensures
        *final(slot) == if *old(slot) <= v { *old(slot) } else { v },
{
    if v < *slot {
        *slot = v;
    }
}

/// The canonical element of a group is its smallest member: it lies at or
/// below every element of the group, and is itself in the group.
pub proof fn law_canonical_is_group_minimum(s: &DisjointSets, x: u64)
    requires
        s.wf(),
    ensures
        s.canonical(x) <= x,
        s.canonical(s.canonical(x)) == s.canonical(x),
{
    if s.root_of@.contains_key(x) {
        let r = s.root_of@[x];
        assert(s.parent_or_size@.contains_key(x));
        assert(s.is_root(r));
    }
}

/// After merging the groups of `a` and `b`, both lie in one group.
pub proof fn law_merge_joins(before: spec_fn(u64) -> u64, a: u64, b: u64)
    ensures
        merged_canonical(before, a, b, a) == merged_canonical(before, a, b, b),
{
}

/// Merging never separates elements that were in one group.
pub proof fn law_merge_keeps_groups(before: spec_fn(u64) -> u64, a: u64, b: u64, x: u64, y: u64)
    requires
        before(x) == before(y),
    ensures
        merged_canonical(before, a, b, x) == merged_canonical(before, a, b, y),
{
}

/// Merging joins only the two groups involved: elements of other groups keep
/// their canonical element.
pub proof fn law_merge_leaves_others(before: spec_fn(u64) -> u64, a: u64, b: u64, x: u64)
    requires
        before(x) != before(a),
        before(x) != before(b),
    ensures
        merged_canonical(before, a, b, x) == before(x),
{
}

/// A merge unites exactly the groups of `a` and `b`: afterwards two
/// elements share a group when they shared one before, or when one was in
/// the group of `a` and the other in the group of `b`.
pub proof fn law_merge_partition(before: spec_fn(u64) -> u64, a: u64, b: u64, x: u64, y: u64)
    ensures
        (merged_canonical(before, a, b, x) == merged_canonical(before, a, b, y)) <==> (before(x) == before(y) || (
        before(x) == before(a) && before(y) == before(b)) || (before(x) == before(b) && before(y) == before(a))),
{
}

impl Default for DisjointSets {
    fn default() -> (s: Self)
        ensures
            s.wf(),
            s.population() == 0,
            forall|x: u64| s.canonical(x) == x,
    {
        DisjointSets::new()
    }
}

} // verus!
