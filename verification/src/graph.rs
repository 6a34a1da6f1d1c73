use crate::small_set::SmallU64Set;
use smallvec::SmallVec;
use std::collections::{BTreeMap, HashMap};
use vstd::prelude::*;
use vstd::std_specs::iter::IteratorSpec;

verus! {

/// The ids of the nodes that a (possibly compressed) node stands for, in
/// order, held in a `SmallVec`.
#[verifier::external_body]
pub struct OfList {
    inner: SmallVec<[u64; 4]>,
}

/// The ids an `OfList` holds, in order.
pub uninterp spec fn of_items(v: OfList) -> Seq<u64>;

/// `SmallVec::from_slice`: a list holding the given ids.
#[verifier::external_body]
fn small_vec_from_slice(s: &[u64]) -> (v: OfList)
    ensures
        of_items(v) == s@,
{
    OfList { inner: SmallVec::from_slice(s) }
}

impl OfList {
    /// `SmallVec::new`: an empty list.
    #[verifier::external_body]
    pub(crate) fn new() -> (v: OfList)
        ensures
            of_items(v) == Seq::<u64>::empty(),
    {
        OfList { inner: SmallVec::new() }
    }

    /// A list holding the given ids, in order.
    pub fn from_slice(s: &[u64]) -> (v: OfList)
        ensures
            of_items(v) == s@,
    {
        small_vec_from_slice(s)
    }

    /// `SmallVec::len`.
    #[verifier::external_body]
    pub(crate) fn len(&self) -> (n: usize)
        ensures
            n == of_items(*self).len(),
    {
        self.inner.len()
    }

    /// `Index` on a `SmallVec`: the id at `i`.
    #[verifier::external_body]
    pub(crate) fn get(&self, i: usize) -> (x: u64)
        requires
            i < of_items(*self).len(),
        ensures
            x == of_items(*self)[i as int],
    {
        self.inner[i]
    }

    /// `SmallVec::push`: appends an id.
    #[verifier::external_body]
    pub(crate) fn push(&mut self, x: u64)
        ensures
            of_items(*final(self)) == of_items(*old(self)).push(x),
    {
        self.inner.push(x)
    }

    /// `SmallVec::append`: moves all ids of `other` to the end of this
    /// list, leaving `other` empty.
    #[verifier::external_body]
    pub(crate) fn append(&mut self, other: &mut OfList)
        ensures
            of_items(*final(self)) == of_items(*old(self)) + of_items(*old(other)),
            of_items(*final(other)) == Seq::<u64>::empty(),
    {
        self.inner.append(&mut other.inner)
    }

    /// `slice::rotate_left` on the list: the first `mid` ids move to the
    /// end. It panics for `mid` past the length, which `requires` excludes.
    #[verifier::external_body]
    pub(crate) fn rotate_left(&mut self, mid: usize)
        requires
            mid <= of_items(*old(self)).len(),
        ensures
            of_items(*final(self)) == of_items(*old(self)).subrange(
                mid as int,
                of_items(*old(self)).len() as int,
            ) + of_items(*old(self)).subrange(0, mid as int),
    {
        self.inner.rotate_left(mid)
    }

    /// `slice::rotate_right` on the list: the last `k` ids move to the
    /// front. It panics for `k` past the length, which `requires` excludes.
    #[verifier::external_body]
    pub(crate) fn rotate_right(&mut self, k: usize)
        requires
            k <= of_items(*old(self)).len(),
        ensures
            of_items(*final(self)) == of_items(*old(self)).subrange(
                of_items(*old(self)).len() - k,
                of_items(*old(self)).len() as int,
            ) + of_items(*old(self)).subrange(0, of_items(*old(self)).len() - k),
    {
        self.inner.rotate_right(k)
    }

    /// `slice::sort_unstable` on the list: the same ids in ascending order.
    #[verifier::external_body]
    pub(crate) fn sort_unstable(&mut self)
        ensures
            of_items(*final(self)).to_multiset() == of_items(*old(self)).to_multiset(),
            forall|i: int, j: int|
                0 <= i < j < of_items(*final(self)).len() ==> #[trigger] of_items(*final(self))[i]
                    <= #[trigger] of_items(*final(self))[j],
    {
        self.inner.sort_unstable()
    }
}

impl OfList {
    /// The ids, in order.
    pub fn to_vec(&self) -> (v: Vec<u64>)
        ensures
            v@ == of_items(*self),
    {
        let mut v: Vec<u64> = Vec::new();
        let n = self.len();
        let mut i: usize = 0;
        while i < n
            invariant
                0 <= i <= n,
                n == of_items(*self).len(),
                v@ == of_items(*self).subrange(0, i as int),
            decreases n - i,
        {
            v.push(self.get(i));
            proof {
                assert(v@ =~= of_items(*self).subrange(0, i + 1));
            }
            i = i + 1;
        }
        proof {
            assert(v@ =~= of_items(*self));
        }
        v
    }
}

impl Clone for OfList {
    /// `SmallVec::clone`: a list with the same ids.
    #[verifier::external_body]
    fn clone(&self) -> (c: Self)
        ensures
            of_items(c) == of_items(*self),
    {
        OfList { inner: self.inner.clone() }
    }
}

/// A node of a control-flow graph: its id, the ids of the nodes with an
/// edge to it (`from`) and from it (`to`), and the ids of the original nodes
/// that it stands for, in execution order (`of`).
pub struct Node {
    pub id: u64,
    pub from: SmallU64Set,
    pub to: SmallU64Set,
    pub of: OfList,
}

impl Node {
    pub open spec fn wf(&self) -> bool {
        self.from.wf() && self.to.wf()
    }
}

impl Node {
    /// A node with the given id, edges and ids it stands for.
    pub fn from_parts(id: u64, from: &[u64], to: &[u64], of: &[u64]) -> (n: Node)
        ensures
            n.id == id,
            n.wf(),
            n.from@ == from@.to_set(),
            n.to@ == to@.to_set(),
            of_items(n.of) == of@,
    {
        Node {
            id,
            from: SmallU64Set::collect(from),
            to: SmallU64Set::collect(to),
            of: OfList::from_slice(of),
        }
    }
}

impl Clone for Node {
    fn clone(&self) -> (c: Self)
        ensures
            c.id == self.id,
            self.from.wf() ==> c.from.wf() && c.from@ == self.from@,
            self.to.wf() ==> c.to.wf() && c.to@ == self.to@,
            of_items(c.of) == of_items(self.of),
    {
        Node { id: self.id, from: self.from.clone(), to: self.to.clone(), of: self.of.clone() }
    }
}

/// The node that `x` was merged into, following the chain of merges; ids
/// only ever merge into smaller ones.
pub open spec fn root(merges: Map<u64, u64>, x: u64) -> u64
    decreases x,
{
    if merges.contains_key(x) && merges[x] < x {
        root(merges, merges[x])
    } else {
        x
    }
}

/// Every merge points at a smaller id.
pub open spec fn merges_decrease(merges: Map<u64, u64>) -> bool {
    forall|k: u64| #[trigger] merges.contains_key(k) ==> merges[k] < k
}

proof fn lemma_root_le(merges: Map<u64, u64>, x: u64)
    ensures
        root(merges, x) <= x,
        !merges.contains_key(root(merges, x)) || merges[root(merges, x)] >= root(merges, x),
    decreases x,
{
    if merges.contains_key(x) && merges[x] < x {
        lemma_root_le(merges, merges[x]);
    }
}

/// Pointing a merged id straight at its root changes no root.
proof fn lemma_root_shortcut(merges: Map<u64, u64>, key: u64, x: u64)
    requires
        merges_decrease(merges),
        merges.contains_key(key),
    ensures
        root(merges.insert(key, root(merges, key)), x) == root(merges, x),
    decreases x,
{
    let m2 = merges.insert(key, root(merges, key));
    lemma_root_le(merges, merges[key]);
    if merges.contains_key(x) {
        if x == key {
            lemma_root_le(merges, key);
            let r = root(merges, key);
            lemma_root_idempotent(merges, r);
            if r < key {
                lemma_root_shortcut(merges, key, r);
            }
        } else {
            lemma_root_shortcut(merges, key, merges[x]);
        }
    }
}

pub proof fn lemma_root_idempotent(merges: Map<u64, u64>, x: u64)
    requires
        merges_decrease(merges),
    ensures
        root(merges, root(merges, x)) == root(merges, x),
    decreases x,
{
    if merges.contains_key(x) {
        lemma_root_idempotent(merges, merges[x]);
    }
}

/// Follow the merges from `key` to its root, pointing every id on the way
/// straight at the root.
pub fn translate(key: u64, map: &mut BTreeMap<u64, u64>) -> (r: u64)
    requires
        merges_decrease(old(map)@),
    ensures
        r == root(old(map)@, key),
        !old(map)@.contains_key(key) ==> final(map)@ == old(map)@,
        merges_decrease(final(map)@),
        final(map)@.dom() == old(map)@.dom(),
        forall|x: u64| #[trigger] root(final(map)@, x) == root(old(map)@, x),
    decreases key,
{
    match map.get(&key) {
        Some(k) => {
            let k = *k;
            let res = translate(k, map);
            proof {
                lemma_root_le(old(map)@, k);
                assert(map@.contains_key(key));
                lemma_root_shortcut(map@, key, key);
            }
            let ghost mid = map@;
            map.insert(key, res);
            proof {
                assert(root(mid, key) == res);
                assert forall|x: u64| #[trigger] root(map@, x) == root(old(map)@, x) by {
                    lemma_root_shortcut(mid, key, x);
                }
                assert(map@.dom() =~= old(map)@.dom());
            }
            res
        },
        None => key,
    }
}

/// The keys of a map, ascending.
pub fn sorted_keys<V>(m: &BTreeMap<u64, V>) -> (ks: Vec<u64>)
    ensures
        ks@.to_set() == m@.dom(),
        ks@.no_duplicates(),
        ks@.len() == m@.dom().len(),
        forall|i: int, j: int| 0 <= i < j < ks@.len() ==> #[trigger] ks@[i] < #[trigger] ks@[j],
{
    let mut out: Vec<u64> = Vec::new();
    let ghost keys = vstd::std_specs::btree::spec_keys_iter(m).remaining();
    for k in it: m.keys()
        invariant
            it.seq() == keys,
            out@ == it.seq().take(it.index() as int).map_values(|r: &u64| *r),
    {
        out.push(*k);
        proof {
            assert(out@ =~= it.seq().take(it.index() + 1).map_values(|r: &u64| *r));
        }
    }
    proof {
        assert(out@ =~= keys.map_values(|r: &u64| *r));
        assert(keys.unref() =~= keys.map_values(|r: &u64| *r));
        out@.unique_seq_to_set();
    }
    sort_ids(&mut out);
    out
}

/// Sorts ids ascending, keeping the same elements.
pub fn sort_ids(v: &mut Vec<u64>)
    ensures
        final(v)@.to_multiset() == old(v)@.to_multiset(),
        final(v)@.len() == old(v)@.len(),
        old(v)@.no_duplicates() ==> final(v)@.no_duplicates(),
        old(v)@.to_set() == final(v)@.to_set(),
        forall|i: int, j: int|
            0 <= i < j < final(v)@.len() ==> #[trigger] final(v)@[i] <= #[trigger] final(v)@[j],
        old(v)@.no_duplicates() ==> forall|i: int, j: int|
            0 <= i < j < final(v)@.len() ==> #[trigger] final(v)@[i] < #[trigger] final(v)@[j],
{
    let n = v.len();
    if n == 0 {
        proof {
            lemma_multiset_same_set(old(v)@, v@);
        }
        return ;
    }
    let mut i: usize = 1;
    while i < n
        invariant
            1 <= i <= n,
            n == v@.len(),
            v@.to_multiset() == old(v)@.to_multiset(),
            forall|a: int, b: int| 0 <= a < b < i ==> #[trigger] v@[a] <= #[trigger] v@[b],
        decreases n - i,
    {
        let mut j = i;
        while j > 0 && v[j - 1] > v[j]
            invariant
                0 <= j <= i < n,
                n == v@.len(),
                v@.to_multiset() == old(v)@.to_multiset(),
                forall|a: int, b: int| 0 <= a < b < j ==> #[trigger] v@[a] <= #[trigger] v@[b],
                forall|a: int, b: int| j < a < b <= i ==> #[trigger] v@[a] <= #[trigger] v@[b],
                forall|a: int, b: int|
                    0 <= a < j && j < b <= i ==> #[trigger] v@[a] <= #[trigger] v@[b],
                forall|b: int| j < b <= i ==> v@[j as int] <= #[trigger] v@[b],
                j < i && j > 0 ==> v@[j - 1] <= v@[j + 1],
            decreases j,
        {
            let x = v[j - 1];
            let y = v[j];
            let ghost before = v@;
            v.set(j - 1, y);
            v.set(j, x);
            proof {
                broadcast use vstd::seq_lib::to_multiset_update;

                let u = before.update(j - 1, y);
                assert(u[j as int] == y);
                assert(u.update(j as int, x).to_multiset() == u.to_multiset().insert(x).remove(y));
                assert(before.to_multiset().count(x) > 0) by {
                    broadcast use vstd::seq_lib::to_multiset_contains;

                    assert(before[j - 1] == x);
                    assert(before.contains(x));
                }
                broadcast use vstd::multiset::group_multiset_axioms;

                assert(v@.to_multiset() =~= before.to_multiset());
            }
            j = j - 1;
        }
        i = i + 1;
    }
    proof {
        lemma_multiset_same_set(old(v)@, v@);
    }
}

/// Sequences with one multiset have one length, one set, and keep being
/// free of duplicates.
proof fn lemma_multiset_same_set(a: Seq<u64>, b: Seq<u64>)
    requires
        a.to_multiset() == b.to_multiset(),
    ensures
        a.len() == b.len(),
        a.to_set() == b.to_set(),
        a.no_duplicates() ==> b.no_duplicates(),
{
    broadcast use vstd::seq_lib::to_multiset_contains;
    vstd::seq_lib::to_multiset_len(a);
    vstd::seq_lib::to_multiset_len(b);
    assert forall|x: u64| #[trigger] a.to_set().contains(x) <==> b.to_set().contains(x) by {
        if a.contains(x) {
            assert(a.to_multiset().count(x) > 0);
        }
        if b.contains(x) {
            assert(b.to_multiset().count(x) > 0);
        }
    }
    assert(a.to_set() =~= b.to_set());
    if a.no_duplicates() {
        a.lemma_multiset_has_no_duplicates();
        b.lemma_multiset_has_no_duplicates_conv();
    }
}

/// The least id of a non-empty list.
pub open spec fn seq_min(s: Seq<u64>) -> u64
    decreases s.len(),
{
    if s.len() <= 1 {
        if s.len() == 1 {
            s[0]
        } else {
            0
        }
    } else {
        let m = seq_min(s.drop_last());
        if s.last() < m {
            s.last()
        } else {
            m
        }
    }
}

pub proof fn lemma_seq_min(s: Seq<u64>)
    requires
        s.len() > 0,
    ensures
        s.contains(seq_min(s)),
        forall|i: int| 0 <= i < s.len() ==> seq_min(s) <= #[trigger] s[i],
    decreases s.len(),
{
    if s.len() > 1 {
        lemma_seq_min(s.drop_last());
        assert forall|i: int| 0 <= i < s.len() implies seq_min(s) <= #[trigger] s[i] by {
            if i < s.len() - 1 {
                assert(s.drop_last()[i] == s[i]);
            }
        }
        if s.last() >= seq_min(s.drop_last()) {
            let k = choose|k: int| 0 <= k < s.drop_last().len() && s.drop_last()[k] == seq_min(s.drop_last());
            assert(s[k] == seq_min(s));
        } else {
            assert(s[s.len() - 1] == seq_min(s));
        }
    } else {
        assert(s[0] == seq_min(s));
    }
}

/// An element of a list that is no larger than any other is its least.
pub proof fn lemma_seq_min_is(s: Seq<u64>, m: u64)
    requires
        s.contains(m),
        forall|i: int| 0 <= i < s.len() ==> m <= #[trigger] s[i],
    ensures
        seq_min(s) == m,
{
    lemma_seq_min(s);
    let k = choose|k: int| 0 <= k < s.len() && s[k] == m;
    assert(m <= seq_min(s)) by {
        let j = choose|j: int| 0 <= j < s.len() && s[j] == seq_min(s);
        assert(m <= s[j]);
    }
    assert(seq_min(s) <= s[k]);
}

/// The least id of two joined lists is the lesser of their least ids.
pub proof fn lemma_seq_min_concat(a: Seq<u64>, b: Seq<u64>)
    requires
        a.len() > 0,
        b.len() > 0,
    ensures
        seq_min(a + b) == if seq_min(a) < seq_min(b) {
            seq_min(a)
        } else {
            seq_min(b)
        },
{
    lemma_seq_min(a);
    lemma_seq_min(b);
    let m = if seq_min(a) < seq_min(b) {
        seq_min(a)
    } else {
        seq_min(b)
    };
    let c = a + b;
    assert forall|i: int| 0 <= i < c.len() implies m <= #[trigger] c[i] by {
        if i < a.len() {
            assert(c[i] == a[i]);
        } else {
            assert(c[i] == b[i - a.len()]);
        }
    }
    if seq_min(a) < seq_min(b) {
        let k = choose|k: int| 0 <= k < a.len() && a[k] == seq_min(a);
        assert(c[k] == m);
    } else {
        let k = choose|k: int| 0 <= k < b.len() && b[k] == seq_min(b);
        assert(c[a.len() + k] == m);
    }
    lemma_seq_min_is(c, m);
}

/// The index of the first occurrence of `v` in `s`.
pub open spec fn first_index_of(s: Seq<u64>, v: u64) -> int {
    choose|i: int| 0 <= i < s.len() && s[i] == v && forall|j: int| 0 <= j < i ==> s[j] != v
}

pub proof fn lemma_first_index_of(s: Seq<u64>, v: u64, i: int)
    requires
        0 <= i < s.len(),
        s[i] == v,
        forall|j: int| 0 <= j < i ==> s[j] != v,
    ensures
        first_index_of(s, v) == i,
{
    let k = first_index_of(s, v);
    assert(0 <= k < s.len() && s[k] == v && forall|j: int| 0 <= j < k ==> s[j] != v);
    if k < i {
        assert(s[k] != v);
    } else if k > i {
        assert(s[i] != v);
    }
}

pub proof fn lemma_first_exists(s: Seq<u64>, v: u64, k: int)
    requires
        0 <= k < s.len(),
        s[k] == v,
    ensures
        0 <= first_index_of(s, v) < s.len(),
        s[first_index_of(s, v)] == v,
        forall|j: int| 0 <= j < first_index_of(s, v) ==> s[j] != v,
    decreases k,
{
    if exists|j: int| 0 <= j < k && s[j] == v {
        let j = choose|j: int| 0 <= j < k && s[j] == v;
        lemma_first_exists(s, v, j);
    } else {
        lemma_first_index_of(s, v, k);
    }
}

pub proof fn lemma_singleton_to_set(x: u64)
    ensures
        seq![x].to_set() == set![x],
{
    assert(seq![x][0] == x);
    assert forall|y: u64| seq![x].to_set().contains(y) <==> set![x].contains(y) by {
        if y == x {
            assert(seq![x].contains(y));
        }
    }
    assert(seq![x].to_set() =~= set![x]);
}

/// The list turned so that its least id comes first, as `rotate_of` does.
pub open spec fn min_first(s: Seq<u64>) -> Seq<u64> {
    if s.len() > 1 {
        let p = first_index_of(s, seq_min(s));
        s.subrange(p, s.len() as int) + s.subrange(0, p)
    } else {
        s
    }
}

/// The least id among positions `lo..hi` of a list.
pub fn of_min(of: &OfList, lo: usize, hi: usize) -> (m: u64)
    requires
        lo < hi <= of_items(*of).len(),
    ensures
        m == seq_min(of_items(*of).subrange(lo as int, hi as int)),
{
    let mut m = of.get(lo);
    let mut i = lo + 1;
    while i < hi
        invariant
            lo < i <= hi <= of_items(*of).len(),
            m == seq_min(of_items(*of).subrange(lo as int, i as int)),
        decreases hi - i,
    {
        let x = of.get(i);
        proof {
            let s = of_items(*of).subrange(lo as int, i + 1);
            assert(s.drop_last() =~= of_items(*of).subrange(lo as int, i as int));
        }
        if x < m {
            m = x;
        }
        i = i + 1;
    }
    m
}

/// The least id of a non-empty list.
pub fn of_min_all(of: &OfList) -> (m: u64)
    requires
        of_items(*of).len() > 0,
    ensures
        m == seq_min(of_items(*of)),
{
    let m = of_min(of, 0, of.len());
    proof {
        assert(of_items(*of).subrange(0, of_items(*of).len() as int) =~= of_items(*of));
    }
    m
}

/// The first position of `v` in a list that holds it.
pub fn of_position(of: &OfList, v: u64) -> (p: usize)
    requires
        of_items(*of).contains(v),
    ensures
        p == first_index_of(of_items(*of), v),
        p < of_items(*of).len(),
{
    let n = of.len();
    let mut i: usize = 0;
    while i < n
        invariant
            0 <= i <= n,
            n == of_items(*of).len(),
            of_items(*of).contains(v),
            forall|j: int| 0 <= j < i ==> of_items(*of)[j] != v,
        decreases n - i,
    {
        if of.get(i) == v {
            proof {
                lemma_first_index_of(of_items(*of), v, i as int);
            }
            return i;
        }
        i = i + 1;
    }
    proof {
        let k = choose|k: int| 0 <= k < of_items(*of).len() && of_items(*of)[k] == v;
        assert(of_items(*of)[k] != v);
    }
    0
}

/// Turning a list keeps its ids and its least id.
pub proof fn lemma_min_first_keeps(s: Seq<u64>)
    ensures
        min_first(s).len() == s.len(),
        min_first(s).to_multiset() == s.to_multiset(),
        s.len() > 0 ==> seq_min(min_first(s)) == seq_min(s),
{
    if s.len() > 1 {
        let t = min_first(s);
        let p = first_index_of(s, seq_min(s));
        lemma_seq_min(s);
        let k = choose|k: int| 0 <= k < s.len() && s[k] == seq_min(s);
        lemma_first_exists(s, seq_min(s), k);
        assert(t.to_multiset() == s.to_multiset()) by {
            vstd::seq_lib::lemma_multiset_commutative(s.subrange(p, s.len() as int), s.subrange(0, p));
            assert(s =~= s.subrange(0, p) + s.subrange(p, s.len() as int));
            vstd::seq_lib::lemma_multiset_commutative(s.subrange(0, p), s.subrange(p, s.len() as int));
        }
        assert(t[0] == seq_min(s));
        assert forall|i: int| 0 <= i < t.len() implies seq_min(s) <= #[trigger] t[i] by {
            if i < s.len() - p {
                assert(t[i] == s[p + i]);
            } else {
                assert(t[i] == s[i - (s.len() - p)]);
            }
        }
        lemma_seq_min_is(t, seq_min(s));
    }
}

proof fn lemma_min_first_twice(s: Seq<u64>)
    ensures
        min_first(min_first(s)) == min_first(s),
{
    if s.len() > 1 {
        let t = min_first(s);
        let p = first_index_of(s, seq_min(s));
        lemma_seq_min(s);
        let k = choose|k: int| 0 <= k < s.len() && s[k] == seq_min(s);
        lemma_first_exists(s, seq_min(s), k);
        assert(t.to_multiset() == s.to_multiset()) by {
            vstd::seq_lib::lemma_multiset_commutative(s.subrange(p, s.len() as int), s.subrange(0, p));
            assert(s =~= s.subrange(0, p) + s.subrange(p, s.len() as int));
            vstd::seq_lib::lemma_multiset_commutative(s.subrange(0, p), s.subrange(p, s.len() as int));
        }
        assert(t.len() == s.len());
        assert(t[0] == seq_min(s));
        lemma_seq_min(t);
        assert forall|i: int| 0 <= i < t.len() implies seq_min(s) <= #[trigger] t[i] by {
            if i < s.len() - p {
                assert(t[i] == s[p + i]);
            } else {
                assert(t[i] == s[i - (s.len() - p)]);
            }
        }
        assert(seq_min(t) == seq_min(s)) by {
            let kt = choose|kt: int| 0 <= kt < t.len() && t[kt] == seq_min(t);
            assert(seq_min(t) <= t[0]);
            assert(seq_min(s) <= t[kt]);
        }
        lemma_first_index_of(t, seq_min(t), 0);
        assert(min_first(t) =~= t);
    }
}

/// A graph of nodes keyed by id, with the merges of a compression: each
/// merged-away id points at the id it was merged into.
#[derive(Clone)]
pub struct Graph {
    pub nodes: BTreeMap<u64, Node>,
    pub merges: BTreeMap<u64, u64>,
}

/// `x` names a node directly or through merges.
pub open spec fn known(nodes: Map<u64, Node>, merges: Map<u64, u64>, x: u64) -> bool {
    nodes.contains_key(x) || merges.contains_key(x)
}

/// The edges out of `k`, none for an id that is no node.
pub open spec fn out_edges(nodes: Map<u64, Node>, k: u64) -> Set<u64> {
    if nodes.contains_key(k) {
        nodes[k].to@
    } else {
        Set::empty()
    }
}

/// The edges into `k`, none for an id that is no node.
pub open spec fn in_edges(nodes: Map<u64, Node>, k: u64) -> Set<u64> {
    if nodes.contains_key(k) {
        nodes[k].from@
    } else {
        Set::empty()
    }
}

/// The edges of a graph, as (source, target) pairs.
pub open spec fn edge_set(nodes: Map<u64, Node>) -> Set<(u64, u64)> {
    Set::new(|e: (u64, u64)| nodes.contains_key(e.0) && nodes[e.0].to@.contains(e.1))
}

/// The position of `k` among the node ids in ascending order.
pub open spec fn rank(nodes: Map<u64, Node>, k: u64) -> usize {
    nodes.dom().filter(|x: u64| x < k).len() as usize
}

/// The edges of a graph with ids replaced by their positions.
pub open spec fn renamed_edge_set(nodes: Map<u64, Node>) -> Set<(usize, usize)> {
    Set::new(
        |p: (usize, usize)|
            exists|e: (u64, u64)|
                #[trigger] edge_set(nodes).contains(e) && p == (rank(nodes, e.0), rank(nodes, e.1)),
    )
}

/// In the ascending list of node ids, the id at position `a` has rank `a`.
pub proof fn lemma_rank_of_sorted(nodes: Map<u64, Node>, ks: Seq<u64>, a: int)
    requires
        ks.to_set() == nodes.dom(),
        forall|i: int, j: int| 0 <= i < j < ks.len() ==> #[trigger] ks[i] < #[trigger] ks[j],
        0 <= a < ks.len(),
        ks.len() <= usize::MAX,
    ensures
        rank(nodes, ks[a]) == a,
{
    let k = ks[a];
    let f = nodes.dom().filter(|x: u64| x < k);
    let t = ks.take(a);
    assert forall|x: u64| #[trigger] f.contains(x) <==> t.to_set().contains(x) by {
        if f.contains(x) {
            assert(ks.to_set().contains(x));
            let i = choose|i: int| 0 <= i < ks.len() && ks[i] == x;
            if i >= a {
                if i > a {
                    assert(ks[a] < ks[i]);
                }
            }
            assert(t[i] == x);
        }
        if t.to_set().contains(x) {
            let i = choose|i: int| 0 <= i < t.len() && t[i] == x;
            assert(ks[i] < ks[a]);
            assert(ks.to_set().contains(ks[i]));
        }
    }
    assert(f =~= t.to_set());
    assert(t.no_duplicates()) by {
        assert forall|i: int, j: int| 0 <= i < j < t.len() implies t[i] != t[j] by {
            assert(ks[i] < ks[j]);
        }
    }
    t.unique_seq_to_set();
}

/// Every edge is recorded at both its ends: in the source's `to` and in
/// the target's `from`.
pub open spec fn edges_symmetric(nodes: Map<u64, Node>) -> bool {
    forall|k: u64, x: u64|
        #![trigger nodes[k].to@.contains(x)]
        #![trigger nodes[k].from@.contains(x)]
        nodes.contains_key(k) ==> (nodes[k].to@.contains(x) ==> nodes.contains_key(x) && nodes[x].from@.contains(k))
            && (nodes[k].from@.contains(x) ==> nodes.contains_key(x) && nodes[x].to@.contains(k))
}

/// The edges out of the nodes `ks`, node by node in that order, each
/// node's in the order its `to` set hands them out.
pub open spec fn edges_along(nodes: Map<u64, Node>, ks: Seq<u64>) -> Seq<(u64, u64)>
    decreases ks.len(),
{
    if ks.len() == 0 {
        Seq::empty()
    } else {
        edges_along(nodes, ks.drop_last()) + nodes[ks.last()].to.order().map_values(|t: u64| (ks.last(), t))
    }
}

/// The ids of a map's keys in ascending order.
pub open spec fn keys_ascending(nodes: Map<u64, Node>, ks: Seq<u64>) -> bool {
    &&& ks.to_set() == nodes.dom()
    &&& forall|a: int, b: int| 0 <= a < b < ks.len() ==> #[trigger] ks[a] < #[trigger] ks[b]
}

/// `nn` is `on` with the edge from `from` to `to` added, as `update`
/// adds it.
pub open spec fn update_result(on: Map<u64, Node>, nn: Map<u64, Node>, from: u64, to: u64) -> bool {
    &&& nn.dom() == on.dom().insert(from).insert(to)
    &&& forall|k: u64| #[trigger]
        nn.contains_key(k) ==> {
            &&& nn[k].to@ == out_edges(on, k).union(
                if k == from {
                    set![to]
                } else {
                    Set::empty()
                },
            )
            &&& nn[k].from@ == in_edges(on, k).union(
                if k == to {
                    set![from]
                } else {
                    Set::empty()
                },
            )
        }
}

/// Adding an edge keeps every edge recorded at both its ends.
pub proof fn law_update_keeps_symmetry(on: Map<u64, Node>, nn: Map<u64, Node>, from: u64, to: u64)
    requires
        edges_symmetric(on),
        update_result(on, nn, from, to),
    ensures
        edges_symmetric(nn),
{
    assert forall|k: u64, x: u64| nn.contains_key(k) implies (nn[k].to@.contains(x) ==> nn.contains_key(x)
        && nn[x].from@.contains(k)) && (nn[k].from@.contains(x) ==> nn.contains_key(x) && nn[x].to@.contains(k)) by {
        if nn[k].to@.contains(x) {
            if !(k == from && x == to) {
                assert(out_edges(on, k).contains(x));
                assert(on[k].to@.contains(x));
                assert(on.contains_key(x));
                assert(in_edges(on, x).contains(k));
            }
            assert(nn.contains_key(x));
        }
        if nn[k].from@.contains(x) {
            if !(k == to && x == from) {
                assert(in_edges(on, k).contains(x));
                assert(on[k].from@.contains(x));
                assert(on.contains_key(x));
                assert(out_edges(on, x).contains(k));
            }
            assert(nn.contains_key(x));
        }
    }
}

/// An edge is in the edge set exactly when its source is a node whose
/// `to` holds its target.
pub proof fn lemma_update_edge_set(on: Map<u64, Node>, nn: Map<u64, Node>, from: u64, to: u64)
    requires
        update_result(on, nn, from, to),
    ensures
        edge_set(nn) == edge_set(on).insert((from, to)),
{
    assert forall|e: (u64, u64)| #[trigger] edge_set(nn).contains(e) <==> edge_set(on).insert((from, to)).contains(e) by {
        if nn.contains_key(e.0) {
            assert(nn[e.0].to@ == out_edges(on, e.0).union(
                if e.0 == from {
                    set![to]
                } else {
                    Set::empty()
                },
            ));
        }
    }
    assert(edge_set(nn) =~= edge_set(on).insert((from, to)));
}

/// `n` is what `update` makes of `o` for the edge from `from` to `to`: the
/// ends become nodes (a new one standing for its own id), the edge is
/// recorded at both ends, the merges keep their keys and roots, every other
/// node stays, and an end that was a node keeps its ids, with the least one
/// moved first exactly where the end is now a pure self-loop.
pub open spec fn updated(o: Graph, n: Graph, from: u64, to: u64) -> bool {
    &&& n.nodes@.dom() == o.nodes@.dom().insert(from).insert(to)
    &&& n.merges@.dom() == o.merges@.dom()
    &&& forall|x: u64| #[trigger] root(n.merges@, x) == root(o.merges@, x)
    &&& forall|k: u64| #[trigger]
        n.nodes@.contains_key(k) ==> {
            &&& n.nodes@[k].to@ == out_edges(o.nodes@, k).union(
                if k == from {
                    set![to]
                } else {
                    Set::empty()
                },
            )
            &&& n.nodes@[k].from@ == in_edges(o.nodes@, k).union(
                if k == to {
                    set![from]
                } else {
                    Set::empty()
                },
            )
        }
    &&& forall|k: u64| #[trigger]
        n.nodes@.contains_key(k) && !o.nodes@.contains_key(k) ==> of_items(n.nodes@[k].of) == seq![k]
    &&& forall|k: u64| #[trigger]
        o.nodes@.contains_key(k) && k != from && k != to ==> n.nodes@[k] == o.nodes@[k]
    &&& forall|k: u64| #[trigger]
        o.nodes@.contains_key(k) && (k == from || k == to) ==> of_items(n.nodes@[k].of) == if is_self_loop(
            n.nodes@[k],
        ) {
            min_first(of_items(o.nodes@[k].of))
        } else {
            of_items(o.nodes@[k].of)
        }
}

/// A node whose only edges are one to itself.
pub open spec fn is_self_loop(n: Node) -> bool {
    n.to@ == set![n.id] && n.from@ == set![n.id]
}

impl Graph {
    /// Consistency of a graph: merges point down to smaller ids and end at
    /// nodes, node keys are their ids and are not merged away, and every
    /// edge names a node, directly or through merges.
    pub open spec fn wf(&self) -> bool {
        let n = self.nodes@;
        let m = self.merges@;
        &&& merges_decrease(m)
        &&& forall|k: u64| #[trigger]
            n.contains_key(k) ==> {
                &&& n[k].id == k
                &&& n[k].wf()
                &&& !m.contains_key(k)
                &&& of_items(n[k].of).len() > 0
                &&& seq_min(of_items(n[k].of)) == k
            }
        &&& forall|k: u64| #[trigger] m.contains_key(k) ==> n.contains_key(root(m, k))
        &&& forall|k: u64, x: u64|
            #![trigger n[k].to@.contains(x)]
            #![trigger n[k].from@.contains(x)]
            n.contains_key(k) && (n[k].to@.contains(x) || n[k].from@.contains(x)) ==> known(n, m, x)
    }

    /// A known id leads, through the merges, to a node.
    pub proof fn lemma_root_node(&self, x: u64)
        requires
            self.wf(),
            known(self.nodes@, self.merges@, x),
        ensures
            self.nodes@.contains_key(root(self.merges@, x)),
    {
        if self.merges@.contains_key(x) {
            assert(self.nodes@.contains_key(root(self.merges@, x)));
        }
    }

    pub fn new() -> (g: Self)
        ensures
            g.wf(),
            g.nodes@ == Map::<u64, Node>::empty(),
            g.merges@ == Map::<u64, u64>::empty(),
    {
        Graph { nodes: BTreeMap::new(), merges: BTreeMap::new() }
    }

    /// A graph of the given nodes, without merges.
    pub fn with_nodes(nodes: BTreeMap<u64, Node>) -> (g: Self)
        ensures
            g.nodes == nodes,
            g.merges@ == Map::<u64, u64>::empty(),
    {
        Graph { nodes, merges: BTreeMap::new() }
    }

    pub fn len(&self) -> (n: usize)
        ensures
            n == self.nodes@.len(),
    {
        self.nodes.len()
    }

    pub fn is_empty(&self) -> (b: bool)
        ensures
            b == (self.nodes@.len() == 0),
    {
        self.nodes.is_empty()
    }

    pub proof fn lemma_wf_merges_change(&self, old: Graph)
        requires
            old.wf(),
            self.nodes == old.nodes,
            merges_decrease(self.merges@),
            self.merges@.dom() == old.merges@.dom(),
            forall|x: u64| #[trigger] root(self.merges@, x) == root(old.merges@, x),
        ensures
            self.wf(),
    {
        assert forall|k: u64| #[trigger] self.merges@.contains_key(k) implies self.nodes@.contains_key(
            root(self.merges@, k),
        ) by {
            assert(old.merges@.contains_key(k));
        }
        assert forall|k: u64, x: u64|
            self.nodes@.contains_key(k) && (self.nodes@[k].to@.contains(x) || self.nodes@[k].from@.contains(x))
            implies known(self.nodes@, self.merges@, x) by {
            if self.nodes@[k].to@.contains(x) {
                assert(known(old.nodes@, old.merges@, x));
            } else {
                assert(known(old.nodes@, old.merges@, x));
            }
        }
    }

    /// The node that `idx` names, through merges.
    pub fn get(&mut self, idx: u64) -> (r: Option<&Node>)
        requires
            old(self).wf(),
        ensures
            final(self).wf(),
            final(self).nodes == old(self).nodes,
            final(self).merges@.dom() == old(self).merges@.dom(),
            forall|x: u64| #[trigger] root(final(self).merges@, x) == root(old(self).merges@, x),
            !old(self).merges@.contains_key(idx) ==> final(self).merges@ == old(self).merges@,
            r == (if old(self).nodes@.contains_key(root(old(self).merges@, idx)) {
                Some(&old(self).nodes@[root(old(self).merges@, idx)])
            } else {
                None
            }),
    {
        let idx = translate(idx, &mut self.merges);
        proof {
            self.lemma_wf_merges_change(*old(self));
        }
        self.nodes.get(&idx)
    }

    // Returns true if the given node has an edge to itself
    pub fn is_loop(&mut self, node: u64) -> (b: bool)
        requires
            old(self).wf(),
        ensures
            final(self).wf(),
            final(self).nodes == old(self).nodes,
            final(self).merges@.dom() == old(self).merges@.dom(),
            forall|x: u64| #[trigger] root(final(self).merges@, x) == root(old(self).merges@, x),
            !old(self).merges@.contains_key(node) ==> final(self).merges@ == old(self).merges@,
            b == (old(self).nodes@.contains_key(root(old(self).merges@, node)) && is_self_loop(
                old(self).nodes@[root(old(self).merges@, node)],
            )),
    {
        match self.get(node) {
            Some(n) => {
                let b = n.to.contains(&n.id) && n.from.contains(&n.id) && n.to.len() == 1
                    && n.from.len() == 1;
                proof {
                    if b {
                        n.to.lemma_len_one(n.id);
                        n.from.lemma_len_one(n.id);
                    }
                    if is_self_loop(*n) {
                        assert(n.to@.len() == 1);
                        assert(n.from@.len() == 1);
                    }
                }
                b
            },
            None => false,
        }
    }

    /// Giving one node another `of` list keeps a graph consistent.
    pub proof fn lemma_wf_replace_of(&self, old: Graph, node: u64)
        requires
            old.wf(),
            old.nodes@.contains_key(node),
            self.merges@ == old.merges@,
            self.nodes@.dom() == old.nodes@.dom(),
            forall|k: u64| #[trigger] old.nodes@.contains_key(k) && k != node ==> self.nodes@[k] == old.nodes@[k],
            self.nodes@[node].id == old.nodes@[node].id,
            self.nodes@[node].from == old.nodes@[node].from,
            self.nodes@[node].to == old.nodes@[node].to,
            of_items(self.nodes@[node].of).len() > 0,
            seq_min(of_items(self.nodes@[node].of)) == node,
        ensures
            self.wf(),
    {
        assert forall|k: u64, x: u64|
            self.nodes@.contains_key(k) && (self.nodes@[k].to@.contains(x) || self.nodes@[k].from@.contains(x))
            implies known(self.nodes@, self.merges@, x) by {
            if self.nodes@[k].to@.contains(x) {
                assert(old.nodes@[k].to@.contains(x));
            } else {
                assert(old.nodes@[k].from@.contains(x));
            }
        }
        assert forall|k: u64| #[trigger] self.merges@.contains_key(k) implies self.nodes@.contains_key(
            root(self.merges@, k),
        ) by {
            assert(old.nodes@.contains_key(root(old.merges@, k)));
        }
    }

    // Rotates of until least id is first
    // for given node
    #[verifier::spinoff_prover]
    #[verifier::rlimit(30)]
    pub fn rotate_of(&mut self, node: u64)
        requires
            old(self).wf(),
        ensures
            final(self).wf(),
            final(self).merges == old(self).merges,
            final(self).nodes@.dom() == old(self).nodes@.dom(),
            forall|k: u64| #[trigger] old(self).nodes@.contains_key(k) && k != node ==> final(self).nodes@[k] == old(self).nodes@[k],
            old(self).nodes@.contains_key(node) ==> {
                let o = old(self).nodes@[node];
                let n = final(self).nodes@[node];
                &&& n.id == o.id
                &&& n.from == o.from
                &&& n.to == o.to
                &&& of_items(n.of) == min_first(of_items(o.of))
            },
    {
        if self.nodes.contains_key(&node) {
            let mut n = self.nodes.remove(&node).unwrap();
            if n.of.len() > 1 {
                let min = of_min(&n.of, 0, n.of.len());
                proof {
                    lemma_seq_min(of_items(n.of));
                    assert(of_items(n.of).subrange(0, of_items(n.of).len() as int) =~= of_items(n.of));
                }
                let min_index = of_position(&n.of, min);
                n.of.rotate_left(min_index);
            }
            self.nodes.insert(node, n);
            proof {
                assert(self.nodes@.dom() =~= old(self).nodes@.dom());
                lemma_min_first_keeps(of_items(old(self).nodes@[node].of));
                self.lemma_wf_replace_of(*old(self), node);
            }
        }
    }

    /// Insert a node connection. Returns true if the connection
    /// is new.
    #[verifier::rlimit(60)]
    pub fn update(&mut self, from: u64, to: u64) -> (modified: bool)
        requires
            old(self).wf(),
            !old(self).merges@.contains_key(from),
            !old(self).merges@.contains_key(to),
        ensures
            final(self).wf(),
            modified == !(old(self).nodes@.contains_key(from) && old(self).nodes@[from].to@.contains(to)
                && old(self).nodes@.contains_key(to) && old(self).nodes@[to].from@.contains(from)),
            final(self).nodes@.dom() == old(self).nodes@.dom().insert(from).insert(to),
            final(self).merges@.dom() == old(self).merges@.dom(),
            forall|x: u64| #[trigger] root(final(self).merges@, x) == root(old(self).merges@, x),
            forall|k: u64| #[trigger]
                final(self).nodes@.contains_key(k) ==> {
                    &&& final(self).nodes@[k].to@ == out_edges(old(self).nodes@, k).union(
                        if k == from {
                            set![to]
                        } else {
                            Set::empty()
                        },
                    )
                    &&& final(self).nodes@[k].from@ == in_edges(old(self).nodes@, k).union(
                        if k == to {
                            set![from]
                        } else {
                            Set::empty()
                        },
                    )
                },
            forall|k: u64| #[trigger]
                final(self).nodes@.contains_key(k) && !old(self).nodes@.contains_key(k) ==> of_items(
                    final(self).nodes@[k].of,
                ) == seq![k],
            forall|k: u64| #[trigger]
                old(self).nodes@.contains_key(k) && k != from && k != to ==> final(self).nodes@[k]
                    == old(self).nodes@[k],
            forall|k: u64| #[trigger]
                old(self).nodes@.contains_key(k) && (k == from || k == to) ==> of_items(
                    final(self).nodes@[k].of,
                ) == if is_self_loop(final(self).nodes@[k]) {
                    min_first(of_items(old(self).nodes@[k].of))
                } else {
                    of_items(old(self).nodes@[k].of)
                },
    {
        let mut modified = false;
        if self.nodes.contains_key(&from) {
            let mut node = self.nodes.remove(&from).unwrap();
            modified = node.to.insert(to) || modified;
            self.nodes.insert(from, node);
        } else {
            modified = true;
            let to_set = SmallU64Set::collect(&[to]);
            let of = OfList::from_slice(&[from]);
            self.nodes.insert(from, Node { id: from, to: to_set, from: SmallU64Set::new(), of });
        }
        if self.nodes.contains_key(&to) {
            let mut node = self.nodes.remove(&to).unwrap();
            modified = node.from.insert(from) || modified;
            self.nodes.insert(to, node);
        } else {
            modified = true;
            let from_set = SmallU64Set::collect(&[from]);
            let of = OfList::from_slice(&[to]);
            self.nodes.insert(to, Node { id: to, to: SmallU64Set::new(), from: from_set, of });
        }
        let ghost after = *self;
        proof {
            lemma_singleton_to_set(to);
            lemma_singleton_to_set(from);
            assert(self.nodes@.dom() =~= old(self).nodes@.dom().insert(from).insert(to));
            assert forall|k: u64| #[trigger] self.nodes@.contains_key(k) implies {
                &&& self.nodes@[k].to@ == out_edges(old(self).nodes@, k).union(
                    if k == from {
                        set![to]
                    } else {
                        Set::empty()
                    },
                )
                &&& self.nodes@[k].from@ == in_edges(old(self).nodes@, k).union(
                    if k == to {
                        set![from]
                    } else {
                        Set::empty()
                    },
                )
            } by {
                assert(Set::<u64>::empty().insert(to) =~= set![to]);
                assert(Set::<u64>::empty().insert(from) =~= set![from]);
                if old(self).nodes@.contains_key(k) {
                    assert(old(self).nodes@[k].to@.union(Set::empty()) =~= old(self).nodes@[k].to@);
                    assert(old(self).nodes@[k].from@.union(Set::empty()) =~= old(self).nodes@[k].from@);
                    assert(old(self).nodes@[k].to@.insert(to) =~= old(self).nodes@[k].to@.union(set![to]));
                    assert(old(self).nodes@[k].from@.insert(from) =~= old(self).nodes@[k].from@.union(set![from]));
                } else {
                    assert(Set::<u64>::empty().union(Set::<u64>::empty()) =~= Set::<u64>::empty());
                    assert(Set::<u64>::empty().union(set![to]) =~= set![to]);
                    assert(Set::<u64>::empty().union(set![from]) =~= set![from]);
                    assert(set![to].insert(to) =~= set![to]);
                    assert(set![from].insert(from) =~= set![from]);
                }
            }
            assert forall|k: u64, x: u64|
                self.nodes@.contains_key(k) && (self.nodes@[k].to@.contains(x) || self.nodes@[k].from@.contains(x))
                implies known(self.nodes@, self.merges@, x) by {
                if x != from && x != to {
                    if self.nodes@[k].to@.contains(x) {
                        assert(out_edges(old(self).nodes@, k).contains(x));
                        assert(old(self).nodes@[k].to@.contains(x));
                    } else {
                        assert(in_edges(old(self).nodes@, k).contains(x));
                        assert(old(self).nodes@[k].from@.contains(x));
                    }
                }
            }
            assert forall|k: u64| #[trigger] self.merges@.contains_key(k) implies self.nodes@.contains_key(
                root(self.merges@, k),
            ) by {
                assert(old(self).nodes@.contains_key(root(old(self).merges@, k)));
            }
            assert(self.wf());
        }
        let from_loop = self.is_loop(from);
        proof {
            assert(root(after.merges@, from) == from);
            assert(from_loop == is_self_loop(after.nodes@[from]));
        }
        let ghost before_rotate = *self;
        proof {
            assert(before_rotate.nodes@ == after.nodes@);
        }
        if from_loop {
            self.rotate_of(from);
            proof {
                assert(before_rotate.nodes@.contains_key(from));
                if from != to {
                    assert(before_rotate.nodes@.contains_key(to));
                    assert(self.nodes@[to] == before_rotate.nodes@[to]);
                }
            }
        }
        let ghost after_from = *self;
        proof {
            assert(after_from.nodes@[to].id == after.nodes@[to].id);
            assert(after_from.nodes@[to].to == after.nodes@[to].to);
            assert(after_from.nodes@[to].from == after.nodes@[to].from);
            assert(is_self_loop(after_from.nodes@[to]) == is_self_loop(after.nodes@[to]));
            assert(root(after_from.merges@, to) == to);
        }
        let to_loop = self.is_loop(to);
        proof {
            assert(to_loop == is_self_loop(after.nodes@[to]));
        }
        let ghost before_rotate_to = *self;
        if to_loop {
            self.rotate_of(to);
            proof {
                assert(before_rotate_to.nodes@.contains_key(to));
                if from != to {
                    assert(before_rotate_to.nodes@.contains_key(from));
                    assert(self.nodes@[from] == before_rotate_to.nodes@[from]);
                }
            }
        }
        proof {
            assert(self.nodes@[from].to == after.nodes@[from].to);
            assert(self.nodes@[from].from == after.nodes@[from].from);
            assert(self.nodes@[from].id == after.nodes@[from].id);
            assert(self.nodes@[to].to == after.nodes@[to].to);
            assert(self.nodes@[to].from == after.nodes@[to].from);
            assert(self.nodes@[to].id == after.nodes@[to].id);
        }
        proof {
            lemma_min_first_twice(of_items(after.nodes@[from].of));
            assert(seq![from].len() == 1);
            assert(seq![to].len() == 1);
            assert(min_first(seq![from]) == seq![from]);
            assert(min_first(seq![to]) == seq![to]);
            assert(is_self_loop(self.nodes@[from]) == from_loop);
            assert(is_self_loop(self.nodes@[to]) == to_loop);
            assert forall|k: u64| #[trigger]
                old(self).nodes@.contains_key(k) && k != from && k != to implies self.nodes@[k]
                == old(self).nodes@[k] by {
                assert(after.nodes@.contains_key(k));
                assert(after.nodes@[k] == old(self).nodes@[k]);
                assert(after_from.nodes@.contains_key(k));
                assert(after_from.nodes@[k] == after.nodes@[k]);
            }
        }
        modified
    }

    /// Every edge of a node points at a node: no merges stand in between.
    pub open spec fn edges_closed(&self) -> bool {
        forall|k: u64, x: u64|
            #![trigger self.nodes@[k].to@.contains(x)]
            #![trigger self.nodes@[k].from@.contains(x)]
            self.nodes@.contains_key(k) && (self.nodes@[k].to@.contains(x)
                || self.nodes@[k].from@.contains(x)) ==> self.nodes@.contains_key(x)
    }

    /// All edges, by source id ascending.
    pub fn edges(&self) -> (es: Vec<(u64, u64)>)
        requires
            self.wf(),
        ensures
            es@.to_set() == edge_set(self.nodes@),
            es@.no_duplicates(),
            forall|i: int, j: int| 0 <= i < j < es@.len() ==> #[trigger] es@[i].0 <= #[trigger] es@[j].0,
            exists|ks: Seq<u64>| #[trigger] keys_ascending(self.nodes@, ks) && es@ == edges_along(self.nodes@, ks),
    {
        let ks = sorted_keys(&self.nodes);
        let mut out: Vec<(u64, u64)> = Vec::new();
        let mut i: usize = 0;
        while i < ks.len()
            invariant
                self.wf(),
                0 <= i <= ks@.len(),
                ks@.to_set() == self.nodes@.dom(),
                ks@.no_duplicates(),
                forall|a: int, b: int| 0 <= a < b < ks@.len() ==> #[trigger] ks@[a] < #[trigger] ks@[b],
                out@.no_duplicates(),
                forall|e: (u64, u64)| #[trigger] out@.contains(e) <==> (edge_set(self.nodes@).contains(e)
                    && exists|a: int| 0 <= a < i && ks@[a] == e.0),
                forall|a: int, b: int| 0 <= a < b < out@.len() ==> #[trigger] out@[a].0 <= #[trigger] out@[b].0,
                forall|a: int| 0 <= a < out@.len() ==> i > 0 && #[trigger] out@[a].0 <= ks@[i - 1],
                out@ == edges_along(self.nodes@, ks@.take(i as int)),
            decreases ks@.len() - i,
        {
            let k = ks[i];
            assert(ks@.to_set().contains(k));
            let n = self.nodes.get(&k).unwrap();
            let ts = n.to.iter();
            let mut j: usize = 0;
            let ghost before = out@;
            while j < ts.len()
                invariant
                    0 <= j <= ts@.len(),
                    ts@.to_set() == n.to@,
                    ts@.no_duplicates(),
                    n.id == k,
                    out@.len() == before.len() + j,
                    forall|a: int| 0 <= a < before.len() ==> #[trigger] out@[a] == before[a],
                    forall|a: int| before.len() <= a < out@.len() ==> #[trigger] out@[a] == (k, ts@[a - before.len()]),
                decreases ts@.len() - j,
            {
                out.push((n.id, ts[j]));
                j = j + 1;
            }
            proof {
                assert(ks@.take(i + 1).drop_last() =~= ks@.take(i as int));
                assert(ks@.take(i + 1).last() == k);
                assert(out@ =~= edges_along(self.nodes@, ks@.take(i as int)) + self.nodes@[k].to.order().map_values(
                    |t: u64| (k, t),
                ));
                assert forall|a: int, b: int| 0 <= a < b < out@.len() implies #[trigger] out@[a] != #[trigger] out@[b] by {
                    if b >= before.len() && a < before.len() {
                        assert(before[a].0 <= ks@[i - 1]);
                        assert(ks@[i - 1] < k);
                    }
                }
                assert forall|e: (u64, u64)| #[trigger] out@.contains(e) <==> (edge_set(self.nodes@).contains(e)
                    && exists|a: int| 0 <= a < i + 1 && ks@[a] == e.0) by {
                    if out@.contains(e) {
                        let p = choose|p: int| 0 <= p < out@.len() && out@[p] == e;
                        if p >= before.len() {
                            assert(ts@.contains(ts@[p - before.len()]));
                            assert(ks@[i as int] == e.0);
                        } else {
                            assert(before.contains(e));
                        }
                    }
                    if edge_set(self.nodes@).contains(e) && exists|a: int| 0 <= a < i + 1 && ks@[a] == e.0 {
                        if e.0 == k {
                            assert(ts@.to_set().contains(e.1));
                            let q = choose|q: int| 0 <= q < ts@.len() && ts@[q] == e.1;
                            assert(out@[before.len() + q] == e);
                        } else {
                            let a = choose|a: int| 0 <= a < i + 1 && ks@[a] == e.0;
                            assert(a < i);
                            assert(before.contains(e));
                            let p = choose|p: int| 0 <= p < before.len() && before[p] == e;
                            assert(out@[p] == e);
                        }
                    }
                }
                assert forall|a: int| 0 <= a < out@.len() implies #[trigger] out@[a].0 <= ks@[i as int] by {
                    if a < before.len() {
                        assert(out@[a] == before[a]);
                        assert(i > 0 && before[a].0 <= ks@[i - 1]);
                        assert(ks@[i - 1] < ks@[i as int]);
                    }
                }
            }
            i = i + 1;
        }
        proof {
            assert forall|e: (u64, u64)| #[trigger] out@.to_set().contains(e) <==> edge_set(self.nodes@).contains(e) by {
                if edge_set(self.nodes@).contains(e) {
                    assert(ks@.to_set().contains(e.0));
                }
            }
            assert(out@.to_set() =~= edge_set(self.nodes@));
            assert(ks@.take(ks@.len() as int) =~= ks@);
            assert(keys_ascending(self.nodes@, ks@));
        }
        out
    }

    /// Rename every edge end through the merges, then forget the merges.
    pub fn apply_merges(&mut self)
        requires
            old(self).wf(),
        ensures
            final(self).wf(),
            final(self).edges_closed(),
            final(self).merges@ == Map::<u64, u64>::empty(),
            final(self).nodes@.dom() == old(self).nodes@.dom(),
            forall|k: u64| #[trigger]
                final(self).nodes@.contains_key(k) ==> {
                    &&& final(self).nodes@[k].id == old(self).nodes@[k].id
                    &&& of_items(final(self).nodes@[k].of) == of_items(old(self).nodes@[k].of)
                    &&& final(self).nodes@[k].from@ == old(self).nodes@[k].from@.map(
                        |x: u64| root(old(self).merges@, x),
                    )
                    &&& final(self).nodes@[k].to@ == old(self).nodes@[k].to@.map(
                        |x: u64| root(old(self).merges@, x),
                    )
                },
    {
        let ks = sorted_keys(&self.nodes);
        let mut i: usize = 0;
        while i < ks.len()
            invariant
                old(self).wf(),
                0 <= i <= ks@.len(),
                ks@.to_set() == old(self).nodes@.dom(),
                ks@.no_duplicates(),
                self.nodes@.dom() == old(self).nodes@.dom(),
                merges_decrease(self.merges@),
                self.merges@.dom() == old(self).merges@.dom(),
                forall|x: u64| #[trigger] root(self.merges@, x) == root(old(self).merges@, x),
                forall|a: int| i <= a < ks@.len() ==> #[trigger] self.nodes@[ks@[a]] == old(self).nodes@[ks@[a]],
                forall|k: u64| #[trigger]
                    self.nodes@.contains_key(k) ==> {
                        &&& self.nodes@[k].id == old(self).nodes@[k].id
                        &&& of_items(self.nodes@[k].of) == of_items(old(self).nodes@[k].of)
                        &&& self.nodes@[k].wf()
                    },
                forall|a: int| 0 <= a < i ==> {
                    &&& #[trigger] self.nodes@[ks@[a]].from@ == old(self).nodes@[ks@[a]].from@.map(
                        |x: u64| root(old(self).merges@, x),
                    )
                    &&& self.nodes@[ks@[a]].to@ == old(self).nodes@[ks@[a]].to@.map(
                        |x: u64| root(old(self).merges@, x),
                    )
                },
            decreases ks@.len() - i,
        {
            let k = ks[i];
            assert(ks@.to_set().contains(k));
            let mut node = self.nodes.remove(&k).unwrap();
            let new_from = self.translated(&node.from);
            let new_to = self.translated(&node.to);
            node.from = new_from;
            node.to = new_to;
            self.nodes.insert(k, node);
            proof {
                assert(self.nodes@.dom() =~= old(self).nodes@.dom());
                assert forall|a: int| i + 1 <= a < ks@.len() implies #[trigger] self.nodes@[ks@[a]] == old(self).nodes@[ks@[a]] by {
                    assert(ks@[a] != k);
                }
                assert forall|a: int| 0 <= a < i + 1 implies {
                    &&& #[trigger] self.nodes@[ks@[a]].from@ == old(self).nodes@[ks@[a]].from@.map(
                        |x: u64| root(old(self).merges@, x),
                    )
                    &&& self.nodes@[ks@[a]].to@ == old(self).nodes@[ks@[a]].to@.map(
                        |x: u64| root(old(self).merges@, x),
                    )
                } by {
                    if a < i {
                        assert(ks@[a] != k);
                    }
                }
            }
            i = i + 1;
        }
        self.merges = BTreeMap::new();
        proof {
            assert forall|k: u64| #[trigger] self.nodes@.contains_key(k) implies {
                &&& self.nodes@[k].from@ == old(self).nodes@[k].from@.map(|x: u64| root(old(self).merges@, x))
                &&& self.nodes@[k].to@ == old(self).nodes@[k].to@.map(|x: u64| root(old(self).merges@, x))
            } by {
                assert(ks@.to_set().contains(k));
                let a = choose|a: int| 0 <= a < ks@.len() && ks@[a] == k;
                assert(self.nodes@[ks@[a]].from@ == old(self).nodes@[ks@[a]].from@.map(|x: u64| root(old(self).merges@, x)));
            }
            assert forall|k: u64, x: u64|
                self.nodes@.contains_key(k) && (self.nodes@[k].to@.contains(x) || self.nodes@[k].from@.contains(x))
                implies self.nodes@.contains_key(x) by {
                let om = old(self).merges@;
                if self.nodes@[k].to@.contains(x) {
                    let y = choose|y: u64| old(self).nodes@[k].to@.contains(y) && root(om, y) == x;
                    assert(known(old(self).nodes@, om, y));
                    if old(self).nodes@.contains_key(y) {
                        assert(!om.contains_key(y));
                    }
                } else {
                    let y = choose|y: u64| old(self).nodes@[k].from@.contains(y) && root(om, y) == x;
                    assert(known(old(self).nodes@, om, y));
                    if old(self).nodes@.contains_key(y) {
                        assert(!om.contains_key(y));
                    }
                }
            }
        }
    }

    /// A set of ids renamed through the merges.
    fn translated(&mut self, set: &SmallU64Set) -> (r: SmallU64Set)
        requires
            merges_decrease(old(self).merges@),
            set.wf(),
        ensures
            r.wf(),
            r@ == set@.map(|x: u64| root(old(self).merges@, x)),
            final(self).nodes == old(self).nodes,
            merges_decrease(final(self).merges@),
            final(self).merges@.dom() == old(self).merges@.dom(),
            forall|x: u64| #[trigger] root(final(self).merges@, x) == root(old(self).merges@, x),
    {
        let items = set.iter();
        let mut r = SmallU64Set::new();
        let mut j: usize = 0;
        while j < items.len()
            invariant
                0 <= j <= items@.len(),
                items@.to_set() == set@,
                r.wf(),
                r@ == items@.take(j as int).to_set().map(|x: u64| root(old(self).merges@, x)),
                self.nodes == old(self).nodes,
                merges_decrease(self.merges@),
                self.merges@.dom() == old(self).merges@.dom(),
                forall|x: u64| #[trigger] root(self.merges@, x) == root(old(self).merges@, x),
            decreases items@.len() - j,
        {
            let t = translate(items[j], &mut self.merges);
            r.insert(t);
            proof {
                assert(items@.take(j + 1) =~= items@.take(j as int).push(items@[j as int]));
                items@.take(j as int).lemma_push_to_set_commute(items@[j as int]);
                let f = |x: u64| root(old(self).merges@, x);
                items@.take(j as int).to_set().lemma_set_map_insert_commute(items@[j as int], f);
                assert(r@ =~= items@.take(j + 1).to_set().map(f));
            }
            j = j + 1;
        }
        proof {
            assert(items@.take(items@.len() as int) =~= items@);
        }
        r
    }

    /// The edges with every id replaced by its position among the node ids
    /// in ascending order.
    pub fn edge_list_sequentially_renamed(&self) -> (es: Vec<(usize, usize)>)
        requires
            self.wf(),
            self.edges_closed(),
        ensures
            es@.to_set() == renamed_edge_set(self.nodes@),
            es@.len() == edge_set(self.nodes@).len(),
            exists|ks: Seq<u64>|
                #[trigger] keys_ascending(self.nodes@, ks) && es@ == edges_along(self.nodes@, ks).map_values(
                    |e: (u64, u64)| (rank(self.nodes@, e.0), rank(self.nodes@, e.1)),
                ),
    {
        let ks = sorted_keys(&self.nodes);
        let n = ks.len();
        let mut renaming: HashMap<u64, usize> = HashMap::new();
        let mut i: usize = 0;
        while i < n
            invariant
                0 <= i <= ks@.len(),
                n == ks@.len(),
                ks@.to_set() == self.nodes@.dom(),
                ks@.no_duplicates(),
                forall|a: int, b: int| 0 <= a < b < ks@.len() ==> #[trigger] ks@[a] < #[trigger] ks@[b],
                forall|k: u64| #[trigger] renaming@.contains_key(k) <==> exists|a: int| 0 <= a < i && ks@[a] == k,
                forall|a: int| 0 <= a < i ==> #[trigger] renaming@[ks@[a]] == a,
            decreases ks@.len() - i,
        {
            renaming.insert(ks[i], i);
            proof {
                assert forall|a: int| 0 <= a < i + 1 implies #[trigger] renaming@[ks@[a]] == a by {
                    if a < i {
                        assert(ks@[a] != ks@[i as int]);
                    }
                }
                assert forall|k: u64| #[trigger] renaming@.contains_key(k) <==> exists|a: int| 0 <= a < i + 1 && ks@[a] == k by {
                    if renaming@.contains_key(k) && k != ks@[i as int] {
                        let a = choose|a: int| 0 <= a < i && ks@[a] == k;
                        assert(0 <= a < i + 1 && ks@[a] == k);
                    }
                    if k == ks@[i as int] {
                        assert(0 <= i < i + 1 && ks@[i as int] == k);
                    }
                }
            }
            i = i + 1;
        }
        let edges = self.edges();
        let mut out: Vec<(usize, usize)> = Vec::new();
        let mut j: usize = 0;
        while j < edges.len()
            invariant
                0 <= j <= edges@.len(),
                n == ks@.len(),
                self.edges_closed(),
                edges@.to_set() == edge_set(self.nodes@),
                ks@.to_set() == self.nodes@.dom(),
                forall|a: int, b: int| 0 <= a < b < ks@.len() ==> #[trigger] ks@[a] < #[trigger] ks@[b],
                forall|k: u64| #[trigger] renaming@.contains_key(k) <==> exists|a: int| 0 <= a < ks@.len() && ks@[a] == k,
                forall|a: int| 0 <= a < ks@.len() ==> #[trigger] renaming@[ks@[a]] == a,
                out@.len() == j,
                forall|a: int| 0 <= a < j ==> #[trigger] out@[a] == (rank(self.nodes@, edges@[a].0), rank(self.nodes@, edges@[a].1)),
            decreases edges@.len() - j,
        {
            let (x, y) = edges[j];
            assert(edges@.to_set().contains((x, y)));
            assert(self.nodes@[x].to@.contains(y));
            assert(self.nodes@.contains_key(y));
            assert(ks@.to_set().contains(x));
            assert(ks@.to_set().contains(y));
            let ix = *renaming.get(&x).unwrap();
            let iy = *renaming.get(&y).unwrap();
            proof {
                let ax = choose|a: int| 0 <= a < ks@.len() && ks@[a] == x;
                let ay = choose|a: int| 0 <= a < ks@.len() && ks@[a] == y;
                lemma_rank_of_sorted(self.nodes@, ks@, ax);
                lemma_rank_of_sorted(self.nodes@, ks@, ay);
            }
            out.push((ix, iy));
            j = j + 1;
        }
        proof {
            assert forall|p: (usize, usize)| #[trigger] out@.to_set().contains(p) <==> renamed_edge_set(self.nodes@).contains(p) by {
                if out@.to_set().contains(p) {
                    let a = choose|a: int| 0 <= a < out@.len() && out@[a] == p;
                    assert(edges@.to_set().contains(edges@[a]));
                }
                if renamed_edge_set(self.nodes@).contains(p) {
                    let e = choose|e: (u64, u64)| edge_set(self.nodes@).contains(e) && p == (rank(self.nodes@, e.0), rank(self.nodes@, e.1));
                    assert(edges@.to_set().contains(e));
                    let a = choose|a: int| 0 <= a < edges@.len() && edges@[a] == e;
                    assert(out@[a] == p);
                }
            }
            assert(out@.to_set() =~= renamed_edge_set(self.nodes@));
            edges@.unique_seq_to_set();
            let ks2 = choose|ks2: Seq<u64>|
                #[trigger] keys_ascending(self.nodes@, ks2) && edges@ == edges_along(self.nodes@, ks2);
            assert(out@ =~= edges_along(self.nodes@, ks2).map_values(
                |e: (u64, u64)| (rank(self.nodes@, e.0), rank(self.nodes@, e.1)),
            ));
            assert(keys_ascending(self.nodes@, ks2));
        }
        out
    }
}

} // verus!
