use arrayvec::ArrayVec;
use std::collections::BTreeSet;
use vstd::prelude::*;
use vstd::std_specs::cmp::OrdSpec;
use vstd::std_specs::iter::IteratorSpec;

verus! {

/// How many elements the inline variant holds before the set moves to a
/// `BTreeSet`.
pub const ACTUAL_SIZE: usize = 6;

#[verifier::external_type_specification]
#[verifier::external_body]
#[verifier::reject_recursive_types(T)]
pub struct ExArrayVec<T, const CAP: usize>(ArrayVec<T, CAP>);

/// The elements of an `ArrayVec`, in order.
pub uninterp spec fn array_vec_items(v: ArrayVec<u64, 6>) -> Seq<u64>;

/// `ArrayVec::new`: an empty vector.
#[verifier::external_body]
fn av_new() -> (v: ArrayVec<u64, 6>)
    ensures
        array_vec_items(v) == Seq::<u64>::empty(),
{
    ArrayVec::new()
}

/// `ArrayVec::len`: the number of elements, which never exceeds the
/// capacity.
#[verifier::external_body]
fn av_len(v: &ArrayVec<u64, 6>) -> (n: usize)
    ensures
        n == array_vec_items(*v).len(),
        n <= 6,
{
    v.len()
}

/// `Index` on an `ArrayVec`: the element at `i`.
#[verifier::external_body]
fn av_get(v: &ArrayVec<u64, 6>, i: usize) -> (x: u64)
    requires
        i < array_vec_items(*v).len(),
    ensures
        x == array_vec_items(*v)[i as int],
{
    v[i]
}

/// `ArrayVec::push`: appends an element; it panics on a full vector, which
/// `requires` excludes.
#[verifier::external_body]
fn av_push(v: &mut ArrayVec<u64, 6>, x: u64)
    requires
        array_vec_items(*old(v)).len() < 6,
    ensures
        array_vec_items(*final(v)) == array_vec_items(*old(v)).push(x),
{
    v.push(x)
}

/// `ArrayVec::remove`: removes the element at `i` and shifts the following
/// ones down; it panics out of bounds, which `requires` excludes.
#[verifier::external_body]
fn av_remove(v: &mut ArrayVec<u64, 6>, i: usize) -> (x: u64)
    requires
        i < array_vec_items(*old(v)).len(),
    ensures
        x == array_vec_items(*old(v))[i as int],
        array_vec_items(*final(v)) == array_vec_items(*old(v)).remove(i as int),
{
    v.remove(i)
}

/// `ArrayVec::clone`: a vector with the same elements.
#[verifier::external_body]
fn av_clone(v: &ArrayVec<u64, 6>) -> (c: ArrayVec<u64, 6>)
    ensures
        array_vec_items(c) == array_vec_items(*v),
{
    v.clone()
}

/// `BTreeSet::first`: the least element, if any.
#[verifier::external_body]
fn btree_first(s: &BTreeSet<u64>) -> (r: Option<u64>)
    ensures
        match r {
            Some(x) => s@.contains(x) && forall|y: u64| #[trigger] s@.contains(y) ==> x <= y,
            None => s@ == Set::<u64>::empty(),
        },
{
    s.first().copied()
}

/// How many ids fit in the space of a `BTreeSet<u64>`: the number of
/// inline elements that keeps the set no larger than the tree it stands
/// in for.
pub fn optimal_size() -> (n: usize)
    ensures
        n == vstd::layout::size_of::<BTreeSet<u64>>() / 8,
{
    let set_size = core::mem::size_of::<BTreeSet<u64>>();
    let u64_size = core::mem::size_of::<u64>();
    proof {
        broadcast use vstd::layout::layout_of_primitives;

        assert(u64_size == 8);
    }
    set_size / u64_size
}

/// The elements of a finite set of ids in ascending order.
pub open spec fn ascending(s: Set<u64>) -> Seq<u64> {
    choose|q: Seq<u64>| q.to_set() == s && forall|i: int, j: int| 0 <= i < j < q.len() ==> #[trigger] q[i] < #[trigger] q[j]
}

/// Two ascending lists of the same ids are one list.
proof fn lemma_ascending_unique(a: Seq<u64>, b: Seq<u64>)
    requires
        a.to_set() == b.to_set(),
        forall|i: int, j: int| 0 <= i < j < a.len() ==> #[trigger] a[i] < #[trigger] a[j],
        forall|i: int, j: int| 0 <= i < j < b.len() ==> #[trigger] b[i] < #[trigger] b[j],
    ensures
        a == b,
    decreases a.len(),
{
    if a.len() == 0 {
        if b.len() > 0 {
            assert(b.to_set().contains(b[0]));
            assert(!a.to_set().contains(b[0]));
        }
        assert(a =~= b);
    } else if b.len() == 0 {
        assert(a.to_set().contains(a[0]));
        assert(!b.to_set().contains(a[0]));
    } else {
        // The least element of both is their first one.
        assert(a.to_set().contains(a[0]));
        assert(b.to_set().contains(b[0]));
        let ia = choose|i: int| 0 <= i < a.len() && a[i] == b[0];
        let ib = choose|i: int| 0 <= i < b.len() && b[i] == a[0];
        if ia > 0 {
            assert(a[0] < a[ia]);
            if ib > 0 {
                assert(b[0] < b[ib]);
            }
        }
        if ib > 0 {
            assert(b[0] < b[ib]);
        }
        assert(a[0] == b[0]);
        let a1 = a.drop_first();
        let b1 = b.drop_first();
        assert forall|x: u64| a1.to_set().contains(x) <==> b1.to_set().contains(x) by {
            if a1.to_set().contains(x) {
                let i = choose|i: int| 0 <= i < a1.len() && a1[i] == x;
                assert(a[i + 1] == x);
                assert(a[0] < a[i + 1]);
                assert(a.to_set().contains(x));
                let j = choose|j: int| 0 <= j < b.len() && b[j] == x;
                assert(j != 0);
                assert(b1[j - 1] == x);
            }
            if b1.to_set().contains(x) {
                let i = choose|i: int| 0 <= i < b1.len() && b1[i] == x;
                assert(b[i + 1] == x);
                assert(b[0] < b[i + 1]);
                assert(b.to_set().contains(x));
                let j = choose|j: int| 0 <= j < a.len() && a[j] == x;
                assert(j != 0);
                assert(a1[j - 1] == x);
            }
        }
        assert(a1.to_set() =~= b1.to_set());
        lemma_ascending_unique(a1, b1);
        assert(a =~= b) by {
            assert forall|i: int| 0 <= i < a.len() implies a[i] == b[i] by {
                if i > 0 {
                    assert(a[i] == a1[i - 1]);
                    assert(b[i] == b1[i - 1]);
                }
            }
        }
    }
}

/// The keys of a tree set come out of its iterator in ascending order.
proof fn lemma_btree_keys_ascending(s: &BTreeSet<u64>)
    ensures
        ({
            let keys = vstd::std_specs::btree::spec_btree_keys_iter(s).remaining().map_values(|r: &u64| *r);
            &&& keys.to_set() == s@
            &&& forall|i: int, j: int| 0 <= i < j < keys.len() ==> #[trigger] keys[i] < #[trigger] keys[j]
        }),
{
    broadcast use vstd::std_specs::btree::group_btree_axioms;
    broadcast use vstd::laws_cmp::group_laws_cmp;
    broadcast use vstd::std_specs::btree::axiom_increasing_seq_meaning;

    let r = vstd::std_specs::btree::spec_btree_keys_iter(s).remaining();
    let keys = r.map_values(|x: &u64| *x);
    assert(vstd::laws_cmp::obeys_cmp::<&u64>());
    assert(vstd::std_specs::btree::increasing_seq(r));
    vstd::std_specs::btree::axiom_increasing_seq_meaning(r);
    assert(r.unref() =~= keys);
    assert forall|i: int, j: int| 0 <= i < j < keys.len() implies #[trigger] keys[i] < #[trigger] keys[j] by {
        assert(0 <= i < j < r.len());
        assert(OrdSpec::cmp_spec(&r[i], &r[j]) is Less);
        assert(keys[i] == *r[i]);
        assert(keys[j] == *r[j]);
    }
}

/// A small size optimised u64 set
pub enum SmallU64Set {
    BTree(BTreeSet<u64>),
    Vec(ArrayVec<u64, 6>),
}

impl View for SmallU64Set {
    type V = Set<u64>;

    closed spec fn view(&self) -> Set<u64> {
        match self {
            SmallU64Set::BTree(s) => s@,
            SmallU64Set::Vec(v) => array_vec_items(*v).to_set(),
        }
    }
}

impl SmallU64Set {
    /// The inline variant holds each element once.
    pub closed spec fn wf(&self) -> bool {
        match self {
            SmallU64Set::BTree(s) => s@.finite(),
            SmallU64Set::Vec(v) => array_vec_items(*v).no_duplicates(),
        }
    }

    pub fn new() -> (s: Self)
        ensures
            s.wf(),
            s@ == Set::<u64>::empty(),
    {
        SmallU64Set::Vec(av_new())
    }

    /// Insert `val`; true if it was not there yet.
    pub fn insert(&mut self, val: u64) -> (added: bool)
        requires
            old(self).wf(),
        ensures
            final(self).wf(),
            final(self)@ == old(self)@.insert(val),
            added == !old(self)@.contains(val),
    {
        match self {
            SmallU64Set::BTree(s) => s.insert(val),
            SmallU64Set::Vec(v) => {
                let contains = vec_contains(v, val);
                if contains {
                    return false;
                }
                if av_len(v) == ACTUAL_SIZE {
                    let mut s: BTreeSet<u64> = BTreeSet::new();
                    let mut i: usize = 0;
                    while i < ACTUAL_SIZE
                        invariant
                            0 <= i <= ACTUAL_SIZE,
                            array_vec_items(*v).len() == ACTUAL_SIZE,
                            s@ == array_vec_items(*v).take(i as int).to_set(),
                        decreases ACTUAL_SIZE - i,
                    {
                        s.insert(av_get(v, i));
                        proof {
                            assert(array_vec_items(*v).take(i + 1) =~= array_vec_items(*v).take(
                                i as int,
                            ).push(array_vec_items(*v)[i as int]));
                            array_vec_items(*v).take(i as int).lemma_push_to_set_commute(
                                array_vec_items(*v)[i as int],
                            );
                        }
                        i = i + 1;
                    }
                    proof {
                        assert(array_vec_items(*v).take(6) =~= array_vec_items(*v));
                    }
                    s.insert(val);
                    *self = SmallU64Set::BTree(s);
                } else {
                    let ghost before = array_vec_items(*v);
                    av_push(v, val);
                    proof {
                        before.lemma_push_to_set_commute(val);
                        assert(array_vec_items(*v).no_duplicates()) by {
                            assert forall|a: int, b: int|
                                0 <= a < b < array_vec_items(*v).len() implies array_vec_items(
                                *v,
                            )[a] != array_vec_items(*v)[b] by {
                                if b == before.len() {
                                    assert(before.contains(before[a]));
                                }
                            }
                        }
                        assert(array_vec_items(*v).to_set() =~= old(self)@.insert(val));
                    }
                }
                true
            },
        }
    }
}

impl SmallU64Set {
    /// Remove `val`; true if it was there.
    pub fn remove(&mut self, val: &u64) -> (removed: bool)
        requires
            old(self).wf(),
        ensures
            final(self).wf(),
            final(self)@ == old(self)@.remove(*val),
            removed == old(self)@.contains(*val),
    {
        match self {
            SmallU64Set::BTree(s) => s.remove(val),
            SmallU64Set::Vec(v) => {
                let val = *val;
                match vec_position(v, val) {
                    Some(i) => {
                        let ghost before = array_vec_items(*v);
                        av_remove(v, i);
                        proof {
                            lemma_remove_unique(before, i as int);
                        }
                        true
                    },
                    None => {
                        assert(array_vec_items(*v).to_set() =~= array_vec_items(*v).to_set().remove(
                            val,
                        ));
                        false
                    },
                }
            },
        }
    }

    pub fn len(&self) -> (n: usize)
        requires
            self.wf(),
        ensures
            n == self@.len(),
    {
        match self {
            SmallU64Set::BTree(s) => s.len(),
            SmallU64Set::Vec(v) => {
                proof {
                    array_vec_items(*v).unique_seq_to_set();
                }
                av_len(v)
            },
        }
    }

    pub fn is_empty(&self) -> (b: bool)
        requires
            self.wf(),
        ensures
            b == (self@ == Set::<u64>::empty()),
    {
        proof {
            if self@.len() == 0 {
                self.lemma_finite();
                assert(self@ =~= Set::<u64>::empty());
            }
        }
        self.len() == 0
    }

    /// A set of one element that holds `x` is `{x}`.
    pub proof fn lemma_len_one(&self, x: u64)
        requires
            self.wf(),
            self@.len() == 1,
            self@.contains(x),
        ensures
            self@ == set![x],
    {
        self.lemma_finite();
        assert(self@.remove(x).len() == 0);
        assert(self@.remove(x) =~= Set::<u64>::empty());
        assert(self@ =~= set![x]);
    }

    pub proof fn lemma_finite(&self)
        requires
            self.wf(),
        ensures
            self@.finite(),
    {
    }

    pub fn contains(&self, val: &u64) -> (b: bool)
        requires
            self.wf(),
        ensures
            b == self@.contains(*val),
    {
        match self {
            SmallU64Set::BTree(s) => s.contains(val),
            SmallU64Set::Vec(v) => vec_contains(v, *val),
        }
    }

    /// Returns an arbitrary element in the set: the least one of the tree
    /// variant, the first one of the inline variant.
    pub fn get_any(&self) -> (x: u64)
        requires
            self.wf(),
            self@ != Set::<u64>::empty(),
        ensures
            self@.contains(x),
    {
        match self {
            SmallU64Set::BTree(s) => match btree_first(s) {
                Some(x) => x,
                None => {
                    proof {
                        assert(false);
                    }
                    0
                },
            },
            SmallU64Set::Vec(v) => {
                if av_len(v) == 0 {
                    proof {
                        assert(array_vec_items(*v).to_set() =~= Set::<u64>::empty());
                    }
                }
                av_get(v, 0)
            },
        }
    }

    /// The order in which `iter` hands out the elements: the tree's own
    /// iteration order (ascending) for the tree variant, and the order in
    /// which they were stored for the inline one.
    pub closed spec fn order(&self) -> Seq<u64> {
        match self {
            SmallU64Set::BTree(s) => ascending(s@),
            SmallU64Set::Vec(v) => array_vec_items(*v),
        }
    }

    /// The elements, each once: ascending for the tree variant, in
    /// insertion order for the inline one.
    pub fn iter(&self) -> (items: Vec<u64>)
        requires
            self.wf(),
        ensures
            items@.to_set() == self@,
            items@.no_duplicates(),
            items@ == self.order(),
    {
        match self {
            SmallU64Set::BTree(s) => {
                let mut out: Vec<u64> = Vec::new();
                let ghost keys = vstd::std_specs::btree::spec_btree_keys_iter(s).remaining();
                for x in it: s.iter()
                    invariant
                        it.seq() == keys,
                        out@ == it.seq().take(it.index() as int).map_values(|r: &u64| *r),
                {
                    out.push(*x);
                    proof {
                        assert(out@ =~= it.seq().take(it.index() + 1).map_values(|r: &u64| *r));
                    }
                }
                proof {
                    assert(out@ =~= keys.map_values(|r: &u64| *r));
                    assert(keys.unref() =~= keys.map_values(|r: &u64| *r));
                    lemma_btree_keys_ascending(s);
                    let q = choose|q: Seq<u64>|
                        q.to_set() == s@ && forall|i: int, j: int| 0 <= i < j < q.len() ==> #[trigger] q[i] < #[trigger] q[j];
                    lemma_ascending_unique(out@, q);
                }
                out
            },
            SmallU64Set::Vec(v) => {
                let n = av_len(v);
                let mut out: Vec<u64> = Vec::new();
                let mut i: usize = 0;
                while i < n
                    invariant
                        0 <= i <= n,
                        n == array_vec_items(*v).len(),
                        out@ == array_vec_items(*v).take(i as int),
                    decreases n - i,
                {
                    out.push(av_get(v, i));
                    proof {
                        assert(out@ =~= array_vec_items(*v).take(i + 1));
                    }
                    i = i + 1;
                }
                proof {
                    assert(out@ =~= array_vec_items(*v));
                }
                out
            },
        }
    }
}

impl Clone for SmallU64Set {
    fn clone(&self) -> (c: Self)
        ensures
            self.wf() ==> c.wf() && c@ == self@,
    {
        match self {
            SmallU64Set::BTree(s) => SmallU64Set::BTree(s.clone()),
            SmallU64Set::Vec(v) => SmallU64Set::Vec(av_clone(v)),
        }
    }
}

impl Default for SmallU64Set {
    fn default() -> (s: Self)
        ensures
            s.wf(),
            s@ == Set::<u64>::empty(),
    {
        SmallU64Set::new()
    }
}

impl SmallU64Set {
    /// The set of the given elements.
    pub fn collect(items: &[u64]) -> (s: Self)
        ensures
            s.wf(),
            s@ == items@.to_set(),
    {
        let mut s = SmallU64Set::new();
        let mut i: usize = 0;
        while i < items.len()
            invariant
                0 <= i <= items@.len(),
                s.wf(),
                s@ == items@.take(i as int).to_set(),
            decreases items@.len() - i,
        {
            s.insert(items[i]);
            proof {
                assert(items@.take(i + 1) =~= items@.take(i as int).push(items@[i as int]));
                items@.take(i as int).lemma_push_to_set_commute(items@[i as int]);
            }
            i = i + 1;
        }
        assert(items@.take(items@.len() as int) =~= items@);
        s
    }

    /// Adds every element of `other` to this set.
    pub fn union(&mut self, other: &Self)
        requires
            old(self).wf(),
            other.wf(),
        ensures
            final(self).wf(),
            final(self)@ == old(self)@.union(other@),
    {
        let items = other.iter();
        let mut i: usize = 0;
        while i < items.len()
            invariant
                0 <= i <= items@.len(),
                self.wf(),
                self@ == old(self)@.union(items@.take(i as int).to_set()),
            decreases items@.len() - i,
        {
            self.insert(items[i]);
            proof {
                assert(items@.take(i + 1) =~= items@.take(i as int).push(items@[i as int]));
                items@.take(i as int).lemma_push_to_set_commute(items@[i as int]);
                assert(self@ =~= old(self)@.union(items@.take(i + 1).to_set()));
            }
            i = i + 1;
        }
        assert(items@.take(items@.len() as int) =~= items@);
    }

    /// Both sets hold the same elements.
    pub fn same_elements(&self, other: &Self) -> (b: bool)
        requires
            self.wf(),
            other.wf(),
        ensures
            b == (self@ == other@),
    {
        if self.len() != other.len() {
            return false;
        }
        let items = self.iter();
        let mut i: usize = 0;
        while i < items.len()
            invariant
                0 <= i <= items@.len(),
                other.wf(),
                self.wf(),
                self@.len() == other@.len(),
                items@.to_set() == self@,
                items@.no_duplicates(),
                forall|j: int| 0 <= j < i ==> other@.contains(#[trigger] items@[j]),
            decreases items@.len() - i,
        {
            if !other.contains(&items[i]) {
                assert(self@.contains(items@[i as int]));
                return false;
            }
            i = i + 1;
        }
        proof {
            self.lemma_finite();
            other.lemma_finite();
            assert(self@.subset_of(other@));
            vstd::set_lib::lemma_subset_equality(self@, other@);
        }
        true
    }
}

/// Where `val` stands among the elements of `v`, if it does.
fn vec_position(v: &ArrayVec<u64, 6>, val: u64) -> (r: Option<usize>)
    ensures
        match r {
            Some(i) => i < array_vec_items(*v).len() && array_vec_items(*v)[i as int] == val,
            None => !array_vec_items(*v).contains(val),
        },
{
    let n = av_len(v);
    let mut i: usize = 0;
    while i < n
        invariant
            0 <= i <= n,
            n == array_vec_items(*v).len(),
            forall|j: int| 0 <= j < i ==> array_vec_items(*v)[j] != val,
        decreases n - i,
    {
        if av_get(v, i) == val {
            return Some(i);
        }
        i = i + 1;
    }
    None
}

/// Removing an element of a sequence without duplicates keeps it without
/// duplicates and removes exactly that element from its set.
proof fn lemma_remove_unique(before: Seq<u64>, i: int)
    requires
        before.no_duplicates(),
        0 <= i < before.len(),
    ensures
        before.remove(i).no_duplicates(),
        before.remove(i).to_set() == before.to_set().remove(before[i]),
{
    let after = before.remove(i);
    let val = before[i];
    assert forall|a: int, b: int| 0 <= a < b < after.len() implies after[a] != after[b] by {
        let a0 = if a < i {
            a
        } else {
            a + 1
        };
        let b0 = if b < i {
            b
        } else {
            b + 1
        };
        assert(after[a] == before[a0]);
        assert(after[b] == before[b0]);
    }
    assert forall|x: u64| #[trigger] after.to_set().contains(x) implies before.to_set().remove(
        val,
    ).contains(x) by {
        let k = choose|k: int| 0 <= k < after.len() && after[k] == x;
        if k < i {
            assert(before[k] == x);
        } else {
            assert(before[k + 1] == x);
        }
    }
    assert forall|x: u64| #[trigger] before.to_set().remove(val).contains(x) implies after.to_set().contains(x) by {
        let k = choose|k: int| 0 <= k < before.len() && before[k] == x;
        if k < i {
            assert(after[k] == x);
        } else {
            assert(after[k - 1] == x);
        }
    }
    assert(after.to_set() =~= before.to_set().remove(val));
}

/// Whether `val` is among the elements of `v`.
fn vec_contains(v: &ArrayVec<u64, 6>, val: u64) -> (found: bool)
    ensures
        found == array_vec_items(*v).contains(val),
{
    let n = av_len(v);
    let mut i: usize = 0;
    while i < n
        invariant
            0 <= i <= n,
            n == array_vec_items(*v).len(),
            forall|j: int| 0 <= j < i ==> array_vec_items(*v)[j] != val,
        decreases n - i,
    {
        if av_get(v, i) == val {
            return true;
        }
        i = i + 1;
    }
    false
}

} // verus!
