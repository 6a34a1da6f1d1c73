use vstd::prelude::*;

verus! {

/// A byte range of a file, argument or variable that is made symbolic.
pub enum SymbolicRange {
    Index(u64),
    Begin(u64, ()),
    Range(u64, u64),
}

/// `[start, end)` of a range, as `range` computes it.
pub open spec fn range_of(r: SymbolicRange) -> (u64, u64) {
    match r {
        SymbolicRange::Index(a) => (a, (a + 1) as u64),
        SymbolicRange::Begin(a, _) => (a, u64::MAX),
        SymbolicRange::Range(a, b) => (a, b),
    }
}

/// `range` is defined on the range: an index has a successor.
pub open spec fn range_ok(r: SymbolicRange) -> bool {
    match r {
        SymbolicRange::Index(a) => a < u64::MAX,
        _ => true,
    }
}

/// Sorting order of `normalize`: by start, and among equal starts the
/// longer range first.
pub open spec fn key_le(x: (u64, u64), y: (u64, u64)) -> bool {
    x.0 < y.0 || (x.0 == y.0 && x.1 >= y.1)
}

pub open spec fn sorted_by_key(s: Seq<(u64, u64)>) -> bool {
    forall|i: int, j: int| 0 <= i < j < s.len() ==> key_le(#[trigger] s[i], #[trigger] s[j])
}

/// Adding one range to the merged list: it joins the last range when it
/// starts at or before that range's end, and is appended otherwise.
pub open spec fn merge_step(acc: Seq<(u64, u64)>, r: (u64, u64)) -> Seq<(u64, u64)> {
    if acc.len() > 0 && r.0 <= acc.last().1 {
        let l = acc.last();
        acc.update(
            acc.len() - 1,
            (
                if l.0 <= r.0 {
                    l.0
                } else {
                    r.0
                },
                if l.1 >= r.1 {
                    l.1
                } else {
                    r.1
                },
            ),
        )
    } else {
        acc.push(r)
    }
}

/// Merging a list of ranges in its order.
pub open spec fn merge_all(s: Seq<(u64, u64)>) -> Seq<(u64, u64)>
    decreases s.len(),
{
    if s.len() == 0 {
        Seq::empty()
    } else {
        merge_step(merge_all(s.drop_last()), s.last())
    }
}

/// The ranges of a list as `[start, end)` pairs.
pub open spec fn pairs_of(s: Seq<SymbolicRange>) -> Seq<(u64, u64)> {
    s.map_values(|r: SymbolicRange| range_of(r))
}

/// `out` is what `normalize` makes of `input`: the merge of the ranges,
/// sorted by start and, at equal starts, longest first.
pub open spec fn is_normalization(input: Seq<SymbolicRange>, out: Seq<SymbolicRange>) -> bool {
    exists|sorted: Seq<(u64, u64)>|
        {
            &&& sorted.to_multiset() == pairs_of(input).to_multiset()
            &&& sorted_by_key(sorted)
            &&& out == merge_all(sorted).map_values(|p: (u64, u64)| SymbolicRange::Range(p.0, p.1))
        }
}

/// Point `x` lies in one of the ranges.
pub open spec fn covers(s: Seq<(u64, u64)>, x: int) -> bool {
    exists|i: int| 0 <= i < s.len() && #[trigger] s[i].0 <= x < s[i].1
}

/// Sorts by `key_le`, keeping the same elements.
fn sort_by_key(v: &mut Vec<(u64, u64)>)
    ensures
        final(v)@.to_multiset() == old(v)@.to_multiset(),
        sorted_by_key(final(v)@),
{
    let n = v.len();
    let mut i: usize = 1;
    if n == 0 {
        return ;
    }
    while i < n
        invariant
            1 <= i <= n,
            n == v@.len(),
            v@.to_multiset() == old(v)@.to_multiset(),
            forall|a: int, b: int| 0 <= a < b < i ==> key_le(#[trigger] v@[a], #[trigger] v@[b]),
        decreases n - i,
    {
        let mut j = i;
        while j > 0 && !(v[j - 1].0 < v[j].0 || (v[j - 1].0 == v[j].0 && v[j - 1].1 >= v[j].1))
            invariant
                0 <= j <= i < n,
                n == v@.len(),
                v@.to_multiset() == old(v)@.to_multiset(),
                forall|a: int, b: int| 0 <= a < b < j ==> key_le(#[trigger] v@[a], #[trigger] v@[b]),
                forall|a: int, b: int|
                    j < a < b <= i ==> key_le(#[trigger] v@[a], #[trigger] v@[b]),
                forall|a: int, b: int|
                    0 <= a < j && j < b <= i ==> key_le(#[trigger] v@[a], #[trigger] v@[b]),
                forall|b: int| j < b <= i ==> key_le(v@[j as int], #[trigger] v@[b]),
                j < i && j > 0 ==> key_le(v@[j - 1], v@[j + 1]),
            decreases j,
        {
            let x = v[j - 1];
            let y = v[j];
            let ghost before = v@;
            v.set(j - 1, y);
            v.set(j, x);
            proof {
                broadcast use vstd::seq_lib::to_multiset_update;
                assert(v@ == before.update(j - 1, y).update(j as int, x));
                assert(before.update(j - 1, y).to_multiset() == before.to_multiset().insert(y).remove(x));
                let u = before.update(j - 1, y);
                assert(u[j as int] == y);
                assert(u.update(j as int, x).to_multiset() == u.to_multiset().insert(x).remove(y));
                assert(before.to_multiset().count(x) > 0) by {
                    broadcast use vstd::seq_lib::to_multiset_contains;
                    assert(before[j - 1] == x);
                    assert(before.contains(x));
                }
                broadcast use vstd::multiset::group_multiset_axioms;
                assert(v@.to_multiset() =~= before.to_multiset());
            }
            j = j - 1;
        }
        i = i + 1;
    }
}

proof fn lemma_merge_all_props(s: Seq<(u64, u64)>)
    requires
        sorted_by_key(s),
    ensures
        s.len() > 0 ==> merge_all(s).len() > 0 && merge_all(s).last().0 <= s.last().0,
        forall|i: int|
            0 <= i < merge_all(s).len() - 1 ==> #[trigger] merge_all(s)[i].1 < merge_all(s)[i + 1].0,
        forall|i: int, j: int|
            0 <= i < j < merge_all(s).len() ==> #[trigger] merge_all(s)[i].0 <= #[trigger] merge_all(
                s,
            )[j].0,
        forall|x: int| covers(merge_all(s), x) <==> covers(s, x),
    decreases s.len(),
{
    if s.len() > 0 {
        let t = s.drop_last();
        assert(sorted_by_key(t));
        lemma_merge_all_props(t);
        let m = merge_all(t);
        let r = s.last();
        if t.len() > 0 {
            assert(key_le(t.last(), r));
        }
        assert forall|x: int| covers(merge_all(s), x) <==> covers(s, x) by {
            if covers(s, x) {
                let i = choose|i: int| 0 <= i < s.len() && #[trigger] s[i].0 <= x < s[i].1;
                if i < s.len() - 1 {
                    assert(t[i] == s[i]);
                    assert(covers(t, x));
                    let k = choose|k: int| 0 <= k < m.len() && #[trigger] m[k].0 <= x < m[k].1;
                    if m.len() > 0 && r.0 <= m.last().1 && k == m.len() - 1 {
                        assert(merge_all(s)[k].0 <= x < merge_all(s)[k].1);
                    } else {
                        assert(merge_all(s)[k] == m[k]);
                    }
                } else {
                    if m.len() > 0 && r.0 <= m.last().1 {
                        let k = m.len() - 1;
                        assert(merge_all(s)[k].0 <= x < merge_all(s)[k].1);
                    } else {
                        assert(merge_all(s)[m.len() as int] == r);
                    }
                }
            }
            if covers(merge_all(s), x) {
                let k = choose|k: int|
                    0 <= k < merge_all(s).len() && #[trigger] merge_all(s)[k].0 <= x < merge_all(
                        s,
                    )[k].1;
                if m.len() > 0 && r.0 <= m.last().1 && k == m.len() - 1 {
                    let l = m.last();
                    if l.0 <= x < l.1 {
                        assert(covers(t, x));
                    } else {
                        assert(r.0 <= x < r.1);
                    }
                } else if k < m.len() {
                    assert(merge_all(s)[k] == m[k]);
                    assert(covers(t, x));
                } else {
                    assert(r.0 <= x < r.1);
                }
                if covers(t, x) {
                    let i = choose|i: int| 0 <= i < t.len() && #[trigger] t[i].0 <= x < t[i].1;
                    assert(s[i] == t[i]);
                } else {
                    assert(s[s.len() - 1] == r);
                }
            }
        }
    }
}

proof fn lemma_covers_multiset(a: Seq<(u64, u64)>, b: Seq<(u64, u64)>, x: int)
    requires
        a.to_multiset() == b.to_multiset(),
    ensures
        covers(a, x) <==> covers(b, x),
{
    broadcast use vstd::seq_lib::to_multiset_contains;

    if covers(a, x) {
        let i = choose|i: int| 0 <= i < a.len() && #[trigger] a[i].0 <= x < a[i].1;
        assert(a.contains(a[i]));
        assert(a.to_multiset().count(a[i]) > 0);
        assert(b.to_multiset().count(a[i]) > 0);
        assert(b.contains(a[i]));
        let j = choose|j: int| 0 <= j < b.len() && b[j] == a[i];
        assert(b[j].0 <= x < b[j].1);
    }
    if covers(b, x) {
        let i = choose|i: int| 0 <= i < b.len() && #[trigger] b[i].0 <= x < b[i].1;
        assert(b.contains(b[i]));
        assert(b.to_multiset().count(b[i]) > 0);
        assert(a.to_multiset().count(b[i]) > 0);
        assert(a.contains(b[i]));
        let j = choose|j: int| 0 <= j < a.len() && a[j] == b[i];
        assert(a[j].0 <= x < a[j].1);
    }
}

/// `normalize` keeps exactly the points that the ranges cover.
pub proof fn law_normalize_keeps_coverage(input: Seq<SymbolicRange>, out: Seq<SymbolicRange>, x: int)
    requires
        is_normalization(input, out),
    ensures
        covers(pairs_of(input), x) <==> covers(pairs_of(out), x),
{
    let sorted = choose|sorted: Seq<(u64, u64)>|
        {
            &&& sorted.to_multiset() == pairs_of(input).to_multiset()
            &&& sorted_by_key(sorted)
            &&& out == merge_all(sorted).map_values(
                |p: (u64, u64)| SymbolicRange::Range(p.0, p.1),
            )
        };
    lemma_covers_multiset(sorted, pairs_of(input), x);
    lemma_merge_all_props(sorted);
    assert(pairs_of(out) =~= merge_all(sorted));
}

/// `normalize` leaves ranges in order of their starts, each ending before
/// the next one starts.
pub proof fn law_normalize_separates(input: Seq<SymbolicRange>, out: Seq<SymbolicRange>)
    requires
        is_normalization(input, out),
    ensures
        forall|i: int|
            0 <= i < out.len() - 1 ==> #[trigger] pairs_of(out)[i].1 < pairs_of(out)[i + 1].0,
        forall|i: int, j: int|
            0 <= i < j < out.len() ==> #[trigger] pairs_of(out)[i].0 <= #[trigger] pairs_of(out)[j].0,
{
    let sorted = choose|sorted: Seq<(u64, u64)>|
        {
            &&& sorted.to_multiset() == pairs_of(input).to_multiset()
            &&& sorted_by_key(sorted)
            &&& out == merge_all(sorted).map_values(
                |p: (u64, u64)| SymbolicRange::Range(p.0, p.1),
            )
        };
    lemma_merge_all_props(sorted);
    assert(pairs_of(out) =~= merge_all(sorted));
}


/// Merging ranges sorted by `key_le` keeps them sorted, and the last merged
/// range comes no later than the last range merged in.
proof fn lemma_merge_all_sorted(s: Seq<(u64, u64)>)
    requires
        sorted_by_key(s),
    ensures
        sorted_by_key(merge_all(s)),
        s.len() > 0 ==> key_le(merge_all(s).last(), s.last()),
    decreases s.len(),
{
    if s.len() > 0 {
        let t = s.drop_last();
        assert(sorted_by_key(t));
        lemma_merge_all_sorted(t);
        lemma_merge_all_props(t);
        let m = merge_all(t);
        let r = s.last();
        let n = merge_all(s);
        if t.len() > 0 {
            assert(key_le(t.last(), r));
            assert(key_le(m.last(), r));
        }
        if m.len() > 0 && r.0 <= m.last().1 {
            let l = m.last();
            assert(n.len() == m.len());
            assert forall|i: int, j: int| 0 <= i < j < n.len() implies key_le(#[trigger] n[i], #[trigger] n[j]) by {
                if j == n.len() - 1 {
                    assert(n[i] == m[i]);
                    assert(key_le(m[i], l));
                    if m[i].0 == l.0 {
                        assert(m[i].1 < m[i + 1].0);
                        if i + 1 < m.len() - 1 {
                            assert(m[i + 1].0 <= m[m.len() - 1].0);
                        }
                    }
                } else {
                    assert(n[i] == m[i] && n[j] == m[j]);
                }
            }
        } else {
            assert forall|i: int, j: int| 0 <= i < j < n.len() implies key_le(#[trigger] n[i], #[trigger] n[j]) by {
                if j == n.len() - 1 {
                    assert(n[i] == m[i]);
                    if i < m.len() - 1 {
                        assert(key_le(m[i], m.last()));
                    }
                } else {
                    assert(n[i] == m[i] && n[j] == m[j]);
                }
            }
        }
    }
}

/// Ranges that each end before the next one starts are merged into
/// themselves.
proof fn lemma_merge_all_separated(p: Seq<(u64, u64)>)
    requires
        forall|i: int| 0 <= i < p.len() - 1 ==> #[trigger] p[i].1 < p[i + 1].0,
    ensures
        merge_all(p) == p,
    decreases p.len(),
{
    if p.len() > 0 {
        let t = p.drop_last();
        assert forall|i: int| 0 <= i < t.len() - 1 implies #[trigger] t[i].1 < t[i + 1].0 by {
            assert(t[i] == p[i] && t[i + 1] == p[i + 1]);
        }
        lemma_merge_all_separated(t);
        if t.len() > 0 {
            assert(p[p.len() - 2].1 < p[p.len() - 1].0);
        }
        assert(t.push(p.last()) =~= p);
    }
}

/// Normalizing ranges that are already normalized leaves them as they are.
pub proof fn law_normalize_idempotent(input: Seq<SymbolicRange>, once: Seq<SymbolicRange>, twice: Seq<SymbolicRange>)
    requires
        is_normalization(input, once),
        is_normalization(once, twice),
    ensures
        twice == once,
{
    let s1 = choose|sorted: Seq<(u64, u64)>|
        {
            &&& sorted.to_multiset() == pairs_of(input).to_multiset()
            &&& sorted_by_key(sorted)
            &&& once == merge_all(sorted).map_values(|p: (u64, u64)| SymbolicRange::Range(p.0, p.1))
        };
    let s2 = choose|sorted: Seq<(u64, u64)>|
        {
            &&& sorted.to_multiset() == pairs_of(once).to_multiset()
            &&& sorted_by_key(sorted)
            &&& twice == merge_all(sorted).map_values(|p: (u64, u64)| SymbolicRange::Range(p.0, p.1))
        };
    let p = merge_all(s1);
    assert(pairs_of(once) =~= p);
    lemma_merge_all_sorted(s1);
    lemma_merge_all_props(s1);
    let leq = |x: (u64, u64), y: (u64, u64)| key_le(x, y);
    assert(vstd::relations::total_ordering(leq)) by {
        assert(vstd::relations::reflexive(leq));
        assert(vstd::relations::antisymmetric(leq));
        assert(vstd::relations::transitive(leq));
        assert(vstd::relations::strongly_connected(leq));
    }
    assert(vstd::relations::sorted_by(s2, leq)) by {
        assert forall|i: int, j: int| 0 <= i < j < s2.len() implies #[trigger] leq(s2[i], s2[j]) by {
            assert(key_le(s2[i], s2[j]));
        }
    }
    assert(vstd::relations::sorted_by(p, leq)) by {
        assert forall|i: int, j: int| 0 <= i < j < p.len() implies #[trigger] leq(p[i], p[j]) by {
            assert(key_le(p[i], p[j]));
        }
    }
    vstd::seq_lib::lemma_sorted_unique(s2, p, leq);
    lemma_merge_all_separated(p);
    assert(twice =~= once);
}

impl SymbolicRange {
    pub fn range(&self) -> (r: [u64; 2])
        requires
            range_ok(*self),
        ensures
            r@ == seq![range_of(*self).0, range_of(*self).1],
    {
        match *self {
            Self::Index(a) => [a, a + 1],
            Self::Begin(a, ()) => [a, u64::MAX],
            Self::Range(a, b) => [a, b],
        }
    }

    /// Rewrite a list of ranges as sorted, merged `Range`s covering the same
    /// points.
    pub fn normalize(ranges: &mut Vec<SymbolicRange>)
        requires
            forall|i: int| 0 <= i < old(ranges)@.len() ==> range_ok(#[trigger] old(ranges)@[i]),
        ensures
            is_normalization(old(ranges)@, final(ranges)@),
    {
        let mut v: Vec<(u64, u64)> = Vec::new();
        let mut i: usize = 0;
        while i < ranges.len()
            invariant
                0 <= i <= ranges@.len(),
                ranges@ == old(ranges)@,
                forall|k: int| 0 <= k < ranges@.len() ==> range_ok(#[trigger] ranges@[k]),
                v@ == pairs_of(ranges@).take(i as int),
            decreases ranges@.len() - i,
        {
            let r = ranges[i].range();
            v.push((r[0], r[1]));
            proof {
                assert(v@ =~= pairs_of(ranges@).take(i + 1));
            }
            i = i + 1;
        }
        assert(v@ =~= pairs_of(old(ranges)@));
        sort_by_key(&mut v);
        let mut ret: Vec<(u64, u64)> = Vec::new();
        let mut i: usize = 0;
        while i < v.len()
            invariant
                0 <= i <= v@.len(),
                ret@ == merge_all(v@.take(i as int)),
            decreases v@.len() - i,
        {
            let (a, b) = v[i];
            let n = ret.len();
            if n > 0 && a <= ret[n - 1].1 {
                let (a0, b0) = ret[n - 1];
                let na = if a0 <= a {
                    a0
                } else {
                    a
                };
                let nb = if b0 >= b {
                    b0
                } else {
                    b
                };
                ret.set(n - 1, (na, nb));
            } else {
                ret.push((a, b));
            }
            proof {
                assert(v@.take(i + 1).drop_last() =~= v@.take(i as int));
            }
            i = i + 1;
        }
        assert(v@.take(v@.len() as int) =~= v@);
        ranges.clear();
        let mut i: usize = 0;
        while i < ret.len()
            invariant
                0 <= i <= ret@.len(),
                ranges@ == ret@.take(i as int).map_values(
                    |p: (u64, u64)| SymbolicRange::Range(p.0, p.1),
                ),
            decreases ret@.len() - i,
        {
            let (a, b) = ret[i];
            ranges.push(SymbolicRange::Range(a, b));
            proof {
                assert(ranges@ =~= ret@.take(i + 1).map_values(
                    |p: (u64, u64)| SymbolicRange::Range(p.0, p.1),
                ));
            }
            i = i + 1;
        }
        assert(ret@.take(ret@.len() as int) =~= ret@);
    }

    pub fn start(&self) -> (s: u64)
        requires
            range_ok(*self),
        ensures
            s == range_of(*self).0,
    {
        self.range()[0]
    }

    pub fn len(&self) -> (n: u64)
        requires
            match *self {
                SymbolicRange::Range(a, b) => a <= b,
                _ => true,
            },
        ensures
            n == match *self {
                SymbolicRange::Index(_) => 1,
                SymbolicRange::Begin(_, _) => u64::MAX,
                SymbolicRange::Range(a, b) => (b - a) as u64,
            },
    {
        match self {
            Self::Index(_) => 1,
            Self::Begin(_, ()) => u64::MAX,
            Self::Range(a, b) => *b - *a,
        }
    }
}

} // verus!

verus! {

/// `std::str::Utf8Error`, carried by `RecipeError::NotUtf8`.
#[verifier::external_type_specification]
#[verifier::external_body]
pub struct ExUtf8Error(std::str::Utf8Error);

/// `serde_json::Error`, carried by the JSON errors of `RecipeError`.
#[verifier::external_type_specification]
#[verifier::external_body]
pub struct ExJsonError(serde_json::Error);

/// A description of one symbolic-execution run: the guest files, the
/// program with its arguments and its environment. `files` holds each guest
/// path once, in the order of the paths.
pub struct Recipe {
    pub files: Vec<(String, FileSource)>,
    pub executable_path: String,
    pub stdin_path: String,
    pub arg0: Option<String>,
    pub arguments: Vec<ArgumentSource>,
    pub environment: Environment,
}

pub enum RecipeError {
    NotUtf8(std::str::Utf8Error),
    NotJson(serde_json::Error),
    NotSyntacticRecipe(serde_json::Error),
    NotSemanticRecipe(String),
}

pub enum FileSource {
    Host(String),
    /// Symbolic files are fixed-length, containing arbitrary bytes
    SymbolicContent { seed: String, symbolic: Vec<SymbolicRange> },
    /// Symbolic files are fixed-length, containing arbitrary bytes
    SymbolicHost { host_path: String, symbolic: Vec<SymbolicRange> },
}

pub enum ArgumentSource {
    Concrete(String),
    /// Symbolic arguments are fixed-length, containing bytes 1-255
    Symbolic { seed: String, symbolic: Vec<SymbolicRange> },
}

pub struct Environment {
    pub inherit: bool,
    pub remove: Vec<String>,
    pub add: Vec<(String, EnvVarSource)>,
}

pub enum EnvVarSource {
    Concrete(String),
    /// Symbolic env vars are fixed-length, containing bytes 1-255
    Symbolic { value: String, symbolic: Vec<SymbolicRange> },
}

impl Default for Environment {
    fn default() -> (e: Self)
        ensures
            e.inherit,
            e.remove@.len() == 0,
            e.add@.len() == 0,
    {
        Self { inherit: true, remove: Vec::new(), add: Vec::new() }
    }
}

/// Every range of a list can be turned into its bounds.
pub open spec fn ranges_ok(s: Seq<SymbolicRange>) -> bool {
    forall|i: int| 0 <= i < s.len() ==> range_ok(#[trigger] s[i])
}

pub open spec fn file_ranges_ok(f: FileSource) -> bool {
    match f {
        FileSource::Host(_) => true,
        FileSource::SymbolicContent { symbolic, .. } => ranges_ok(symbolic@),
        FileSource::SymbolicHost { symbolic, .. } => ranges_ok(symbolic@),
    }
}

pub open spec fn argument_ranges_ok(a: ArgumentSource) -> bool {
    match a {
        ArgumentSource::Concrete(_) => true,
        ArgumentSource::Symbolic { symbolic, .. } => ranges_ok(symbolic@),
    }
}

pub open spec fn env_ranges_ok(v: EnvVarSource) -> bool {
    match v {
        EnvVarSource::Concrete(_) => true,
        EnvVarSource::Symbolic { symbolic, .. } => ranges_ok(symbolic@),
    }
}

/// `new` is `old` with its symbolic ranges normalised and all else kept.
pub open spec fn file_normalized(old: FileSource, new: FileSource) -> bool {
    match (old, new) {
        (FileSource::Host(a), FileSource::Host(b)) => a@ == b@,
        (
            FileSource::SymbolicContent { seed: a, symbolic: x },
            FileSource::SymbolicContent { seed: b, symbolic: y },
        ) => a@ == b@ && is_normalization(x@, y@),
        (
            FileSource::SymbolicHost { host_path: a, symbolic: x },
            FileSource::SymbolicHost { host_path: b, symbolic: y },
        ) => a@ == b@ && is_normalization(x@, y@),
        _ => false,
    }
}

pub open spec fn argument_normalized(old: ArgumentSource, new: ArgumentSource) -> bool {
    match (old, new) {
        (ArgumentSource::Concrete(a), ArgumentSource::Concrete(b)) => a@ == b@,
        (
            ArgumentSource::Symbolic { seed: a, symbolic: x },
            ArgumentSource::Symbolic { seed: b, symbolic: y },
        ) => a@ == b@ && is_normalization(x@, y@),
        _ => false,
    }
}

pub open spec fn env_normalized(old: EnvVarSource, new: EnvVarSource) -> bool {
    match (old, new) {
        (EnvVarSource::Concrete(a), EnvVarSource::Concrete(b)) => a@ == b@,
        (
            EnvVarSource::Symbolic { value: a, symbolic: x },
            EnvVarSource::Symbolic { value: b, symbolic: y },
        ) => a@ == b@ && is_normalization(x@, y@),
        _ => false,
    }
}

impl FileSource {
    pub fn normalize(&mut self)
        requires
            file_ranges_ok(*old(self)),
        ensures
            file_normalized(*old(self), *final(self)),
    {
        match self {
            FileSource::Host(_) => {},
            FileSource::SymbolicContent { symbolic, .. } => SymbolicRange::normalize(symbolic),
            FileSource::SymbolicHost { symbolic, .. } => SymbolicRange::normalize(symbolic),
        }
    }
}

impl ArgumentSource {
    pub fn normalize(&mut self)
        requires
            argument_ranges_ok(*old(self)),
        ensures
            argument_normalized(*old(self), *final(self)),
    {
        match self {
            ArgumentSource::Concrete(_) => {},
            ArgumentSource::Symbolic { symbolic, .. } => SymbolicRange::normalize(symbolic),
        }
    }
}

impl EnvVarSource {
    pub fn normalize(&mut self)
        requires
            env_ranges_ok(*old(self)),
        ensures
            env_normalized(*old(self), *final(self)),
    {
        match self {
            EnvVarSource::Concrete(_) => {},
            EnvVarSource::Symbolic { symbolic, .. } => SymbolicRange::normalize(symbolic),
        }
    }
}

/// Every symbolic range of the recipe can be turned into its bounds.
pub open spec fn recipe_ranges_ok(r: Recipe) -> bool {
    &&& forall|i: int| 0 <= i < r.files@.len() ==> file_ranges_ok(#[trigger] r.files@[i].1)
    &&& forall|i: int| 0 <= i < r.arguments@.len() ==> argument_ranges_ok(#[trigger] r.arguments@[i])
    &&& forall|i: int|
        0 <= i < r.environment.add@.len() ==> env_ranges_ok(#[trigger] r.environment.add@[i].1)
}

/// `new` is `old` with every list of symbolic ranges normalised, and all
/// else kept.
pub open spec fn recipe_normalized(old: Recipe, new: Recipe) -> bool {
    &&& new.files@.len() == old.files@.len()
    &&& forall|i: int|
        0 <= i < old.files@.len() ==> {
            &&& (#[trigger] new.files@[i]).0@ == old.files@[i].0@
            &&& file_normalized(old.files@[i].1, new.files@[i].1)
        }
    &&& new.arguments@.len() == old.arguments@.len()
    &&& forall|i: int|
        0 <= i < old.arguments@.len() ==> argument_normalized(
            old.arguments@[i],
            #[trigger] new.arguments@[i],
        )
    &&& new.environment.add@.len() == old.environment.add@.len()
    &&& forall|i: int|
        0 <= i < old.environment.add@.len() ==> {
            &&& (#[trigger] new.environment.add@[i]).0@ == old.environment.add@[i].0@
            &&& env_normalized(old.environment.add@[i].1, new.environment.add@[i].1)
        }
    &&& new.environment.inherit == old.environment.inherit
    &&& new.environment.remove == old.environment.remove
    &&& new.executable_path == old.executable_path
    &&& new.stdin_path == old.stdin_path
    &&& new.arg0 == old.arg0
}

impl Recipe {
    /// Normalise every list of symbolic ranges, as a freshly read recipe
    /// needs.
    pub fn normalize_symbolic_ranges(&mut self)
        requires
            recipe_ranges_ok(*old(self)),
        ensures
            recipe_normalized(*old(self), *final(self)),
    {
        let mut files: Vec<(String, FileSource)> = Vec::new();
        std::mem::swap(&mut files, &mut self.files);
        let ghost old_files = files@;
        let mut done: Vec<(String, FileSource)> = Vec::new();
        while files.len() > 0
            invariant
                done@.len() + files@.len() == old_files.len(),
                forall|i: int|
                    0 <= i < files@.len() ==> #[trigger] files@[i] == old_files[done@.len() + i],
                forall|i: int| 0 <= i < old_files.len() ==> file_ranges_ok(#[trigger] old_files[i].1),
                forall|i: int|
                    0 <= i < done@.len() ==> {
                        &&& (#[trigger] done@[i]).0@ == old_files[i].0@
                        &&& file_normalized(old_files[i].1, done@[i].1)
                    },
            decreases files@.len(),
        {
            let (path, mut source) = files.remove(0);
            proof {
                assert(files@.len() + done@.len() + 1 == old_files.len());
            }
            source.normalize();
            done.push((path, source));
        }
        self.files = done;
        let mut arguments: Vec<ArgumentSource> = Vec::new();
        std::mem::swap(&mut arguments, &mut self.arguments);
        let ghost old_arguments = arguments@;
        let mut done: Vec<ArgumentSource> = Vec::new();
        while arguments.len() > 0
            invariant
                done@.len() + arguments@.len() == old_arguments.len(),
                forall|i: int|
                    0 <= i < arguments@.len() ==> #[trigger] arguments@[i] == old_arguments[done@.len()
                        + i],
                forall|i: int|
                    0 <= i < old_arguments.len() ==> argument_ranges_ok(#[trigger] old_arguments[i]),
                forall|i: int|
                    0 <= i < done@.len() ==> argument_normalized(old_arguments[i], #[trigger] done@[i]),
            decreases arguments@.len(),
        {
            let mut argument = arguments.remove(0);
            argument.normalize();
            done.push(argument);
        }
        self.arguments = done;
        let mut add: Vec<(String, EnvVarSource)> = Vec::new();
        std::mem::swap(&mut add, &mut self.environment.add);
        let ghost old_add = add@;
        let mut done: Vec<(String, EnvVarSource)> = Vec::new();
        while add.len() > 0
            invariant
                done@.len() + add@.len() == old_add.len(),
                forall|i: int| 0 <= i < add@.len() ==> #[trigger] add@[i] == old_add[done@.len() + i],
                forall|i: int| 0 <= i < old_add.len() ==> env_ranges_ok(#[trigger] old_add[i].1),
                forall|i: int|
                    0 <= i < done@.len() ==> {
                        &&& (#[trigger] done@[i]).0@ == old_add[i].0@
                        &&& env_normalized(old_add[i].1, done@[i].1)
                    },
            decreases add@.len(),
        {
            let (name, mut value) = add.remove(0);
            value.normalize();
            done.push((name, value));
        }
        self.environment.add = done;
    }
}

/// Whether the text is a JSON document of any shape, as `serde_json`
/// reads it.
pub uninterp spec fn is_json(text: Seq<char>) -> bool;

/// `serde_json::from_str::<serde_json::Value>`: parses `text` as JSON of
/// any shape, handing back the error where it is not JSON.
#[verifier::external_body]
fn json_error(text: &str) -> (r: Option<serde_json::Error>)
    ensures
        r is None <==> is_json(text@),
{
    serde_json::from_str::<serde_json::Value>(text).err()
}

/// The characters that the bytes encode, where they are UTF-8.
pub uninterp spec fn utf8_decoding(bytes: Seq<u8>) -> Option<Seq<char>>;

/// `std::str::from_utf8`: the text the bytes encode, or the error where
/// they are not UTF-8.
#[verifier::external_body]
fn from_utf8(bytes: &[u8]) -> (r: Result<&str, std::str::Utf8Error>)
    ensures
        match r {
            Ok(s) => utf8_decoding(bytes@) == Some(s@),
            Err(_) => utf8_decoding(bytes@) is None,
        },
{
    std::str::from_utf8(bytes)
}

impl SymbolicRange {
    /// Whether `range` is defined on this range.
    pub fn range_ok(&self) -> (b: bool)
        ensures
            b == range_ok(*self),
    {
        match self {
            Self::Index(a) => *a < u64::MAX,
            _ => true,
        }
    }
}

fn all_ranges_ok(v: &Vec<SymbolicRange>) -> (b: bool)
    ensures
        b == ranges_ok(v@),
{
    let mut i: usize = 0;
    while i < v.len()
        invariant
            0 <= i <= v@.len(),
            forall|j: int| 0 <= j < i ==> range_ok(#[trigger] v@[j]),
        decreases v@.len() - i,
    {
        if !v[i].range_ok() {
            return false;
        }
        i = i + 1;
    }
    true
}

impl Recipe {
    /// The text of a recipe file, which must be UTF-8.
    pub fn text_of(bytes: &[u8]) -> (r: Result<&str, RecipeError>)
        ensures
            match r {
                Ok(s) => utf8_decoding(bytes@) == Some(s@),
                Err(e) => e is NotUtf8 && utf8_decoding(bytes@) is None,
            },
    {
        match from_utf8(bytes) {
            Ok(s) => Ok(s),
            Err(e) => Err(RecipeError::NotUtf8(e)),
        }
    }

    /// Whether every symbolic range of the recipe can be turned into its
    /// bounds.
    pub fn ranges_ok(&self) -> (b: bool)
        ensures
            b == recipe_ranges_ok(*self),
    {
        let mut i: usize = 0;
        while i < self.files.len()
            invariant
                0 <= i <= self.files@.len(),
                forall|j: int| 0 <= j < i ==> file_ranges_ok(#[trigger] self.files@[j].1),
            decreases self.files@.len() - i,
        {
            let ok = match &self.files[i].1 {
                FileSource::Host(_) => true,
                FileSource::SymbolicContent { symbolic, .. } => all_ranges_ok(symbolic),
                FileSource::SymbolicHost { symbolic, .. } => all_ranges_ok(symbolic),
            };
            if !ok {
                return false;
            }
            i = i + 1;
        }
        let mut i: usize = 0;
        while i < self.arguments.len()
            invariant
                0 <= i <= self.arguments@.len(),
                forall|j: int| 0 <= j < self.files@.len() ==> file_ranges_ok(#[trigger] self.files@[j].1),
                forall|j: int| 0 <= j < i ==> argument_ranges_ok(#[trigger] self.arguments@[j]),
            decreases self.arguments@.len() - i,
        {
            let ok = match &self.arguments[i] {
                ArgumentSource::Concrete(_) => true,
                ArgumentSource::Symbolic { symbolic, .. } => all_ranges_ok(symbolic),
            };
            if !ok {
                return false;
            }
            i = i + 1;
        }
        let mut i: usize = 0;
        while i < self.environment.add.len()
            invariant
                0 <= i <= self.environment.add@.len(),
                forall|j: int| 0 <= j < self.files@.len() ==> file_ranges_ok(#[trigger] self.files@[j].1),
                forall|j: int| 0 <= j < self.arguments@.len() ==> argument_ranges_ok(#[trigger] self.arguments@[j]),
                forall|j: int| 0 <= j < i ==> env_ranges_ok(#[trigger] self.environment.add@[j].1),
            decreases self.environment.add@.len() - i,
        {
            let ok = match &self.environment.add[i].1 {
                EnvVarSource::Concrete(_) => true,
                EnvVarSource::Symbolic { symbolic, .. } => all_ranges_ok(symbolic),
            };
            if !ok {
                return false;
            }
            i = i + 1;
        }
        true
    }

    /// Finishes reading a recipe from its text, given what parsing the text
    /// as a recipe gave: a recipe has its symbolic ranges normalised; a
    /// failed parse is told apart into text that is no JSON and JSON that
    /// is no recipe.
    pub fn from_parsed(text: &str, parsed: Result<Recipe, serde_json::Error>) -> (r: Result<Recipe, RecipeError>)
        requires
            parsed matches Ok(p) ==> recipe_ranges_ok(p),
        ensures
            match parsed {
                Ok(p) => r matches Ok(q) && recipe_normalized(p, q),
                Err(_) => if is_json(text@) {
                    r matches Err(e) && e is NotSyntacticRecipe
                } else {
                    r matches Err(e) && e is NotJson
                },
            },
    {
        match parsed {
            Ok(mut recipe) => {
                recipe.normalize_symbolic_ranges();
                Ok(recipe)
            },
            Err(recipe_err) => match json_error(text) {
                None => Err(RecipeError::NotSyntacticRecipe(recipe_err)),
                Some(json_err) => Err(RecipeError::NotJson(json_err)),
            },
        }
    }
}

} // verus!
