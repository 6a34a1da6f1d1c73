use vstd::arithmetic::power2::{lemma_pow2_pos, lemma_pow2_strictly_increases, pow2};
use vstd::prelude::*;

verus! {

/// `r` is the smallest power of two that is at least `c`.
pub open spec fn is_next_power_of_two(c: nat, r: nat) -> bool {
    &&& exists|n: nat| pow2(n) == r
    &&& c <= r
    &&& (r == 1 || r / 2 < c)
}

/// `usize::next_power_of_two`: the smallest power of two greater than or
/// equal to `n`. Its documentation states that result; the overflow case,
/// where it panics in debug builds, is excluded by `requires`.
#[verifier::external_body]
fn next_power_of_two(n: usize) -> (r: usize)
    requires
        n <= usize::MAX / 2 + 1,
    ensures
        is_next_power_of_two(n as nat, r as nat),
{
    n.next_power_of_two()
}

/// `IndexMut<Range<usize>>` on a `Vec<u8>`: the mutable sub-slice
/// `v[lo..hi]`. What is written through it lands in those positions of `v`,
/// and a slice keeps its length.
#[verifier::external_body]
fn vec_range_mut(v: &mut Vec<u8>, lo: usize, hi: usize) -> (r: &mut [u8])
    requires
        lo <= hi <= old(v)@.len(),
    ensures
        r@ == old(v)@.subrange(lo as int, hi as int),
        final(r)@.len() == hi - lo,
        final(v)@.len() == old(v)@.len(),
        forall|p: int|
            0 <= p < lo || hi <= p < old(v)@.len() ==> #[trigger] final(v)@[p] == old(v)@[p],
        forall|p: int| lo <= p < hi ==> #[trigger] final(v)@[p] == final(r)@[p - lo],
{
    &mut v[lo..hi]
}

/// `(x + i) % m` for an offset below `m`, from `x % m`.
proof fn lemma_mod_offset(x: int, i: int, m: int)
    requires
        m > 0,
        x >= 0,
        0 <= i < m,
    ensures
        (x + i) % m == if x % m + i < m {
            x % m + i
        } else {
            x % m + i - m
        },
{
    vstd::arithmetic::div_mod::lemma_fundamental_div_mod(x, m);
    let q = x / m;
    let r = x % m;
    assert(x + i == q * m + (r + i)) by (nonlinear_arith)
        requires
            x == m * q + r,
    ;
    assert(x + i == (q + 1) * m + (r + i - m)) by (nonlinear_arith)
        requires
            x + i == q * m + (r + i),
    ;
    if r + i < m {
        vstd::arithmetic::div_mod::lemma_fundamental_div_mod_converse(x + i, m, q, r + i);
    } else {
        vstd::arithmetic::div_mod::lemma_fundamental_div_mod_converse(x + i, m, q + 1, r + i - m);
    }
}

/// Position in a ring of `cap` slots that lies `i` after `start`.
pub open spec fn slot_at(start: int, cap: int, i: int) -> int {
    (start + i) % cap
}

/// Dynamically growing, non-atomic circular buffer.
pub struct ByteQueue {
    buf: Vec<u8>,
    mask: usize,
    start: usize,
    end: usize,
    /// The capacity is `2^log_capacity`.
    log_capacity: Ghost<nat>,
}

impl ByteQueue {
    /// Internal consistency: a power-of-two buffer, a mask one below it, and
    /// at most a buffer's worth of bytes between `start` and `end`.
    pub closed spec fn wf(&self) -> bool {
        &&& self.buf@.len() == pow2(self.log_capacity@)
        &&& self.buf@.len() <= usize::MAX
        &&& self.log_capacity@ < usize::BITS
        &&& self.mask == self.buf@.len() - 1
        &&& self.start <= self.end
        &&& self.end - self.start <= self.buf@.len()
    }

    /// Number of bytes the buffer holds, queued or free.
    pub closed spec fn capacity(&self) -> nat {
        self.buf@.len()
    }

    /// The queued bytes, oldest first.
    pub closed spec fn contents(&self) -> Seq<u8> {
        Seq::new(
            (self.end - self.start) as nat,
            |i: int| self.buf@[slot_at(self.start as int, self.buf@.len() as int, i)],
        )
    }

    /// Buffer position of the `i`-th queued byte.
    spec fn slot(&self, i: int) -> int {
        slot_at(self.start as int, self.buf@.len() as int, i)
    }

    /// The running count of bytes committed since the last reset.
    pub closed spec fn end_counter(&self) -> nat {
        self.end as nat
    }

    /// The `n` bytes of the buffer that follow the queued ones, which a
    /// commit of `n` bytes appends.
    pub closed spec fn pending(&self, n: nat) -> Seq<u8> {
        Seq::new(n, |i: int| self.buf@[slot_at(self.end as int, self.buf@.len() as int, i)])
    }

    /// Length of the contiguous free space that follows the queued bytes.
    pub closed spec fn free_contiguous(&self) -> nat {
        let cap = self.buf@.len() as int;
        let s = (self.start as int) % cap;
        let e = (self.end as int) % cap;
        if self.end - self.start == cap {
            0
        } else if s > e {
            (s - e) as nat
        } else {
            (cap - e) as nat
        }
    }

    /// Length of the first of the two slices that a consumption of `n`
    /// bytes hands out; the second holds the rest.
    pub closed spec fn first_piece_len(&self, n: nat) -> nat {
        let cap = self.buf@.len() as int;
        let s = (self.start as int) % cap;
        if n == 0 {
            0
        } else if s + n <= cap {
            n
        } else {
            (cap - s) as nat
        }
    }

    /// Mark `written` bytes after the queued ones as queued, after a caller
    /// wrote them into the slice from `slice_to_write`.
    pub fn commit_written(&mut self, written: usize)
        requires
            old(self).wf(),
            old(self).end_counter() + written <= usize::MAX,
            old(self).contents().len() + written <= old(self).capacity(),
        ensures
            final(self).wf(),
            final(self).contents() == old(self).contents() + old(self).pending(written as nat),
            final(self).capacity() == old(self).capacity(),
            final(self).end_counter() == old(self).end_counter() + written,
    {
        self.end = self.end + written;
        assert(self.contents() =~= old(self).contents() + old(self).pending(written as nat)) by {
            assert forall|j: int| 0 <= j < self.contents().len() implies #[trigger] self.contents()[j]
                == (old(self).contents() + old(self).pending(written as nat))[j] by {
                let len = old(self).contents().len() as int;
                if j >= len {
                    assert(slot_at(self.start as int, self.buf@.len() as int, j) == slot_at(
                        old(self).end as int,
                        self.buf@.len() as int,
                        j - len,
                    ));
                }
            }
        }
    }

    /// Hand out the queued bytes except the last `skip_at_end`, as two
    /// slices whose concatenation is them in order, and drop them from the
    /// queue. A consumption that leaves nothing behind resets the counters.
    pub fn consume_slices_skipping_end_bytes(&mut self, skip_at_end: usize) -> (r: (&[u8], &[u8]))
        requires
            old(self).wf(),
            old(self).end_counter() > skip_at_end,
        ensures
            final(self).wf(),
            ({
                let len = old(self).contents().len();
                let n: nat = if len > skip_at_end {
                    (len - skip_at_end) as nat
                } else {
                    0
                };
                &&& r.0@ + r.1@ == old(self).contents().subrange(0, n as int)
                &&& r.0@.len() == old(self).first_piece_len(n)
                &&& final(self).contents() == old(self).contents().subrange(n as int, len as int)
                &&& final(self).end_counter() == if n > 0 && skip_at_end == 0 {
                    0
                } else {
                    old(self).end_counter()
                }
            }),
            final(self).capacity() == old(self).capacity(),
    {
        if self.start >= self.end - skip_at_end {
            let e: &[u8] = &[];
            assert(old(self).contents().subrange(0, 0) =~= Seq::<u8>::empty());
            assert(old(self).contents().subrange(0, old(self).contents().len() as int)
                =~= old(self).contents());
            return (e, e);
        }
        let ghost old_self = *self;
        proof {
            self.lemma_index(self.start);
            self.lemma_index((self.end - skip_at_end) as usize);
        }
        let start_idx = self.start & self.mask;
        let end_idx = (self.end - skip_at_end) & self.mask;
        if skip_at_end == 0 {
            self.start = 0;
            self.end = 0;
        } else {
            self.start = self.end - skip_at_end;
        }
        proof {
            old_self.lemma_consumed(skip_at_end as int);
        }
        let all = self.buf.as_slice();
        if start_idx < end_idx {
            let e: &[u8] = &[];
            let first = vstd::slice::slice_subrange(all, start_idx, end_idx);
            assert(first@ + e@ =~= first@);
            (first, e)
        } else {
            let first = vstd::slice::slice_subrange(all, start_idx, all.len());
            let second = vstd::slice::slice_subrange(all, 0, end_idx);
            (first, second)
        }
    }

    /// What a consumption of all but the last `skip` queued bytes hands out
    /// and leaves behind, in buffer positions.
    proof fn lemma_consumed(&self, skip: int)
        requires
            self.wf(),
            0 <= skip < self.end - self.start,
        ensures
            ({
                let cap = self.buf@.len() as int;
                let n = self.end - self.start - skip;
                let s = (self.start as int) % cap;
                let e = (self.end - skip) % cap;
                &&& s < e ==> self.buf@.subrange(s, e) =~= self.contents().subrange(0, n)
                &&& s < e ==> self.first_piece_len(n as nat) == n
                &&& s >= e ==> self.buf@.subrange(s, cap) + self.buf@.subrange(0, e)
                    =~= self.contents().subrange(0, n)
                &&& s >= e ==> self.first_piece_len(n as nat) == cap - s
                &&& forall|j: int|
                    0 <= j < skip ==> #[trigger] slot_at(self.end - skip, cap, j) == slot_at(
                        self.start as int,
                        cap,
                        n + j,
                    )
            }),
    {
        let cap = self.buf@.len() as int;
        lemma_pow2_pos(self.log_capacity@);
        let n = self.end - self.start - skip;
        let s = (self.start as int) % cap;
        if n < cap {
            lemma_mod_offset(self.start as int, n, cap);
        } else {
            vstd::arithmetic::div_mod::lemma_mod_add_multiples_vanish(self.start as int, cap);
        }
        assert forall|j: int| 0 <= j < n implies #[trigger] self.contents()[j] == self.buf@[if s + j
            < cap {
            s + j
        } else {
            s + j - cap
        }] by {
            lemma_mod_offset(self.start as int, j, cap);
        }
    }

    /// The contiguous free region after the queued bytes of a queue that is
    /// not full: it holds none of the queued positions, and it starts where
    /// the next committed byte goes.
    proof fn lemma_region(&self, lo: int, hi: int)
        requires
            self.wf(),
            self.end - self.start < self.buf@.len(),
            lo == (self.end as int) % (self.buf@.len() as int),
            hi == if (self.start as int) % (self.buf@.len() as int) > lo {
                (self.start as int) % (self.buf@.len() as int)
            } else {
                self.buf@.len() as int
            },
        ensures
            0 <= lo < hi <= self.buf@.len(),
            hi - lo == self.free_contiguous(),
            (self.end - self.start) + (hi - lo) <= self.buf@.len(),
            forall|i: int|
                0 <= i < self.end - self.start ==> #[trigger] self.slot(i) < lo || self.slot(i)
                    >= hi,
            forall|i: int|
                0 <= i < hi - lo ==> #[trigger] slot_at(self.end as int, self.buf@.len() as int, i)
                    == lo + i,
    {
        let cap = self.buf@.len() as int;
        lemma_pow2_pos(self.log_capacity@);
        let len = self.end - self.start;
        lemma_mod_offset(self.start as int, len, cap);
        assert forall|i: int| 0 <= i < self.end - self.start implies #[trigger] self.slot(i) < lo
            || self.slot(i) >= hi by {
            lemma_mod_offset(self.start as int, i, cap);
        }
        assert forall|i: int| 0 <= i < hi - lo implies #[trigger] slot_at(
            self.end as int,
            self.buf@.len() as int,
            i,
        ) == lo + i by {
            lemma_mod_offset(self.end as int, i, cap);
        }
    }

    proof fn lemma_index(&self, x: usize)
        requires
            self.wf(),
        ensures
            x & self.mask == x % (self.buf@.len() as usize),
            (x & self.mask) < self.buf@.len(),
    {
        vstd::bits::lemma_usize_low_bits_mask_is_mod(x, self.log_capacity@);
        lemma_pow2_pos(self.log_capacity@);
    }

    pub fn with_capacity(capacity: usize) -> (q: Self)
        requires
            capacity <= usize::MAX / 2 + 1,
        ensures
            q.wf(),
            q.contents() == Seq::<u8>::empty(),
            is_next_power_of_two(capacity as nat, q.capacity()),
            q.end_counter() == 0,
    {
        let capacity = next_power_of_two(capacity);
        let ghost n = choose|n: nat| pow2(n) == capacity;
        proof {
            lemma_pow2_pos(n);
            vstd::layout::unsigned_int_max_values();
            if n >= usize::BITS {
                if n > usize::BITS {
                    lemma_pow2_strictly_increases(usize::BITS as nat, n);
                }
            }
        }
        let q = Self {
            buf: vec![0u8; capacity],
            mask: capacity - 1,
            start: 0,
            end: 0,
            log_capacity: Ghost(n),
        };
        assert(q.contents() =~= Seq::<u8>::empty());
        q
    }

    /// The free space after the queued bytes, as one contiguous slice. A full
    /// queue first doubles its buffer.
    pub fn slice_to_write(&mut self) -> (r: &mut [u8])
        requires
            old(self).wf(),
            old(self).contents().len() == old(self).capacity() ==> old(self).capacity() * 2
                <= usize::MAX,
        ensures
            final(self).wf(),
            final(self).contents() == old(self).contents(),
            final(self).capacity() == if old(self).contents().len() == old(self).capacity() {
                2 * old(self).capacity()
            } else {
                old(self).capacity()
            },
            final(self).end_counter() == if old(self).contents().len() == old(self).capacity() {
                old(self).capacity()
            } else {
                old(self).end_counter()
            },
            r@.len() == if old(self).contents().len() == old(self).capacity() {
                old(self).capacity()
            } else {
                old(self).free_contiguous()
            },
            r@.len() > 0,
            r@ == if old(self).contents().len() == old(self).capacity() {
                Seq::new(old(self).capacity(), |i: int| 0u8)
            } else {
                old(self).pending(r@.len())
            },
            final(r)@.len() == r@.len(),
            final(self).contents().len() + r@.len() <= final(self).capacity(),
            final(self).pending(r@.len()) == final(r)@,
    {
        proof {
            lemma_pow2_pos(self.log_capacity@);
        }
        let capacity = self.mask + 1;
        if self.end - self.start == capacity {
            let new_capacity = capacity * 2;
            let mid = self.start & self.mask;
            proof {
                self.lemma_index(self.start);
            }
            let mut new_buf: Vec<u8> = Vec::with_capacity(new_capacity);
            let mut i = mid;
            while i < capacity
                invariant
                    self.wf(),
                    capacity == self.buf@.len(),
                    mid <= i <= capacity,
                    mid == (self.start as int) % (capacity as int),
                    new_buf@.len() == i - mid,
                    forall|j: int|
                        0 <= j < new_buf@.len() ==> #[trigger] new_buf@[j] == self.buf@[mid + j],
                decreases capacity - i,
            {
                new_buf.push(self.buf[i]);
                i = i + 1;
            }
            let mut i: usize = 0;
            while i < mid
                invariant
                    self.wf(),
                    capacity == self.buf@.len(),
                    0 <= i <= mid < capacity,
                    new_buf@.len() == capacity - mid + i,
                    forall|j: int|
                        0 <= j < capacity - mid ==> #[trigger] new_buf@[j] == self.buf@[mid + j],
                    forall|j: int|
                        capacity - mid <= j < new_buf@.len() ==> #[trigger] new_buf@[j]
                            == self.buf@[j - (capacity - mid)],
                decreases mid - i,
            {
                new_buf.push(self.buf[i]);
                i = i + 1;
            }
            let mut i: usize = 0;
            while i < capacity
                invariant
                    capacity * 2 == new_capacity,
                    0 <= i <= capacity,
                    new_buf@.len() == capacity + i,
                    forall|j: int| capacity <= j < new_buf@.len() ==> #[trigger] new_buf@[j] == 0u8,
                    forall|j: int|
                        0 <= j < capacity - mid ==> #[trigger] new_buf@[j] == self.buf@[mid + j],
                    forall|j: int|
                        capacity - mid <= j < capacity ==> #[trigger] new_buf@[j]
                            == self.buf@[j - (capacity - mid)],
                    mid < capacity,
                decreases capacity - i,
            {
                new_buf.push(0u8);
                i = i + 1;
            }
            let ghost old_self = *self;
            proof {
                vstd::arithmetic::power2::lemma_pow2_unfold(self.log_capacity@ + 1);
                vstd::layout::unsigned_int_max_values();
                if self.log_capacity@ + 1 >= usize::BITS {
                    if self.log_capacity@ + 1 > usize::BITS {
                        lemma_pow2_strictly_increases(
                            usize::BITS as nat,
                            (self.log_capacity@ + 1) as nat,
                        );
                    }
                }
                assert forall|j: int| 0 <= j < capacity implies #[trigger] new_buf@[j]
                    == old_self.buf@[(old_self.start + j) % (capacity as int)] by {
                    lemma_mod_offset(old_self.start as int, j, capacity as int);
                }
            }
            *self = Self {
                buf: new_buf,
                start: 0,
                end: capacity,
                mask: new_capacity - 1,
                log_capacity: Ghost(self.log_capacity@ + 1),
            };
            proof {
                assert(self.contents() =~= old_self.contents()) by {
                    assert forall|j: int| 0 <= j < capacity implies #[trigger] self.contents()[j]
                        == old_self.contents()[j] by {
                        vstd::arithmetic::div_mod::lemma_small_mod(j as nat, new_capacity as nat);
                    }
                }
            }
            let r = vec_range_mut(&mut self.buf, capacity, new_capacity);
            proof {
                assert(r@ =~= Seq::new(old_self.buf@.len(), |i: int| 0u8));
                assert forall|j: int| 0 <= j < capacity implies #[trigger] slot_at(
                    0,
                    new_capacity as int,
                    j,
                ) == j by {
                    vstd::arithmetic::div_mod::lemma_small_mod(j as nat, new_capacity as nat);
                }
                assert forall|j: int| 0 <= j < capacity implies #[trigger] slot_at(
                    capacity as int,
                    new_capacity as int,
                    j,
                ) == capacity + j by {
                    vstd::arithmetic::div_mod::lemma_small_mod(
                        (capacity + j) as nat,
                        new_capacity as nat,
                    );
                }
            }
            return r;
        }
        let start_idx = self.start & self.mask;
        let end_idx = self.end & self.mask;
        proof {
            self.lemma_index(self.start);
            self.lemma_index(self.end);
        }
        let hi = if start_idx > end_idx {
            start_idx
        } else {
            capacity
        };
        let ghost old_self = *self;
        proof {
            self.lemma_region(end_idx as int, hi as int);
        }
        let r = vec_range_mut(&mut self.buf, end_idx, hi);
        proof {
            assert(r@ =~= old_self.pending(r@.len()));
            assert forall|j: int| 0 <= j < old_self.contents().len() implies #[trigger] slot_at(
                old_self.start as int,
                capacity as int,
                j,
            ) < end_idx || slot_at(old_self.start as int, capacity as int, j) >= hi by {
                assert(old_self.slot(j) == slot_at(old_self.start as int, capacity as int, j));
            }
            assert forall|j: int| 0 <= j < hi - end_idx implies #[trigger] slot_at(
                old_self.end as int,
                capacity as int,
                j,
            ) == end_idx + j by {}
        }
        r
    }
}

/// First in, first out: the bytes written into the slice that
/// `slice_to_write` hands out and then committed with `commit_written`
/// follow the bytes already queued, in the order they were written.
pub proof fn law_write_commit_appends(q0: ByteQueue, q1: ByteQueue, q2: ByteQueue, written: Seq<u8>, k: nat)
    requires
        q1.contents() == q0.contents(),
        q1.pending(written.len()) == written,
        k <= written.len(),
        q2.contents() == q1.contents() + q1.pending(k),
    ensures
        q2.contents() == q0.contents() + written.subrange(0, k as int),
{
    assert(q1.pending(k) =~= written.subrange(0, k as int)) by {
        assert forall|i: int| 0 <= i < k implies q1.pending(k)[i] == written[i] by {
            assert(q1.pending(written.len())[i] == written[i]);
        }
    }
}

/// Consuming hands out the oldest queued bytes and keeps the rest: what
/// comes out, followed by what stays, is what was queued.
pub proof fn law_consume_splits_contents(q0: ByteQueue, q1: ByteQueue, out: Seq<u8>, n: nat)
    requires
        n <= q0.contents().len(),
        out == q0.contents().subrange(0, n as int),
        q1.contents() == q0.contents().subrange(n as int, q0.contents().len() as int),
    ensures
        out + q1.contents() == q0.contents(),
{
    assert(out + q1.contents() =~= q0.contents());
}

/// The byte strings of `chunks`, one after the other.
pub open spec fn joined(chunks: Seq<Seq<u8>>) -> Seq<u8>
    decreases chunks.len(),
{
    if chunks.len() == 0 {
        Seq::empty()
    } else {
        joined(chunks.drop_last()) + chunks.last()
    }
}

/// After the first `i` of a run of commits, the queue holds the first `i`
/// chunks, one after the other.
proof fn lemma_commits_join(qs: Seq<ByteQueue>, chunks: Seq<Seq<u8>>, i: int)
    requires
        qs.len() == chunks.len() + 1,
        qs[0].contents() == Seq::<u8>::empty(),
        forall|j: int| 0 <= j < chunks.len() ==> #[trigger] qs[j + 1].contents() == qs[j].contents() + chunks[j],
        0 <= i <= chunks.len(),
    ensures
        qs[i].contents() == joined(chunks.take(i)),
    decreases i,
{
    if i > 0 {
        lemma_commits_join(qs, chunks, i - 1);
        assert(chunks.take(i).drop_last() =~= chunks.take(i - 1));
        assert(chunks.take(i).last() == chunks[i - 1]);
        assert(qs[(i - 1) + 1].contents() == qs[i - 1].contents() + chunks[i - 1]);
    } else {
        assert(chunks.take(0) =~= Seq::<Seq<u8>>::empty());
    }
}

/// Bytes committed to an empty queue in any chunking, however often the
/// buffer grew or wrapped meanwhile, come out of one consumption of
/// everything whole and in order, and the queue is empty afterwards.
pub proof fn law_chunks_consumed_whole(
    qs: Seq<ByteQueue>,
    chunks: Seq<Seq<u8>>,
    first: Seq<u8>,
    second: Seq<u8>,
    after: ByteQueue,
)
    requires
        qs.len() == chunks.len() + 1,
        qs[0].contents() == Seq::<u8>::empty(),
        forall|j: int| 0 <= j < chunks.len() ==> #[trigger] qs[j + 1].contents() == qs[j].contents() + chunks[j],
        first + second == qs.last().contents(),
        after.contents() == qs.last().contents().subrange(
            qs.last().contents().len() as int,
            qs.last().contents().len() as int,
        ),
    ensures
        first + second == joined(chunks),
        after.contents() == Seq::<u8>::empty(),
{
    lemma_commits_join(qs, chunks, chunks.len() as int);
    assert(chunks.take(chunks.len() as int) =~= chunks);
    assert(after.contents() =~= Seq::<u8>::empty());
}

} // verus!
