use vstd::prelude::*;

verus! {

/// A reader adapter that stops after the first occurrence of the byte `end`.
pub struct ReadUntil<R> {
    inner: R,
    end: u8,
    eof: bool,
}

/// Index just past the first `end` byte of `src`, if there is one.
pub open spec fn first_end(src: Seq<u8>, end: u8) -> Option<int> {
    if exists|i: int| 0 <= i < src.len() && src[i] == end {
        let i = choose|i: int|
            0 <= i < src.len() && src[i] == end && forall|j: int| 0 <= j < i ==> src[j] != end;
        Some(i + 1)
    } else {
        None
    }
}

proof fn lemma_first_end(src: Seq<u8>, end: u8, i: int)
    requires
        0 <= i < src.len(),
        src[i] == end,
        forall|j: int| 0 <= j < i ==> src[j] != end,
    ensures
        first_end(src, end) == Some(i + 1),
{
    let k = choose|k: int|
        0 <= k < src.len() && src[k] == end && forall|j: int| 0 <= j < k ==> src[j] != end;
    assert(k == i) by {
        if k < i {
            assert(src[k] != end);
        } else if k > i {
            assert(src[i] != end);
        }
    }
}

impl<R> ReadUntil<R> {
    pub fn new(inner: R, end: u8) -> (r: Self)
        ensures
            r.end_byte() == end,
            !r.at_end(),
            r.inner() == inner,
    {
        ReadUntil { inner, end, eof: false }
    }

    pub closed spec fn end_byte(&self) -> u8 {
        self.end
    }

    /// The end byte has been handed on.
    pub closed spec fn at_end(&self) -> bool {
        self.eof
    }

    pub closed spec fn inner(&self) -> R {
        self.inner
    }

    /// Whether the end byte has been handed on, so that no read is left
    /// to make.
    pub fn is_done(&self) -> (b: bool)
        ensures
            b == self.at_end(),
    {
        self.eof
    }

    /// The wrapped reader.
    pub fn inner_mut(&mut self) -> (r: &mut R)
        ensures
            *r == old(self).inner(),
            final(self).inner() == *final(r),
            final(self).at_end() == old(self).at_end(),
            final(self).end_byte() == old(self).end_byte(),
    {
        &mut self.inner
    }

    /// How many of the bytes `src` that the inner reader has buffered to
    /// hand on to a buffer of `buf_len` bytes: up to and including the first
    /// end byte, and nothing once that byte has been handed on.
    pub fn take_len(&mut self, src: &[u8], buf_len: usize) -> (len: usize)
        ensures
            final(self).end_byte() == old(self).end_byte(),
            final(self).inner() == old(self).inner(),
            len == if old(self).at_end() {
                0
            } else {
                let limit = match first_end(src@, old(self).end_byte()) {
                    Some(l) => l,
                    None => src@.len() as int,
                };
                if limit <= buf_len {
                    limit
                } else {
                    buf_len as int
                }
            },
            final(self).at_end() == (old(self).at_end() || first_end(src@, old(self).end_byte())
                == Some(len as int)),
    {
        if self.eof {
            return 0;
        }
        let mut i: usize = 0;
        let mut limit: Option<usize> = None;
        while i < src.len()
            invariant_except_break
                0 <= i <= src@.len(),
                limit is None,
                forall|j: int| 0 <= j < i ==> src@[j] != self.end,
            ensures
                limit is None ==> forall|j: int| 0 <= j < src@.len() ==> src@[j] != self.end,
                limit is Some ==> first_end(src@, self.end) == Some(limit->0 as int),
                limit is Some ==> limit->0 <= src@.len(),
            decreases src@.len() - i,
        {
            if src[i] == self.end {
                proof {
                    lemma_first_end(src@, self.end, i as int);
                }
                limit = Some(i + 1);
                break;
            }
            i = i + 1;
        }
        let full = match limit {
            Some(l) => l,
            None => src.len(),
        };
        let len = if full <= buf_len {
            full
        } else {
            buf_len
        };
        if limit == Some(len) {
            self.eof = true;
        }
        len
    }
}

/// Readers that can be cut off at an end byte.
pub trait ReadExt: Sized {
    /// This reader, cut off after the first `end` byte: the adapter borrows
    /// it, and what is done to the reader through the adapter is done to
    /// it.
    fn take_until(&mut self, end: u8) -> (r: ReadUntil<&mut Self>)
        ensures
            r.end_byte() == end,
            !r.at_end(),
            *r.inner() == *old(self),
            *final(self) == *final(r.inner()),
    ;
}

impl<R> ReadExt for R {
    fn take_until(&mut self, end: u8) -> (r: ReadUntil<&mut Self>) {
        ReadUntil { inner: self, end, eof: false }
    }
}

} // verus!
