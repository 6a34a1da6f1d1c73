use arrayvec::ArrayVec;
use vstd::prelude::*;
use vstd::string::*;

verus! {

/// The levels a `LodText` holds, finest first: each text with the width
/// and height it takes.
pub uninterp spec fn lod_items(v: ArrayVec<(String, u32, u32), 3>) -> Seq<(String, u32, u32)>;

/// `ArrayVec::new`: no levels.
#[verifier::external_body]
fn lod_new() -> (v: ArrayVec<(String, u32, u32), 3>)
    ensures
        lod_items(v) == Seq::<(String, u32, u32)>::empty(),
{
    ArrayVec::new()
}

/// `ArrayVec::len`: the number of levels, never above the capacity.
#[verifier::external_body]
fn lod_len(v: &ArrayVec<(String, u32, u32), 3>) -> (n: usize)
    ensures
        n == lod_items(*v).len(),
        n <= 3,
{
    v.len()
}

/// `Index` on an `ArrayVec`: the level at `i`.
#[verifier::external_body]
fn lod_get(v: &ArrayVec<(String, u32, u32), 3>, i: usize) -> (x: &(String, u32, u32))
    requires
        i < lod_items(*v).len(),
    ensures
        *x == lod_items(*v)[i as int],
{
    &v[i]
}

/// `ArrayVec::push`: appends a level; it panics on a full vector, which
/// `requires` excludes.
#[verifier::external_body]
fn lod_push(v: &mut ArrayVec<(String, u32, u32), 3>, x: (String, u32, u32))
    requires
        lod_items(*old(v)).len() < 3,
    ensures
        lod_items(*final(v)) == lod_items(*old(v)).push(x),
{
    v.push(x)
}

/// The widest a line may be drawn; longer lines wrap.
pub const MAX_WIDTH: usize = 80;

/// The first `'\n'` of `b` at or after `i`, or the end of `b`.
pub open spec fn next_newline(b: Seq<u8>, i: int) -> int
    decreases b.len() - i,
{
    if i >= b.len() {
        b.len() as int
    } else if b[i] == 10u8 {
        i
    } else {
        next_newline(b, i + 1)
    }
}

pub proof fn lemma_next_newline_at_least(b: Seq<u8>, i: int)
    ensures
        next_newline(b, i) >= i || i > b.len(),
        next_newline(b, i) <= b.len() || i > b.len(),
    decreases b.len() - i,
{
    if i < b.len() && b[i] != 10u8 {
        lemma_next_newline_at_least(b, i + 1);
    }
}

/// The line of `b` from `i` to its end `j`: without a `'\r'` just before a
/// `'\n'` that ends it.
pub open spec fn line_text(b: Seq<u8>, i: int, j: int) -> Seq<u8> {
    let raw = b.subrange(i, j);
    if j < b.len() && raw.len() > 0 && raw.last() == 13u8 {
        raw.drop_last()
    } else {
        raw
    }
}

/// The lines of `b` from offset `i` on, as `str::lines` gives them: split
/// at each `'\n'`, with a `"\r\n"` end taken off whole, and no empty line
/// after a final `'\n'`.
pub open spec fn lines_from(b: Seq<u8>, i: int) -> Seq<Seq<u8>>
    decreases b.len() + 1 - i,
{
    if i < 0 || i >= b.len() {
        Seq::empty()
    } else {
        let j = next_newline(b, i);
        proof {
            lemma_next_newline_at_least(b, i);
        }
        seq![line_text(b, i, j)] + lines_from(b, j + 1)
    }
}

/// The width and height a line takes: its length and one row, or the
/// full width and as many rows as it wraps into.
pub open spec fn line_cells(l: Seq<u8>) -> (int, int) {
    if l.len() <= MAX_WIDTH {
        (l.len() as int, 1)
    } else {
        (MAX_WIDTH as int, l.len() as int / MAX_WIDTH as int + if l.len() as int % MAX_WIDTH as int == 0 {
            0int
        } else {
            1int
        })
    }
}

/// The width of a text of lines `ls`: that of its widest line.
pub open spec fn text_width(ls: Seq<Seq<u8>>) -> int
    decreases ls.len(),
{
    if ls.len() == 0 {
        0
    } else {
        let w = text_width(ls.drop_last());
        let c = line_cells(ls.last()).0;
        if w >= c {
            w
        } else {
            c
        }
    }
}

/// The height of a text of lines `ls`: the rows of all its lines.
pub open spec fn text_height(ls: Seq<Seq<u8>>) -> int
    decreases ls.len(),
{
    if ls.len() == 0 {
        0
    } else {
        text_height(ls.drop_last()) + line_cells(ls.last()).1
    }
}

proof fn lemma_height_concat(a: Seq<Seq<u8>>, b: Seq<Seq<u8>>)
    ensures
        text_height(a + b) == text_height(a) + text_height(b),
        text_height(b) >= 0,
    decreases b.len(),
{
    if b.len() == 0 {
        assert(a + b =~= a);
    } else {
        lemma_height_concat(a, b.drop_last());
        assert((a + b).drop_last() =~= a + b.drop_last());
        assert((a + b).last() == b.last());
    }
}

proof fn lemma_width_bound(ls: Seq<Seq<u8>>)
    ensures
        0 <= text_width(ls) <= MAX_WIDTH,
    decreases ls.len(),
{
    if ls.len() > 0 {
        lemma_width_bound(ls.drop_last());
    }
}

/// With no `'\n'` in `b` from `i` to `j`, and one at `j` or `j` the end,
/// the next `'\n'` from `i` is at `j`.
proof fn lemma_next_newline_is(b: Seq<u8>, i: int, j: int)
    requires
        0 <= i <= j <= b.len(),
        forall|k: int| i <= k < j ==> b[k] != 10u8,
        j == b.len() || b[j] == 10u8,
    ensures
        next_newline(b, i) == j,
    decreases j - i,
{
    if i < j {
        lemma_next_newline_is(b, i + 1, j);
    }
}

/// A text with the width and height it takes on screen.
pub struct LodText {
    levels: ArrayVec<(String, u32, u32), 3>,
}

impl View for LodText {
    type V = Seq<(Seq<char>, u32, u32)>;

    /// The levels of detail, finest first: the text of each, with its width
    /// and height.
    closed spec fn view(&self) -> Seq<(Seq<char>, u32, u32)> {
        lod_items(self.levels).map_values(|l: (String, u32, u32)| (l.0@, l.1, l.2))
    }
}

/// The lines of a text, over its UTF-8 bytes.
pub open spec fn lines_of(s: Seq<char>) -> Seq<Seq<u8>> {
    lines_from(vstd::utf8::encode_utf8(s), 0)
}

impl LodText {
    pub fn new() -> (t: Self)
        ensures
            t@ == Seq::<(Seq<char>, u32, u32)>::empty(),
    {
        let t = Self { levels: lod_new() };
        assert(t@ =~= Seq::<(Seq<char>, u32, u32)>::empty());
        t
    }

    /// Adds `text` as the next coarser level, with the width and height it
    /// takes; a text holds at most three levels.
    pub fn coarser(&mut self, text: String)
        requires
            old(self)@.len() < 3,
            text_height(lines_of(text@)) <= u32::MAX,
        ensures
            final(self)@ == old(self)@.push(
                (
                    text@,
                    text_width(lines_of(text@)) as u32,
                    text_height(lines_of(text@)) as u32,
                ),
            ),
    {
        let ghost o = self@;
        let l = Self::level(text);
        lod_push(&mut self.levels, l);
        assert(self@ =~= o.push((l.0@, l.1, l.2)));
    }

    /// The finest level that fits in `width` by `height`, or nothing.
    pub fn get_given_available_square(&self, width: u32, height: u32) -> (s: &str)
        ensures
            s@ == match first_fitting(self@, width, height) {
                Some(i) => self@[i].0,
                None => Seq::<char>::empty(),
            },
    {
        let n = lod_len(&self.levels);
        let mut i: usize = 0;
        while i < n
            invariant
                n == lod_items(self.levels).len(),
                0 <= i <= n,
                forall|j: int| 0 <= j < i ==> !fits(#[trigger] self@[j], width, height),
            decreases n - i,
        {
            let level = lod_get(&self.levels, i);
            if level.1 <= width && level.2 <= height {
                proof {
                    assert(self@[i as int] == (level.0@, level.1, level.2));
                    lemma_first_fitting(self@, width, height, i as int);
                }
                return level.0.as_str();
            }
            proof {
                assert(self@[i as int] == (level.0@, level.1, level.2));
            }
            i = i + 1;
        }
        proof {
            reveal_strlit("");
            lemma_none_fitting(self@, width, height);
        }
        ""
    }

    /// The finest level, or nothing for a text without levels.
    pub fn get_full(&self) -> (s: &str)
        ensures
            s@ == if self@.len() > 0 {
                self@[0].0
            } else {
                Seq::<char>::empty()
            },
    {
        if lod_len(&self.levels) > 0 {
            let level = lod_get(&self.levels, 0);
            assert(self@[0] == (level.0@, level.1, level.2));
            level.0.as_str()
        } else {
            proof {
                reveal_strlit("");
            }
            ""
        }
    }

    /// `text` with the width and height its lines take.
    fn level(text: String) -> (r: (String, u32, u32))
        requires
            text_height(lines_of(text@)) <= u32::MAX,
        ensures
            r.0@ == text@,
            r.1 == text_width(lines_of(text@)),
            r.2 == text_height(lines_of(text@)),
    {
        let b = text.as_str().as_bytes();
        let ghost all = lines_from(b@, 0);
        let n = b.len();
        let mut width: usize = 0;
        let mut height: usize = 0;
        let mut start: usize = 0;
        let mut i: usize = 0;
        let ghost mut done: Seq<Seq<u8>> = Seq::empty();
        proof {
            assert(all =~= done + lines_from(b@, 0));
        }
        while i < n
            invariant
                n == b@.len(),
                all == lines_from(b@, 0),
                text_height(all) <= u32::MAX,
                0 <= start <= i <= n,
                forall|k: int| start <= k < i ==> b@[k] != 10u8,
                all == done + lines_from(b@, start as int),
                width == text_width(done),
                height == text_height(done),
            decreases n - i,
        {
            if b[i] == 10u8 {
                let raw_len = i - start;
                let line_len = if raw_len > 0 && b[i - 1] == 13u8 {
                    raw_len - 1
                } else {
                    raw_len
                };
                let ghost line = line_text(b@, start as int, i as int);
                proof {
                    lemma_next_newline_is(b@, start as int, i as int);
                    assert(lines_from(b@, start as int) == seq![line] + lines_from(b@, i + 1));
                    assert(line.len() == line_len);
                    lemma_width_bound(done);
                    lemma_height_concat(done.push(line), lines_from(b@, i + 1));
                    assert(all =~= done.push(line) + lines_from(b@, i + 1));
                    assert(done.push(line).drop_last() =~= done);
                }
                if line_len <= MAX_WIDTH {
                    if line_len > width {
                        width = line_len;
                    }
                    height = height + 1;
                } else {
                    width = MAX_WIDTH;
                    height = height + line_len / MAX_WIDTH + if line_len % MAX_WIDTH == 0 {
                        0
                    } else {
                        1
                    };
                }
                proof {
                    done = done.push(line);
                }
                start = i + 1;
            }
            i = i + 1;
        }
        if start < n {
            let line_len = n - start;
            let ghost line = line_text(b@, start as int, n as int);
            proof {
                lemma_next_newline_is(b@, start as int, n as int);
                assert(lines_from(b@, start as int) == seq![line] + lines_from(b@, n + 1));
                assert(line =~= b@.subrange(start as int, n as int));
                lemma_width_bound(done);
                lemma_height_concat(done.push(line), lines_from(b@, n + 1));
                assert(all =~= done.push(line) + lines_from(b@, n + 1));
                assert(done.push(line).drop_last() =~= done);
            }
            if line_len <= MAX_WIDTH {
                if line_len > width {
                    width = line_len;
                }
                height = height + 1;
            } else {
                width = MAX_WIDTH;
                height = height + line_len / MAX_WIDTH + if line_len % MAX_WIDTH == 0 {
                    0
                } else {
                    1
                };
            }
            proof {
                done = done.push(line);
                assert(all =~= done);
            }
        } else {
            proof {
                assert(all =~= done);
            }
        }
        proof {
            lemma_width_bound(all);
        }
        (text, width as u32, height as u32)
    }
}

/// A level fits in `width` by `height`.
pub open spec fn fits(level: (Seq<char>, u32, u32), width: u32, height: u32) -> bool {
    level.1 <= width && level.2 <= height
}

/// The first of `levels` that fits in `width` by `height`, if any.
pub open spec fn first_fitting(levels: Seq<(Seq<char>, u32, u32)>, width: u32, height: u32) -> Option<int> {
    if exists|i: int| 0 <= i < levels.len() && fits(#[trigger] levels[i], width, height) {
        Some(choose|i: int| 0 <= i < levels.len() && fits(#[trigger] levels[i], width, height)
            && forall|j: int| 0 <= j < i ==> !fits(#[trigger] levels[j], width, height))
    } else {
        None
    }
}

proof fn lemma_first_fitting(levels: Seq<(Seq<char>, u32, u32)>, width: u32, height: u32, i: int)
    requires
        0 <= i < levels.len(),
        fits(levels[i], width, height),
        forall|j: int| 0 <= j < i ==> !fits(#[trigger] levels[j], width, height),
    ensures
        first_fitting(levels, width, height) == Some(i),
{
    let k = choose|k: int| 0 <= k < levels.len() && fits(#[trigger] levels[k], width, height)
        && forall|j: int| 0 <= j < k ==> !fits(#[trigger] levels[j], width, height);
    assert(fits(levels[k], width, height));
    if k < i {
        assert(!fits(levels[k], width, height));
    } else if i < k {
        assert(!fits(levels[i], width, height));
    }
}

proof fn lemma_none_fitting(levels: Seq<(Seq<char>, u32, u32)>, width: u32, height: u32)
    requires
        forall|j: int| 0 <= j < levels.len() ==> !fits(#[trigger] levels[j], width, height),
    ensures
        first_fitting(levels, width, height) == None::<int>,
{
}

} // verus!
