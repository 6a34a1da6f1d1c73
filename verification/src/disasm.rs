use vstd::prelude::*;
use vstd::string::*;

verus! {

/// The byte offsets just past each `'\n'` of `c`, in order.
pub open spec fn newline_ends(c: Seq<u8>) -> Seq<usize>
    decreases c.len(),
{
    if c.len() == 0 {
        Seq::empty()
    } else {
        newline_ends(c.drop_last()) + if c.last() == 10u8 {
            seq![c.len() as usize]
        } else {
            Seq::empty()
        }
    }
}

/// The byte offsets at which the lines of `c` start: the first line at 0,
/// every other one just past a `'\n'` (also for `"\r\n"` line ends).
pub open spec fn line_starts(c: Seq<u8>) -> Seq<usize> {
    seq![0usize] + newline_ends(c)
}

/// The line ends of `c` ascend, lie within `c`, and each one follows a
/// `'\n'`.
proof fn lemma_newline_ends(c: Seq<u8>)
    requires
        c.len() <= usize::MAX,
    ensures
        forall|i: int, j: int|
            0 <= i < j < newline_ends(c).len() ==> #[trigger] newline_ends(c)[i] < #[trigger] newline_ends(c)[j],
        forall|i: int|
            0 <= i < newline_ends(c).len() ==> 1 <= #[trigger] newline_ends(c)[i] <= c.len() && c[newline_ends(c)[i]
                - 1] == 10u8,
    decreases c.len(),
{
    if c.len() > 0 {
        let p = c.drop_last();
        lemma_newline_ends(p);
        assert forall|i: int| 0 <= i < newline_ends(p).len() implies c[newline_ends(p)[i] - 1] == 10u8 by {
            assert(c[newline_ends(p)[i] - 1] == p[newline_ends(p)[i] - 1]);
        }
    }
}

/// The line starts of `c` ascend from 0 and lie within `c`.
pub proof fn lemma_line_starts(c: Seq<u8>)
    requires
        c.len() <= usize::MAX,
    ensures
        line_starts(c)[0] == 0,
        forall|i: int, j: int|
            0 <= i < j < line_starts(c).len() ==> #[trigger] line_starts(c)[i] < #[trigger] line_starts(c)[j],
        forall|i: int| 0 <= i < line_starts(c).len() ==> #[trigger] line_starts(c)[i] <= c.len(),
{
    lemma_newline_ends(c);
    let s = line_starts(c);
    let e = newline_ends(c);
    assert forall|i: int, j: int| 0 <= i < j < s.len() implies #[trigger] s[i] < #[trigger] s[j] by {
        assert(s[j] == e[j - 1]);
        if i > 0 {
            assert(s[i] == e[i - 1]);
        }
    }
    assert forall|i: int| 0 <= i < s.len() implies #[trigger] s[i] <= c.len() by {
        if i > 0 {
            assert(s[i] == e[i - 1]);
        }
    }
}

/// The line starts of `content`, as the source-line cache keeps them with
/// each file.
pub fn line_start_indices(content: &[u8]) -> (starts: Vec<usize>)
    ensures
        starts@ == line_starts(content@),
{
    let mut starts: Vec<usize> = Vec::new();
    // The first line starts at byte 0, and all following lines start 1 past
    // a `'\n'` (This holds even for `"\r\n"` line ends!).
    starts.push(0);
    let mut i: usize = 0;
    proof {
        assert(content@.take(0) =~= Seq::<u8>::empty());
        assert(starts@ =~= line_starts(content@.take(0)));
    }
    while i < content.len()
        invariant
            0 <= i <= content@.len(),
            starts@ == line_starts(content@.take(i as int)),
        decreases content@.len() - i,
    {
        proof {
            assert(content@.take(i + 1).drop_last() =~= content@.take(i as int));
        }
        if content[i] == 10u8 {
            starts.push(i + 1);
            proof {
                assert(starts@ =~= line_starts(content@.take(i + 1)));
            }
        } else {
            proof {
                assert(starts@ =~= line_starts(content@.take(i + 1)));
            }
        }
        i = i + 1;
    }
    proof {
        assert(content@.take(content@.len() as int) =~= content@);
    }
    starts
}

/// The bytes of line `linenumber` (counted from 1) of `c`, as a range
/// of offsets, without its `"\r\n"` or `"\n"` end; none for a line that
/// `c` does not have.
pub open spec fn line_bounds(c: Seq<u8>, linenumber: u32) -> Option<(usize, usize)> {
    let s = line_starts(c);
    let ln = linenumber as int;
    if ln - 1 >= s.len() {
        None
    } else {
        let this = s[ln - 1];
        let next = if ln < s.len() {
            s[ln] as int
        } else {
            c.len() as int
        };
        let end = if next - this >= 2 && c[next - 2] == 13u8 && c[next - 1] == 10u8 {
            next - 2
        } else if next - this >= 1 && c[next - 1] == 10u8 {
            next - 1
        } else {
            next
        };
        Some((this, end as usize))
    }
}

/// The range of offsets of line `linenumber` (counted from 1) of
/// `content`, without its line end, found through the line starts the
/// cache keeps for it; `None` if the file has no such line.
pub fn line_range(line_start_indices: &[usize], content: &[u8], linenumber: u32) -> (r: Option<(usize, usize)>)
    requires
        line_start_indices@ == line_starts(content@),
        linenumber >= 1,
    ensures
        r == line_bounds(content@, linenumber),
        r matches Some((a, b)) ==> a <= b <= content@.len(),
{
    let n = content.len();
    proof {
        lemma_line_starts(content@);
    }
    let idx = (linenumber - 1) as usize;
    if idx >= line_start_indices.len() {
        return None;
    }
    let this_line = line_start_indices[idx];
    let next_line = if idx + 1 < line_start_indices.len() {
        line_start_indices[idx + 1]
    } else {
        n
    };
    proof {
        assert(this_line <= next_line);
    }
    // Strip `"\r\n"` or `"\n"` suffixes if present.
    let end = if next_line - this_line >= 2 && content[next_line - 2] == 13u8 && content[next_line - 1] == 10u8 {
        next_line - 2
    } else if next_line - this_line >= 1 && content[next_line - 1] == 10u8 {
        next_line - 1
    } else {
        next_line
    };
    Some((this_line, end))
}

/// Every `'\n'` of `c` ends a line: the offset just past it is a line end.
proof fn lemma_newline_complete(c: Seq<u8>, p: int)
    requires
        0 <= p < c.len(),
        c[p] == 10u8,
        c.len() <= usize::MAX,
    ensures
        newline_ends(c).contains((p + 1) as usize),
    decreases c.len(),
{
    let d = c.drop_last();
    if p < c.len() - 1 {
        assert(d[p] == c[p]);
        lemma_newline_complete(d, p);
        let k = choose|k: int| 0 <= k < newline_ends(d).len() && newline_ends(d)[k] == (p + 1) as usize;
        assert(newline_ends(c)[k] == newline_ends(d)[k]);
    } else {
        assert(newline_ends(c)[newline_ends(d).len() as int] == c.len() as usize);
    }
}

/// A line of `c` that is followed by another ends with a `'\n'`.
proof fn lemma_line_facts(c: Seq<u8>, i: int)
    requires
        c.len() <= usize::MAX,
        0 <= i < line_starts(c).len(),
    ensures
        i + 1 < line_starts(c).len() ==> line_starts(c)[i] < line_starts(c)[i + 1] && c[line_starts(c)[i + 1]
            - 1] == 10u8,
        i > 0 ==> line_starts(c)[i] >= 1 && c[line_starts(c)[i] - 1] == 10u8,
        i + 1 == line_starts(c).len() ==> (c.len() == 0 || c[c.len() - 1] != 10u8 || line_starts(c)[i]
            == c.len()),
        forall|p: int|
            line_starts(c)[i] <= p && (i + 1 < line_starts(c).len() ==> p + 1 < line_starts(c)[i + 1]) && p
                < c.len() ==> c[p] != 10u8,
{
    lemma_line_starts(c);
    lemma_newline_ends(c);
    let s = line_starts(c);
    let e = newline_ends(c);
    if i + 1 < s.len() {
        assert(s[i + 1] == e[i]);
    }
    if i > 0 {
        assert(s[i] == e[i - 1]);
    }
    assert forall|p: int|
        s[i] <= p && (i + 1 < s.len() ==> p + 1 < s[i + 1]) && p < c.len() implies c[p] != 10u8 by {
        if c[p] == 10u8 {
            lemma_newline_complete(c, p);
            let k = choose|k: int| 0 <= k < e.len() && e[k] == (p + 1) as usize;
            assert(s[k + 1] == e[k]);
            assert(s[i] < s[k + 1]);
            if k + 1 <= i {
                if k + 1 < i {
                    assert(s[k + 1] < s[i]);
                }
            }
            if i + 1 < s.len() {
                if k + 1 > i + 1 {
                    assert(s[i + 1] < s[k + 1]);
                }
            }
        }
    }
    if i + 1 == s.len() && c.len() > 0 && c[c.len() - 1] == 10u8 {
        lemma_newline_complete(c, c.len() - 1);
        let k = choose|k: int| 0 <= k < e.len() && e[k] == c.len() as usize;
        assert(s[k + 1] == e[k]);
        if k + 1 < i {
            assert(s[k + 1] < s[i]);
        }
    }
}

/// What a line of a file is: line 1 starts the file and every later line
/// starts just past a `'\n'`; the text of a line holds no `'\n'`; it ends
/// at the end of the file or at its line end, `"\n"` or `"\r\n"`, and that
/// line end is never part of the text: where a `'\n'` follows the text, the
/// text does not end in the `'\r'` of a `"\r\n"`. A line is followed by
/// another exactly when it has a line end, and the next line starts just
/// past it.
pub proof fn law_line_bounds(c: Seq<u8>, n: u32)
    requires
        c.len() <= usize::MAX,
        n >= 1,
        line_bounds(c, n) is Some,
    ensures
        ({
            let (a, b) = line_bounds(c, n)->0;
            &&& a <= b <= c.len()
            &&& n == 1 ==> a == 0
            &&& n > 1 ==> a >= 1 && c[a - 1] == 10u8
            &&& forall|p: int| a <= p < b ==> c[p] != 10u8
            &&& b == c.len() || c[b as int] == 10u8 || (c[b as int] == 13u8 && b + 1 < c.len() && c[b + 1] == 10u8)
            &&& b < c.len() && c[b as int] == 10u8 ==> b == a || c[b - 1] != 13u8
            &&& n < u32::MAX ==> (line_bounds(c, (n + 1) as u32) is Some <==> b < c.len())
            &&& n < u32::MAX && b < c.len() ==> (line_bounds(c, (n + 1) as u32)->0).0 == if c[b as int] == 10u8 {
                b + 1
            } else {
                b + 2
            }
        }),
{
    let s = line_starts(c);
    let i = n - 1;
    lemma_line_starts(c);
    lemma_line_facts(c, i as int);
    let (a, b) = line_bounds(c, n)->0;
    let next = if n < s.len() {
        s[n as int] as int
    } else {
        c.len() as int
    };
    assert(a == s[i as int]);
    if n < s.len() {
        assert(c[next - 1] == 10u8);
        assert(b < next);
    } else {
        assert(b == c.len());
    }
    assert forall|p: int| a <= p < b implies c[p] != 10u8 by {
        assert(p + 1 < next || n >= s.len());
    }
    if b < c.len() && c[b as int] == 10u8 && b != a {
        if c[b - 1] == 13u8 {
            assert(b - 1 >= a);
            assert(b + 1 == next) by {
                if b + 1 < next {
                    assert(c[b as int] != 10u8);
                }
            }
        }
    }
}

/// Every file, even an empty one, has a first line.
pub proof fn law_first_line_exists(c: Seq<u8>)
    ensures
        line_bounds(c, 1) is Some,
{
}

/// The text of one frame of a call stack: the function's name, with `()`
/// after the innermost one, or `?` for a frame without a name.
pub open spec fn frame_text(f: Option<Seq<char>>, innermost: bool) -> Seq<char> {
    match f {
        Some(n) => if innermost {
            n + "()"@
        } else {
            n
        },
        None => "?"@,
    }
}

/// The frames of a call stack, innermost first, joined by ` in `.
pub open spec fn frames_text(fs: Seq<Option<Seq<char>>>) -> Seq<char>
    decreases fs.len(),
{
    if fs.len() == 0 {
        Seq::empty()
    } else if fs.len() == 1 {
        frame_text(fs[0], true)
    } else {
        frames_text(fs.drop_last()) + " in "@ + frame_text(fs.last(), false)
    }
}

/// The name of the function at an address, from the frames that the debug
/// information gives for it; `<unknown>` when it gives none.
pub open spec fn function_name_text(fs: Seq<Option<Seq<char>>>) -> Seq<char> {
    if fs.len() == 0 {
        "<unknown>"@
    } else {
        frames_text(fs)
    }
}

/// The names of a list of frames.
pub open spec fn frame_names(frames: Seq<Option<String>>) -> Seq<Option<Seq<char>>> {
    frames.map_values(
        |f: Option<String>|
            match f {
                Some(s) => Some(s@),
                None => None,
            },
    )
}

/// The name of the function at an address, given the (demangled) names of
/// the frames there, innermost first: the names joined by ` in `, `()`
/// after the innermost, `?` for a frame without a name.
pub fn function_name(frames: &[Option<String>]) -> (name: String)
    ensures
        name@ == function_name_text(frame_names(frames@)),
{
    let ghost fs = frame_names(frames@);
    let mut ret = String::new();
    let mut i: usize = 0;
    while i < frames.len()
        invariant
            0 <= i <= frames@.len(),
            fs == frame_names(frames@),
            ret@ == frames_text(fs.take(i as int)),
        decreases frames@.len() - i,
    {
        // After the first frame the text is never empty.
        if i > 0 {
            ret.append(" in ");
        }
        match &frames[i] {
            Some(name) => {
                let innermost = i == 0;
                ret.append(name.as_str());
                if innermost {
                    ret.append("()");
                }
            },
            None => ret.append("?"),
        }
        proof {
            let t = fs.take(i + 1);
            assert(t.drop_last() =~= fs.take(i as int));
            assert(t.last() == fs[i as int]);
            if i == 0 {
                assert(t.len() == 1);
            }
        }
        i = i + 1;
    }
    proof {
        assert(fs.take(frames@.len() as int) =~= fs);
    }
    if i == 0 {
        ret.append("<unknown>");
        proof {
            assert(ret@ =~= "<unknown>"@);
        }
    }
    ret
}

} // verus!
