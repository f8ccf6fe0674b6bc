//! From a block of text to the axis-aligned segments it holds: split into
//! lines, read each line, drop the lines that do not read, and keep the
//! horizontal and vertical segments in their order.
use vstd::prelude::*;

use crate::geometry::Line;
use crate::parse::{line_from_chars, line_of};
use crate::text::{chars_of, copy_range};

verus! {

/// `s` without one trailing carriage return.
pub open spec fn strip_cr(s: Seq<char>) -> Seq<char> {
    if s.len() > 0 && s.last() == '\r' {
        s.drop_last()
    } else {
        s
    }
}

/// The lines of `s[start..]`, scanning from index `i`: a line ends at each
/// `\n` (a `\r` just before it is dropped); text after the last `\n` is a
/// last line if it is not empty.
pub open spec fn lines_from(s: Seq<char>, start: int, i: int) -> Seq<Seq<char>>
    decreases s.len() - i,
{
    if i >= s.len() {
        if start < s.len() {
            seq![s.subrange(start, s.len() as int)]
        } else {
            seq![]
        }
    } else if s[i] == '\n' {
        seq![strip_cr(s.subrange(start, i))] + lines_from(s, i + 1, i + 1)
    } else {
        lines_from(s, start, i + 1)
    }
}

/// The lines of `s`.
pub open spec fn text_lines(s: Seq<char>) -> Seq<Seq<char>> {
    lines_from(s, 0, 0)
}

/// The segments that the lines of `ls` write, in order; a line that does not
/// read as a segment is left out.
pub open spec fn parsed_lines(ls: Seq<Seq<char>>) -> Seq<Line>
    decreases ls.len(),
{
    if ls.len() == 0 {
        seq![]
    } else {
        let rest = parsed_lines(ls.drop_first());
        match line_of(ls[0]) {
            Ok(l) => seq![l] + rest,
            Err(_) => rest,
        }
    }
}

/// The segments written in `text`, one per line, skipping lines that do not
/// read as a segment.
pub open spec fn segments_of(text: Seq<char>) -> Seq<Line> {
    parsed_lines(text_lines(text))
}

/// Keeps the horizontal and vertical segments of `ls`, in order.
pub open spec fn orthogonal_only(ls: Seq<Line>) -> Seq<Line> {
    ls.filter(|l: Line| l.spec_is_orthogonal())
}

fn strip_cr_exec(cs: Vec<char>) -> (r: Vec<char>)
    ensures
        r@ == strip_cr(cs@),
{
    let mut cs = cs;
    let n: usize = cs.len();
    if n > 0 && cs[n - 1] == '\r' {
        cs.pop();
    }
    cs
}

/// Reads every line of `text` as a segment and keeps those that read, in
/// order.
pub fn parse_lines(text: &str) -> (r: Vec<Line>)
    ensures
        r@ == segments_of(text@),
{
    let cs = chars_of(text);
    let n: usize = cs.len();
    let mut out: Vec<Line> = Vec::new();
    let mut start: usize = 0;
    let mut i: usize = 0;
    while i < n
        invariant
            n == cs@.len(),
            cs@ == text@,
            start <= i <= n,
            out@ + parsed_lines(lines_from(cs@, start as int, i as int)) == segments_of(text@),
        decreases n - i,
    {
        if cs[i] == '\n' {
            let piece = strip_cr_exec(copy_range(&cs, start, i));
            let ghost rest = lines_from(cs@, i + 1, i + 1);
            let ghost ls = lines_from(cs@, start as int, i as int);
            assert(ls == seq![piece@] + rest);
            assert(ls.drop_first() =~= rest);
            let ghost before = out@;
            match line_from_chars(&piece) {
                Ok(l) => {
                    out.push(l);
                    assert(out@ + parsed_lines(rest) =~= before + parsed_lines(ls));
                },
                Err(_) => {},
            }
            start = i + 1;
        }
        i = i + 1;
    }
    if start < n {
        let piece = copy_range(&cs, start, n);
        let ghost ls = lines_from(cs@, start as int, n as int);
        assert(ls == seq![piece@]);
        assert(ls.drop_first() =~= Seq::<Seq<char>>::empty());
        assert(parsed_lines(ls.drop_first()) == Seq::<Line>::empty());
        let ghost before = out@;
        match line_from_chars(&piece) {
            Ok(l) => {
                out.push(l);
                assert(out@ =~= before + parsed_lines(ls));
            },
            Err(_) => {
                assert(out@ =~= before + parsed_lines(ls));
            },
        }
    } else {
        assert(lines_from(cs@, start as int, n as int) == Seq::<Seq<char>>::empty());
        assert(parsed_lines(Seq::<Seq<char>>::empty()) == Seq::<Line>::empty());
        assert(out@ =~= out@ + parsed_lines(lines_from(cs@, start as int, n as int)));
    }
    out
}

/// Keeps the horizontal and vertical segments of `lines`, in order.
pub fn filter_orthogonal(lines: &Vec<Line>) -> (r: Vec<Line>)
    ensures
        r@ == orthogonal_only(lines@),
{
    let mut out: Vec<Line> = Vec::new();
    let n: usize = lines.len();
    let mut i: usize = 0;
    while i < n
        invariant
            n == lines@.len(),
            i <= n,
            out@ == orthogonal_only(lines@.take(i as int)),
        decreases n - i,
    {
        let l = lines[i];
        assert(lines@.take(i + 1) =~= lines@.take(i as int).push(l));
        proof {
            lines@.take(i as int).lemma_filter_push(l, |l: Line| l.spec_is_orthogonal());
        }
        if l.is_orthogonal() {
            out.push(l);
        }
        i = i + 1;
    }
    assert(lines@.take(n as int) =~= lines@);
    out
}

/// Filtering twice keeps what filtering once kept.
pub proof fn lemma_filter_idempotent(ls: Seq<Line>)
    ensures
        orthogonal_only(orthogonal_only(ls)) == orthogonal_only(ls),
{
    lemma_filter_keeps_orthogonal(orthogonal_only(ls));
}

/// A sequence of horizontal and vertical segments only is kept whole.
pub proof fn lemma_filter_keeps_orthogonal(ls: Seq<Line>)
    requires
        forall|i: int| 0 <= i < ls.len() ==> (#[trigger] ls[i]).spec_is_orthogonal(),
    ensures
        orthogonal_only(ls) == ls,
    decreases ls.len(),
{
    if ls.len() > 0 {
        lemma_filter_keeps_orthogonal(ls.drop_last());
        assert(ls =~= ls.drop_last().push(ls.last()));
        ls.drop_last().lemma_filter_push(ls.last(), |l: Line| l.spec_is_orthogonal());
    } else {
        reveal(Seq::filter);
        assert(orthogonal_only(ls) =~= ls);
    }
}

/// Reading two runs of lines one after the other gives the segments of each,
/// one after the other.
pub proof fn lemma_parsed_lines_append(a: Seq<Seq<char>>, b: Seq<Seq<char>>)
    ensures
        parsed_lines(a + b) == parsed_lines(a) + parsed_lines(b),
    decreases a.len(),
{
    if a.len() == 0 {
        assert(a + b =~= b);
        assert(parsed_lines(a) + parsed_lines(b) =~= parsed_lines(b));
    } else {
        lemma_parsed_lines_append(a.drop_first(), b);
        assert((a + b).drop_first() =~= a.drop_first() + b);
        assert((a + b)[0] == a[0]);
        match line_of(a[0]) {
            Ok(l) => {
                assert(seq![l] + (parsed_lines(a.drop_first()) + parsed_lines(b)) =~= (seq![l]
                    + parsed_lines(a.drop_first())) + parsed_lines(b));
            },
            Err(_) => {},
        }
    }
}

/// A line that does not read as a segment, put anywhere among other lines,
/// is dropped and leaves the segments read from the others unchanged.
pub proof fn lemma_malformed_line_dropped(
    before: Seq<Seq<char>>,
    bad: Seq<char>,
    after: Seq<Seq<char>>,
)
    requires
        line_of(bad) is Err,
    ensures
        parsed_lines(before + seq![bad] + after) == parsed_lines(before + after),
{
    lemma_parsed_lines_append(before + seq![bad], after);
    lemma_parsed_lines_append(before, seq![bad]);
    lemma_parsed_lines_append(before, after);
    let one = seq![bad];
    assert(one.drop_first() =~= Seq::<Seq<char>>::empty());
    assert(parsed_lines(one.drop_first()) == Seq::<Line>::empty());
    assert(parsed_lines(one) == Seq::<Line>::empty());
    assert(parsed_lines(before) + parsed_lines(one) =~= parsed_lines(before));
}

} // verus!
