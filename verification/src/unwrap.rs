//! The unwrapper: the lines of a paragraph joined into one logical line.

use crate::text::{
    blank, is_blank, lead, leading_spaces, lemma_lead_bounds, lemma_line_view, lemma_trail_bounds,
    lemma_trail_is, push_range, space, trail, trim_end, trimmed_len,
};
use crate::words::{join, lemma_join_push};
use vstd::prelude::*;

verus! {

broadcast use lemma_line_view;

/// A paragraph as one line: the indentation that its lines share, their text
/// joined by single spaces, and whether a blank line ends the paragraph.
#[derive(Clone, Debug, PartialEq, Eq)]
pub struct LogicalLine {
    pub indent: Vec<char>,
    pub text: Vec<char>,
    pub trailing_blank: bool,
}

/// The least number of whitespace characters that a line of `lines` begins
/// with: 0 where there is no line.
pub open spec fn min_lead(lines: Seq<Seq<char>>) -> nat
    decreases lines.len(),
{
    if lines.len() == 0 {
        0
    } else if lines.len() == 1 {
        lead(lines[0])
    } else {
        let m = min_lead(lines.drop_last());
        if lead(lines.last()) < m {
            lead(lines.last())
        } else {
            m
        }
    }
}

/// `line` without its first `m` characters and without the whitespace that
/// it ends with.
pub open spec fn body(line: Seq<char>, m: int) -> Seq<char> {
    trim_end(line.skip(m))
}

/// The bodies of `lines`.
pub open spec fn bodies(lines: Seq<Seq<char>>, m: int) -> Seq<Seq<char>> {
    Seq::new(lines.len(), |i: int| body(lines[i], m))
}

/// Whether the last of `lines` is blank.
pub open spec fn ends_blank(lines: Seq<Seq<char>>) -> bool {
    lines.len() > 0 && blank(lines.last())
}

/// `lines` without the blank line at their end, if there is one.
pub open spec fn paragraph(lines: Seq<Seq<char>>) -> Seq<Seq<char>> {
    if ends_blank(lines) {
        lines.drop_last()
    } else {
        lines
    }
}

/// The indentation of the paragraph `lines`: the whitespace that all its lines
/// begin with, as it stands in the first of them.
pub open spec fn indent_of(lines: Seq<Seq<char>>) -> Seq<char> {
    let p = paragraph(lines);
    if p.len() == 0 {
        Seq::empty()
    } else {
        p[0].take(min_lead(p) as int)
    }
}

/// The text of the paragraph `lines`: each line without the shared
/// indentation and without the whitespace at its end, joined by single
/// spaces. The whitespace inside a line stays as it is.
pub open spec fn text_of(lines: Seq<Seq<char>>) -> Seq<char> {
    let p = paragraph(lines);
    join(bodies(p, min_lead(p) as int))
}

/// No line begins with less whitespace than `min_lead` says.
pub proof fn lemma_min_lead_le(lines: Seq<Seq<char>>, i: int)
    requires
        0 <= i < lines.len(),
    ensures
        min_lead(lines) <= lead(lines[i]),
    decreases lines.len(),
{
    if lines.len() > 1 {
        if i < lines.len() - 1 {
            lemma_min_lead_le(lines.drop_last(), i);
        }
    }
}

/// `min_lead` is the one number that no line goes below and some line has.
pub proof fn lemma_min_lead_is(lines: Seq<Seq<char>>, m: nat)
    requires
        forall|i: int| 0 <= i < lines.len() ==> m <= lead(#[trigger] lines[i]),
        exists|i: int| 0 <= i < lines.len() && lead(#[trigger] lines[i]) == m,
    ensures
        min_lead(lines) == m,
    decreases lines.len(),
{
    let k = choose|i: int| 0 <= i < lines.len() && lead(#[trigger] lines[i]) == m;
    if lines.len() > 1 {
        let front = lines.drop_last();
        if k < lines.len() - 1 {
            assert(front[k] == lines[k]);
            assert forall|i: int| 0 <= i < front.len() implies m <= lead(#[trigger] front[i]) by {
                assert(front[i] == lines[i]);
            }
            lemma_min_lead_is(front, m);
        } else {
            lemma_min_lead_le(front, 0);
            let f = min_lead(front);
            lemma_min_lead_some(front);
            let j = choose|j: int| 0 <= j < front.len() && lead(#[trigger] front[j]) == f;
            assert(front[j] == lines[j]);
        }
    }
}

/// Some line begins with exactly as much whitespace as `min_lead` says.
pub proof fn lemma_min_lead_some(lines: Seq<Seq<char>>)
    requires
        lines.len() > 0,
    ensures
        exists|i: int| 0 <= i < lines.len() && lead(#[trigger] lines[i]) == min_lead(lines),
    decreases lines.len(),
{
    if lines.len() == 1 {
        assert(lead(lines[0]) == min_lead(lines));
    } else {
        let front = lines.drop_last();
        if lead(lines.last()) < min_lead(front) {
            assert(lead(lines[lines.len() - 1]) == min_lead(lines));
        } else {
            lemma_min_lead_some(front);
            let j = choose|j: int| 0 <= j < front.len() && lead(#[trigger] front[j]) == min_lead(front);
            assert(front[j] == lines[j]);
        }
    }
}

/// The body of a line lies between the shared indentation and the place where
/// the whitespace at the end of the line begins.
pub proof fn lemma_body_is(line: Seq<char>, m: int)
    requires
        0 <= m <= lead(line),
    ensures
        m <= line.len(),
        body(line, m) == line.subrange(
            m,
            if line.len() - trail(line) > m {
                line.len() - trail(line)
            } else {
                m
            },
        ),
{
    lemma_lead_bounds(line);
    lemma_trail_bounds(line);
    let e = line.len() - trail(line);
    let rest = line.skip(m);
    if e > m {
        assert forall|i: int| rest.len() - (line.len() - e) <= i < rest.len() implies space(
            #[trigger] rest[i],
        ) by {
            assert(rest[i] == line[m + i]);
        }
        assert(rest[e - m - 1] == line[e - 1]);
        lemma_trail_is(rest, line.len() - e);
        assert(body(line, m) =~= line.subrange(m, e));
    } else {
        assert forall|i: int| 0 <= i < rest.len() implies space(#[trigger] rest[i]) by {
            assert(rest[i] == line[m + i]);
        }
        lemma_trail_is(rest, rest.len() as int);
        assert(body(line, m) =~= line.subrange(m, m));
    }
}

/// Joins the lines of a paragraph into one logical line. The last line, if
/// blank, is the end of the paragraph and no part of its text.
pub fn unwrap(lines: &[Vec<char>]) -> (out: LogicalLine)
    ensures
        out.indent@ == indent_of(lines.deep_view()),
        out.text@ == text_of(lines.deep_view()),
        out.trailing_blank == ends_blank(lines.deep_view()),
{
    let ghost doc = lines.deep_view();
    let n: usize = lines.len();
    let trailing_blank: bool = n > 0 && is_blank(&lines[n - 1]);
    let count: usize = if trailing_blank {
        n - 1
    } else {
        n
    };
    let ghost p = paragraph(doc);
    assert(p =~= doc.take(count as int));
    let mut m: usize = 0;
    let mut i: usize = 0;
    assert(p.take(0) =~= Seq::<Seq<char>>::empty());
    while i < count
        invariant
            i <= count <= n,
            n == lines.len(),
            doc == lines.deep_view(),
            p == doc.take(count as int),
            m == min_lead(p.take(i as int)),
        decreases count - i,
    {
        let l: usize = leading_spaces(&lines[i]);
        proof {
            let sofar = p.take(i as int);
            let next = p.take(i + 1);
            assert(next.drop_last() =~= sofar);
            assert(next.last() == doc[i as int]);
            if i > 0 {
                assert(next.len() > 1);
            } else {
                assert(next[0] == doc[0]);
            }
        }
        if i == 0 || l < m {
            m = l;
        }
        i += 1;
    }
    assert(p.take(count as int) =~= p);
    let mut indent: Vec<char> = Vec::new();
    if count > 0 {
        proof {
            lemma_min_lead_le(p, 0);
            lemma_lead_bounds(p[0]);
            assert(p[0] == lines[0]@);
            assert(indent@ + lines[0]@.subrange(0, m as int) =~= p[0].take(m as int));
        }
        push_range(&mut indent, &lines[0], 0, m);
    }
    let ghost parts = bodies(p, m as int);
    let mut text: Vec<char> = Vec::new();
    let mut i: usize = 0;
    assert(parts.take(0) =~= Seq::<Seq<char>>::empty());
    while i < count
        invariant
            i <= count <= n,
            n == lines.len(),
            doc == lines.deep_view(),
            p == doc.take(count as int),
            m == min_lead(p),
            parts == bodies(p, m as int),
            text@ == join(parts.take(i as int)),
        decreases count - i,
    {
        let line = &lines[i];
        let e: usize = trimmed_len(line);
        let stop: usize = if e > m {
            e
        } else {
            m
        };
        proof {
            assert(p[i as int] == line@);
            lemma_min_lead_le(p, i as int);
            lemma_body_is(line@, m as int);
            lemma_trail_bounds(line@);
        }
        if i > 0 {
            text.push(' ');
        }
        push_range(&mut text, line, m, stop);
        proof {
            let sofar = parts.take(i as int);
            assert(parts[i as int] == body(line@, m as int));
            assert(parts.take(i + 1) =~= sofar.push(parts[i as int]));
            lemma_join_push(sofar, parts[i as int]);
            assert(text@ =~= join(sofar.push(parts[i as int])));
        }
        i += 1;
    }
    assert(parts.take(count as int) =~= parts);
    LogicalLine { indent, text, trailing_blank }
}

} // verus!
