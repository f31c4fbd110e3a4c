//! The wrapper: tokens packed into lines of a given width.

use crate::text::{blank, lead, lemma_lead_is, lemma_line_view, push_range, space};
use crate::tokenize::{texts, Token};
use crate::words::{join, lemma_join_push};
use vstd::prelude::*;

verus! {

broadcast use lemma_line_view;

/// The number of tokens at the head of `ts` that still go on a line which
/// holds `used` columns: each takes a space and its own width, and the line
/// may not grow beyond `width`.
pub open spec fn extra(ts: Seq<Seq<char>>, used: int, width: int) -> nat
    decreases ts.len(),
{
    if ts.len() > 0 && used + 1 + ts[0].len() <= width {
        1 + extra(ts.skip(1), used + 1 + ts[0].len(), width)
    } else {
        0
    }
}

/// The number of tokens on the first line: the first token whatever its
/// width, and those after it that fit.
pub open spec fn first_count(ts: Seq<Seq<char>>, indent_len: int, width: int) -> nat
    recommends
        ts.len() > 0,
{
    1 + extra(ts.skip(1), indent_len + ts[0].len(), width)
}

/// The lines that the tokens `ts` make: each line is `indent` and then as many
/// tokens as fit in `width` columns, with single spaces between them. A token
/// that does not fit even alone has a line of its own.
pub open spec fn wrapped(ts: Seq<Seq<char>>, indent: Seq<char>, width: int) -> Seq<Seq<char>>
    decreases ts.len(),
{
    if ts.len() == 0 {
        Seq::empty()
    } else {
        proof {
            lemma_extra_bound(ts.skip(1), (indent.len() + ts[0].len()) as int, width);
        }
        let n = first_count(ts, indent.len() as int, width) as int;
        seq![indent + join(ts.take(n))] + wrapped(ts.skip(n), indent, width)
    }
}

/// Whether `line` is `indent` and one token of `ts`, nothing else.
pub open spec fn lone(line: Seq<char>, ts: Seq<Seq<char>>, indent: Seq<char>) -> bool {
    exists|j: int| 0 <= j < ts.len() && line == indent + #[trigger] ts[j]
}

/// A token that begins and ends with a character that is no whitespace.
pub open spec fn trimmed(t: Seq<char>) -> bool {
    t.len() > 0 && !space(t[0]) && !space(t.last())
}

/// Whether every token of `ts` is trimmed.
pub open spec fn all_trimmed(ts: Seq<Seq<char>>) -> bool {
    forall|j: int| 0 <= j < ts.len() ==> trimmed(#[trigger] ts[j])
}

/// No more tokens go on a line than there are.
pub proof fn lemma_extra_bound(ts: Seq<Seq<char>>, used: int, width: int)
    ensures
        extra(ts, used, width) <= ts.len(),
    decreases ts.len(),
{
    if ts.len() > 0 && used + 1 + ts[0].len() <= width {
        lemma_extra_bound(ts.skip(1), used + 1 + ts[0].len(), width);
    }
}

/// The tokens that still go on a line leave it within the width.
pub proof fn lemma_extra_fits(ts: Seq<Seq<char>>, used: int, width: int)
    requires
        extra(ts, used, width) >= 1,
    ensures
        used + 1 + join(ts.take(extra(ts, used, width) as int)).len() <= width,
    decreases ts.len(),
{
    let e = extra(ts, used, width) as int;
    let next = used + 1 + ts[0].len();
    let rest = ts.skip(1);
    lemma_extra_bound(rest, next, width);
    let head = ts.take(e);
    assert(head[0] == ts[0]);
    if e > 1 {
        lemma_extra_fits(rest, next, width);
        assert(head.skip(1) =~= rest.take(e - 1));
    }
}

/// The first line of some tokens begins with the first of them.
pub proof fn lemma_join_first(parts: Seq<Seq<char>>)
    requires
        parts.len() > 0,
        parts[0].len() > 0,
    ensures
        join(parts).len() > 0,
        join(parts)[0] == parts[0][0],
{
}

/// A joined line ends with the end of its last part.
pub proof fn lemma_join_last(parts: Seq<Seq<char>>)
    requires
        parts.len() > 0,
        parts.last().len() > 0,
    ensures
        join(parts).len() > 0,
        join(parts).last() == parts.last().last(),
    decreases parts.len(),
{
    if parts.len() > 1 {
        let rest = parts.skip(1);
        assert(rest.last() == parts.last());
        lemma_join_last(rest);
    }
}

/// There is a line for some tokens, and none without.
pub proof fn lemma_wrapped_len(ts: Seq<Seq<char>>, indent: Seq<char>, width: int)
    ensures
        wrapped(ts, indent, width).len() <= ts.len(),
        ts.len() > 0 ==> wrapped(ts, indent, width).len() > 0,
    decreases ts.len(),
{
    if ts.len() > 0 {
        lemma_extra_bound(ts.skip(1), (indent.len() + ts[0].len()) as int, width);
        let n = first_count(ts, indent.len() as int, width) as int;
        lemma_wrapped_len(ts.skip(n), indent, width);
    }
}

/// Every line is within the width, but for one that holds a single token.
pub proof fn lemma_wrapped_width(ts: Seq<Seq<char>>, indent: Seq<char>, width: int)
    ensures
        forall|i: int|
            0 <= i < wrapped(ts, indent, width).len() ==> (#[trigger] wrapped(
                ts,
                indent,
                width,
            )[i]).len() <= width || lone(wrapped(ts, indent, width)[i], ts, indent),
    decreases ts.len(),
{
    if ts.len() > 0 {
        let used = (indent.len() + ts[0].len()) as int;
        lemma_extra_bound(ts.skip(1), used, width);
        let n = first_count(ts, indent.len() as int, width) as int;
        let head = ts.take(n);
        let tail = ts.skip(n);
        let all = wrapped(ts, indent, width);
        lemma_wrapped_width(tail, indent, width);
        assert forall|i: int| 0 <= i < all.len() implies (#[trigger] all[i]).len() <= width
            || lone(all[i], ts, indent) by {
            if i == 0 {
                assert(head[0] == ts[0]);
                if n == 1 {
                    assert(all[0] == indent + ts[0]);
                } else {
                    lemma_extra_fits(ts.skip(1), used, width);
                    assert(head.skip(1) =~= ts.skip(1).take(n - 1));
                }
            } else {
                let line = wrapped(tail, indent, width)[i - 1];
                assert(all[i] == line);
                if line.len() > width {
                    let j = choose|j: int| 0 <= j < tail.len() && line == indent + #[trigger] tail[j];
                    assert(tail[j] == ts[n + j]);
                }
            }
        }
    }
}

/// Every line begins with the indentation. Where that is whitespace and the
/// tokens are trimmed, it is all the whitespace that the line begins with, and
/// the line ends with no whitespace.
pub proof fn lemma_wrapped_indent(ts: Seq<Seq<char>>, indent: Seq<char>, width: int)
    ensures
        forall|i: int|
            0 <= i < wrapped(ts, indent, width).len() ==> indent.is_prefix_of(
                #[trigger] wrapped(ts, indent, width)[i],
            ),
        blank(indent) && all_trimmed(ts) ==> forall|i: int|
            0 <= i < wrapped(ts, indent, width).len() ==> lead(
                #[trigger] wrapped(ts, indent, width)[i],
            ) == indent.len() && wrapped(ts, indent, width)[i].len() > indent.len() && !space(
                wrapped(ts, indent, width)[i].last(),
            ),
    decreases ts.len(),
{
    if ts.len() > 0 {
        lemma_extra_bound(ts.skip(1), (indent.len() + ts[0].len()) as int, width);
        let n = first_count(ts, indent.len() as int, width) as int;
        let head = ts.take(n);
        let tail = ts.skip(n);
        let all = wrapped(ts, indent, width);
        lemma_wrapped_indent(tail, indent, width);
        assert forall|i: int| 0 <= i < all.len() implies indent.is_prefix_of(#[trigger] all[i]) by {
            if i == 0 {
                assert(all[0].subrange(0, indent.len() as int) =~= indent);
            } else {
                assert(all[i] == wrapped(tail, indent, width)[i - 1]);
            }
        }
        if blank(indent) && all_trimmed(ts) {
            assert forall|j: int| 0 <= j < tail.len() implies trimmed(#[trigger] tail[j]) by {
                assert(tail[j] == ts[n + j]);
            }
            assert forall|i: int| 0 <= i < all.len() implies lead(#[trigger] all[i])
                == indent.len() && all[i].len() > indent.len() && !space(all[i].last()) by {
                if i == 0 {
                    assert(head[0] == ts[0]);
                    assert(head.last() == ts[n - 1]);
                    assert(trimmed(ts[0]));
                    assert(trimmed(ts[n - 1]));
                    lemma_join_first(head);
                    lemma_join_last(head);
                    let line = all[0];
                    assert forall|k: int| 0 <= k < indent.len() implies space(#[trigger] line[k]) by {
                        assert(line[k] == indent[k]);
                    }
                    assert(line[indent.len() as int] == join(head)[0]);
                    lemma_lead_is(line, indent.len() as int);
                    assert(line.last() == join(head).last());
                } else {
                    assert(all[i] == wrapped(tail, indent, width)[i - 1]);
                }
            }
        }
    }
}

/// Packs `tokens` into lines. Each line begins with `indent`; a token goes on
/// the current line if, with a space before it, the line stays within
/// `column_length` columns, and begins the next line if not. A token that is
/// too wide even alone has a line of its own.
pub fn wrap(tokens: &Vec<Token>, indent: &Vec<char>, column_length: u8) -> (lines: Vec<Vec<char>>)
    ensures
        lines.deep_view() == wrapped(texts(tokens@), indent@, column_length as int),
        forall|i: int| 0 <= i < lines.len() ==> indent@.is_prefix_of(#[trigger] lines[i]@),
        forall|i: int|
            0 <= i < lines.len() ==> (#[trigger] lines[i]@).len() <= column_length || lone(
                lines[i]@,
                texts(tokens@),
                indent@,
            ),
{
    let ghost ts = texts(tokens@);
    let ghost ind = indent@;
    let ghost w = column_length as int;
    let width: usize = column_length as usize;
    let mut lines: Vec<Vec<char>> = Vec::new();
    let mut i: usize = 0;
    assert(ts.skip(0) =~= ts);
    assert(lines.deep_view() + wrapped(ts, ind, w) =~= wrapped(ts, ind, w));
    while i < tokens.len()
        invariant
            i <= tokens.len(),
            ts == texts(tokens@),
            ind == indent@,
            w == column_length as int,
            width == column_length as usize,
            lines.deep_view() + wrapped(ts.skip(i as int), ind, w) == wrapped(ts, ind, w),
        decreases tokens.len() - i,
    {
        let start: usize = i;
        let ghost tail = ts.skip(start as int);
        let mut line: Vec<char> = Vec::new();
        push_range(&mut line, indent, 0, indent.len());
        push_range(&mut line, &tokens[i].text, 0, tokens[i].text.len());
        i += 1;
        proof {
            assert(ind.subrange(0, ind.len() as int) =~= ind);
            assert(ts[start as int].subrange(0, ts[start as int].len() as int) =~= ts[start as int]);
            assert(ts.subrange(start as int, i as int) =~= seq![ts[start as int]]);
            assert(tail[0] == ts[start as int]);
            assert(tail.skip(1) =~= ts.skip(i as int));
        }
        while i < tokens.len() && line.len() < width && tokens[i].text.len() <= width - line.len()
            - 1
            invariant
                start < i <= tokens.len(),
                ts == texts(tokens@),
                ind == indent@,
                w == column_length as int,
                width == column_length as usize,
                tail == ts.skip(start as int),
                line@ == ind + join(ts.subrange(start as int, i as int)),
                first_count(tail, ind.len() as int, w) == (i - start) + extra(
                    ts.skip(i as int),
                    line@.len() as int,
                    w,
                ),
            decreases tokens.len() - i,
        {
            let ghost sofar = ts.subrange(start as int, i as int);
            let ghost rest = ts.skip(i as int);
            assert(rest[0] == ts[i as int]);
            assert(rest.skip(1) =~= ts.skip(i + 1));
            line.push(' ');
            push_range(&mut line, &tokens[i].text, 0, tokens[i].text.len());
            proof {
                assert(ts[i as int].subrange(0, ts[i as int].len() as int) =~= ts[i as int]);
                assert(ts.subrange(start as int, i + 1) =~= sofar.push(ts[i as int]));
                lemma_join_push(sofar, ts[i as int]);
                assert(line@ =~= ind + (join(sofar) + seq![' '] + ts[i as int]));
            }
            i += 1;
        }
        let ghost n = i - start;
        proof {
            lemma_extra_bound(tail.skip(1), (ind.len() + tail[0].len()) as int, w);
            assert(first_count(tail, ind.len() as int, w) == n);
            assert(tail.take(n) =~= ts.subrange(start as int, i as int));
            assert(tail.skip(n) =~= ts.skip(i as int));
            assert(wrapped(tail, ind, w) == seq![line@] + wrapped(ts.skip(i as int), ind, w));
        }
        let ghost before = lines.deep_view();
        lines.push(line);
        proof {
            assert(lines.deep_view() =~= before.push(line@));
            assert(before.push(line@) + wrapped(ts.skip(i as int), ind, w) =~= before + wrapped(
                tail,
                ind,
                w,
            ));
        }
    }
    proof {
        assert(ts.skip(i as int) =~= Seq::<Seq<char>>::empty());
        assert(lines.deep_view() + Seq::<Seq<char>>::empty() =~= lines.deep_view());
        lemma_wrapped_width(ts, ind, w);
        lemma_wrapped_indent(ts, ind, w);
        assert forall|i: int| 0 <= i < lines.len() implies indent@.is_prefix_of(
            #[trigger] lines[i]@,
        ) by {
            assert(lines[i]@ == lines.deep_view()[i]);
        }
        assert forall|i: int| 0 <= i < lines.len() implies (#[trigger] lines[i]@).len()
            <= column_length || lone(lines[i]@, texts(tokens@), indent@) by {
            assert(lines[i]@ == lines.deep_view()[i]);
        }
    }
    lines
}

} // verus!
