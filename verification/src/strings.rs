//! Strings as sequences of characters, and a text as lines.

use crate::text::{lemma_line_view, lemma_span_bounds, lemma_span_is, push_range, span};
use vstd::prelude::*;
use vstd::std_specs::iter::IteratorSpec;

verus! {

broadcast use lemma_line_view;

/// `String::push` appends one character to the end of the string and changes
/// nothing else of it.
pub assume_specification[ String::push ](s: &mut String, c: char)
    ensures
        final(s)@ == old(s)@.push(c),
;

/// The lines of the text `s`: what stands between its line feeds. A text
/// without a line feed is one line, and a text that ends with a line feed
/// ends with an empty line.
pub open spec fn split_lines(s: Seq<char>) -> Seq<Seq<char>>
    decreases s.len(),
{
    proof {
        lemma_span_bounds(s, '\n');
    }
    let n = span(s, '\n') as int;
    if n == s.len() {
        seq![s]
    } else {
        seq![s.take(n)] + split_lines(s.skip(n + 1))
    }
}

/// `lines` one after the other, with a line feed between two of them.
pub open spec fn join_lines(lines: Seq<Seq<char>>) -> Seq<char>
    decreases lines.len(),
{
    if lines.len() == 0 {
        Seq::empty()
    } else if lines.len() == 1 {
        lines[0]
    } else {
        lines[0] + seq!['\n'] + join_lines(lines.skip(1))
    }
}

/// Whether `s` holds no line feed.
pub open spec fn single_line(s: Seq<char>) -> bool {
    forall|i: int| 0 <= i < s.len() ==> #[trigger] s[i] != '\n'
}

/// Whether none of `lines` holds a line feed.
pub open spec fn all_single(lines: Seq<Seq<char>>) -> bool {
    forall|i: int| 0 <= i < lines.len() ==> single_line(#[trigger] lines[i])
}

/// Joining one more line.
pub proof fn lemma_join_lines_push(lines: Seq<Seq<char>>, x: Seq<char>)
    ensures
        join_lines(lines.push(x)) == if lines.len() == 0 {
            x
        } else {
            join_lines(lines) + seq!['\n'] + x
        },
    decreases lines.len(),
{
    let all = lines.push(x);
    if lines.len() == 0 {
    } else if lines.len() == 1 {
        assert(all.skip(1) =~= seq![x]);
        assert(join_lines(all.skip(1)) == x);
    } else {
        assert(all.skip(1) =~= lines.skip(1).push(x));
        lemma_join_lines_push(lines.skip(1), x);
        assert(join_lines(all) =~= join_lines(lines) + seq!['\n'] + x);
    }
}

/// A text split into lines and joined again is the text.
pub proof fn lemma_join_split(s: Seq<char>)
    ensures
        join_lines(split_lines(s)) == s,
    decreases s.len(),
{
    lemma_span_bounds(s, '\n');
    let n = span(s, '\n') as int;
    if n < s.len() {
        let rest = split_lines(s.skip(n + 1));
        lemma_join_split(s.skip(n + 1));
        lemma_split_some(s.skip(n + 1));
        let all = split_lines(s);
        assert(all.skip(1) =~= rest);
        assert(all[0] == s.take(n));
        assert(s =~= s.take(n) + seq!['\n'] + s.skip(n + 1));
    }
}

/// The lines of a text hold no line feed.
pub proof fn lemma_split_single(s: Seq<char>)
    ensures
        all_single(split_lines(s)),
    decreases s.len(),
{
    lemma_span_bounds(s, '\n');
    let n = span(s, '\n') as int;
    let first = s.take(n);
    assert forall|i: int| 0 <= i < first.len() implies #[trigger] first[i] != '\n' by {
        assert(first[i] == s[i]);
    }
    if n < s.len() {
        lemma_split_single(s.skip(n + 1));
        let rest = split_lines(s.skip(n + 1));
        let all = split_lines(s);
        assert forall|i: int| 0 <= i < all.len() implies single_line(#[trigger] all[i]) by {
            if i > 0 {
                assert(all[i] == rest[i - 1]);
            }
        }
    } else {
        assert(first =~= s);
    }
}

/// Lines without line feeds, of which there is at least one, joined and
/// split again, are themselves.
pub proof fn lemma_split_join(lines: Seq<Seq<char>>)
    requires
        lines.len() >= 1,
        all_single(lines),
    ensures
        split_lines(join_lines(lines)) == lines,
    decreases lines.len(),
{
    let s = join_lines(lines);
    let first = lines[0];
    assert(single_line(first));
    if lines.len() == 1 {
        lemma_span_is(s, '\n', s.len() as int);
        assert(split_lines(s) =~= lines);
    } else {
        let rest = lines.skip(1);
        assert forall|i: int| 0 <= i < rest.len() implies single_line(#[trigger] rest[i]) by {
            assert(rest[i] == lines[i + 1]);
        }
        lemma_split_join(rest);
        let n = first.len() as int;
        assert forall|i: int| 0 <= i < n implies #[trigger] s[i] != '\n' by {
            assert(s[i] == first[i]);
        }
        assert(s[n] == '\n');
        lemma_span_is(s, '\n', n);
        assert(s.take(n) =~= first);
        assert(s.skip(n + 1) =~= join_lines(rest));
        assert(split_lines(s) =~= lines);
    }
}

/// Every text has a line.
pub proof fn lemma_split_some(s: Seq<char>)
    ensures
        split_lines(s).len() >= 1,
{
    lemma_span_bounds(s, '\n');
}

/// The characters of `s`.
pub fn chars_of(s: &str) -> (out: Vec<char>)
    ensures
        out@ == s@,
{
    let mut out: Vec<char> = Vec::new();
    let mut it = s.chars();
    assert(out@ + it.remaining() =~= s@);
    loop
        invariant
            out@ + it.remaining() == s@,
            it.obeys_prophetic_iter_laws(),
            it.decrease() is Some,
        ensures
            out@ == s@,
        decreases it.decrease()->0,
    {
        let ghost before = it.remaining();
        match it.next() {
            Some(c) => {
                out.push(c);
                assert(out@ + it.remaining() =~= s@);
            },
            None => {
                assert(out@ + before =~= out@);
                break ;
            },
        }
    }
    out
}

/// The string that holds the characters `v`.
pub fn string_of(v: &Vec<char>) -> (out: String)
    ensures
        out@ == v@,
{
    let mut out = String::new();
    let mut i: usize = 0;
    while i < v.len()
        invariant
            i <= v.len(),
            out@ == v@.take(i as int),
        decreases v.len() - i,
    {
        out.push(v[i]);
        i += 1;
        assert(out@ =~= v@.take(i as int));
    }
    assert(v@.take(i as int) =~= v@);
    out
}

/// Splits `text` at its line feeds.
pub fn lines_of(text: &Vec<char>) -> (out: Vec<Vec<char>>)
    ensures
        out.deep_view() == split_lines(text@),
{
    let mut out: Vec<Vec<char>> = Vec::new();
    let mut start: usize = 0;
    let mut i: usize = 0;
    assert(text@.skip(0) =~= text@);
    assert(out.deep_view() + split_lines(text@) =~= split_lines(text@));
    while i < text.len()
        invariant
            start <= i <= text.len(),
            forall|j: int| start <= j < i ==> #[trigger] text@[j] != '\n',
            out.deep_view() + split_lines(text@.skip(start as int)) == split_lines(text@),
        decreases text.len() - i,
    {
        if text[i] == '\n' {
            let ghost rest = text@.skip(start as int);
            let mut line: Vec<char> = Vec::new();
            push_range(&mut line, text, start, i);
            proof {
                assert forall|j: int| 0 <= j < i - start implies #[trigger] rest[j] != '\n' by {
                    assert(rest[j] == text@[start + j]);
                }
                assert(rest[i - start] == text@[i as int]);
                lemma_span_is(rest, '\n', i - start);
                assert(rest.take(i - start) =~= line@);
                assert(rest.skip(i - start + 1) =~= text@.skip(i + 1));
            }
            let ghost before = out.deep_view();
            out.push(line);
            proof {
                assert(out.deep_view() =~= before.push(line@));
                assert(before.push(line@) + split_lines(text@.skip(i + 1)) =~= before
                    + split_lines(rest));
            }
            start = i + 1;
        }
        i += 1;
    }
    let ghost rest = text@.skip(start as int);
    let mut line: Vec<char> = Vec::new();
    push_range(&mut line, text, start, i);
    proof {
        assert forall|j: int| 0 <= j < rest.len() implies #[trigger] rest[j] != '\n' by {
            assert(rest[j] == text@[start + j]);
        }
        lemma_span_is(rest, '\n', rest.len() as int);
        assert(rest =~= line@);
    }
    let ghost before = out.deep_view();
    out.push(line);
    proof {
        assert(out.deep_view() =~= before.push(line@));
        assert(before.push(line@) =~= before + split_lines(rest));
    }
    out
}

/// Joins `lines` with line feeds.
pub fn text_of_lines(lines: &Vec<Vec<char>>) -> (out: Vec<char>)
    ensures
        out@ == join_lines(lines.deep_view()),
{
    let mut out: Vec<char> = Vec::new();
    let mut i: usize = 0;
    assert(lines.deep_view().take(0) =~= Seq::<Seq<char>>::empty());
    while i < lines.len()
        invariant
            i <= lines.len(),
            out@ == join_lines(lines.deep_view().take(i as int)),
        decreases lines.len() - i,
    {
        if i > 0 {
            out.push('\n');
        }
        let line = &lines[i];
        push_range(&mut out, line, 0, line.len());
        proof {
            let done = lines.deep_view().take(i as int);
            assert(line@.subrange(0, line@.len() as int) =~= line@);
            assert(lines.deep_view().take(i + 1) =~= done.push(line@));
            lemma_join_lines_push(done, line@);
            assert(out@ =~= join_lines(done.push(line@)));
        }
        i += 1;
    }
    assert(lines.deep_view().take(i as int) =~= lines.deep_view());
    out
}

} // verus!
