//! Lines that are packed already are packed into themselves.

use crate::laws::preservation::lemma_words_of_joined;
use crate::laws::runs::{lemma_regroup, valid_runs, whole};
use crate::reflow::rewrapped;
use crate::text::{blank, lead, space, trim_end};
use crate::tokenize::{joined, token_texts};
use crate::unwrap::{bodies, indent_of, lemma_min_lead_is, paragraph, text_of};
use crate::words::{all_words, is_word, join, lemma_join_concat, lemma_words_join, words};
use crate::wrap::{
    all_trimmed, extra, first_count, lemma_extra_bound, lemma_join_first, lemma_join_last,
    lemma_wrapped_indent, lemma_wrapped_len, trimmed, wrapped,
};
use vstd::prelude::*;

verus! {

/// The number of tokens that the first `k` lines hold.
pub open spec fn consumed(ts: Seq<Seq<char>>, indent_len: int, width: int, k: int) -> nat
    decreases k,
{
    if k <= 0 || ts.len() == 0 {
        0
    } else {
        let n = first_count(ts, indent_len, width);
        n + consumed(ts.skip(n as int), indent_len, width, k - 1)
    }
}

/// Tokens that are not there do not change what goes on a line.
pub proof fn lemma_extra_take(ts: Seq<Seq<char>>, used: int, width: int, j: int)
    requires
        extra(ts, used, width) <= j <= ts.len(),
    ensures
        extra(ts.take(j), used, width) == extra(ts, used, width),
    decreases ts.len(),
{
    let front = ts.take(j);
    if ts.len() > 0 && used + 1 + ts[0].len() <= width {
        assert(front[0] == ts[0]);
        lemma_extra_take(ts.skip(1), used + 1 + ts[0].len(), width, j - 1);
        assert(front.skip(1) =~= ts.skip(1).take(j - 1));
    } else if j > 0 {
        assert(front[0] == ts[0]);
    }
}

/// The lines of some tokens can be cut after any of them: the lines before
/// the cut are the lines of the tokens that they hold, and the lines after it
/// are the lines of the other tokens.
pub proof fn lemma_wrapped_cut(ts: Seq<Seq<char>>, indent: Seq<char>, width: int, k: int)
    requires
        0 <= k <= wrapped(ts, indent, width).len(),
    ensures
        consumed(ts, indent.len() as int, width, k) <= ts.len(),
        k >= 1 ==> consumed(ts, indent.len() as int, width, k) >= 1,
        wrapped(ts, indent, width).take(k) == wrapped(
            ts.take(consumed(ts, indent.len() as int, width, k) as int),
            indent,
            width,
        ),
        wrapped(ts, indent, width).skip(k) == wrapped(
            ts.skip(consumed(ts, indent.len() as int, width, k) as int),
            indent,
            width,
        ),
    decreases k,
{
    let all = wrapped(ts, indent, width);
    let c = consumed(ts, indent.len() as int, width, k) as int;
    if k == 0 || ts.len() == 0 {
        assert(ts.take(0) =~= Seq::<Seq<char>>::empty());
        assert(ts.skip(0) =~= ts);
        assert(all.take(k) =~= Seq::<Seq<char>>::empty());
        assert(all.skip(k) =~= all);
    } else {
        let used = (indent.len() + ts[0].len()) as int;
        lemma_extra_bound(ts.skip(1), used, width);
        let n = first_count(ts, indent.len() as int, width) as int;
        let tail = ts.skip(n);
        let rest = wrapped(tail, indent, width);
        assert(all.skip(1) =~= rest);
        lemma_wrapped_cut(tail, indent, width, k - 1);
        let c1 = consumed(tail, indent.len() as int, width, k - 1) as int;
        assert(c == n + c1);
        assert(tail.skip(c1) =~= ts.skip(c));
        assert(all.skip(k) =~= rest.skip(k - 1));
        let front = ts.take(c);
        assert(front[0] == ts[0]);
        assert(front.skip(1) =~= ts.skip(1).take(c - 1));
        lemma_extra_take(ts.skip(1), used, width, c - 1);
        assert(first_count(front, indent.len() as int, width) == n);
        assert(front.take(n) =~= ts.take(n));
        assert(front.skip(n) =~= tail.take(c1));
        assert(all.take(k) =~= seq![all[0]] + rest.take(k - 1));
        assert(wrapped(front, indent, width) =~= all.take(k));
    }
}

/// A line that ends with no whitespace has nothing to trim.
pub proof fn lemma_trim_end_none(s: Seq<char>)
    requires
        s.len() > 0,
        !space(s.last()),
    ensures
        trim_end(s) == s,
{
    assert(s.take(s.len() as int) =~= s);
}

/// The texts of runs of words are trimmed.
pub proof fn lemma_joined_trimmed(rs: Seq<Seq<Seq<char>>>)
    requires
        forall|i: int| 0 <= i < rs.len() ==> (#[trigger] rs[i]).len() > 0 && all_words(rs[i]),
    ensures
        all_trimmed(joined(rs)),
{
    assert forall|i: int| 0 <= i < joined(rs).len() implies trimmed(#[trigger] joined(rs)[i]) by {
        let r = rs[i];
        assert(is_word(r[0]));
        assert(is_word(r[r.len() - 1]));
        assert(!space(r[0][0]));
        assert(!space(r.last()[r.last().len() - 1]));
        lemma_join_first(r);
        lemma_join_last(r);
    }
}

/// The lines of trimmed tokens, without their indentation, joined again, are
/// the tokens joined.
pub proof fn lemma_bodies_wrapped(ts: Seq<Seq<char>>, indent: Seq<char>, width: int)
    requires
        ts.len() > 0,
        all_trimmed(ts),
    ensures
        join(bodies(wrapped(ts, indent, width), indent.len() as int)) == join(ts),
    decreases ts.len(),
{
    let m = indent.len() as int;
    lemma_extra_bound(ts.skip(1), (indent.len() + ts[0].len()) as int, width);
    let n = first_count(ts, m, width) as int;
    let head = ts.take(n);
    let tail = ts.skip(n);
    let all = wrapped(ts, indent, width);
    let rest = wrapped(tail, indent, width);
    assert(all.skip(1) =~= rest);
    assert(all[0] == indent + join(head));
    assert(all[0].skip(m) =~= join(head));
    assert(head.last() == ts[n - 1]);
    assert(trimmed(ts[n - 1]));
    lemma_join_last(head);
    lemma_trim_end_none(join(head));
    let bs = bodies(all, m);
    assert(bs[0] == join(head));
    assert(bs.skip(1) =~= bodies(rest, m));
    if tail.len() == 0 {
        assert(head =~= ts);
        assert(rest.len() == 0);
        assert(bs.len() == 1);
    } else {
        assert forall|j: int| 0 <= j < tail.len() implies trimmed(#[trigger] tail[j]) by {
            assert(tail[j] == ts[n + j]);
        }
        lemma_bodies_wrapped(tail, indent, width);
        lemma_wrapped_len(tail, indent, width);
        assert(bs.len() >= 2);
        lemma_join_concat(head, tail);
        assert(head + tail =~= ts);
    }
}

/// The lines of the tokens of valid runs make a paragraph with the indentation
/// `indent` and the tokens, joined, as its text.
pub proof fn lemma_unwrap_wrapped(rs: Seq<Seq<Seq<char>>>, indent: Seq<char>, width: int)
    requires
        valid_runs(rs),
        rs.len() > 0,
        blank(indent),
    ensures
        indent_of(wrapped(joined(rs), indent, width)) == indent,
        text_of(wrapped(joined(rs), indent, width)) == join(joined(rs)),
{
    let ts = joined(rs);
    let all = wrapped(ts, indent, width);
    assert forall|i: int| 0 <= i < rs.len() implies (#[trigger] rs[i]).len() > 0 && all_words(
        rs[i],
    ) by {
        assert(whole(rs[i]));
    }
    lemma_joined_trimmed(rs);
    lemma_wrapped_len(ts, indent, width);
    lemma_wrapped_indent(ts, indent, width);
    let last = all.last();
    assert(last == all[all.len() - 1]);
    assert(!space(last[last.len() - 1]));
    assert(!blank(last));
    assert(paragraph(all) == all);
    assert(lead(all[0]) == indent.len());
    lemma_min_lead_is(all, indent.len());
    assert(indent.is_prefix_of(all[0]));
    assert(all[0].take(indent.len() as int) =~= indent);
    lemma_bodies_wrapped(ts, indent, width);
}

/// The lines of the tokens of valid runs, wrapped again to the same width,
/// are themselves.
pub proof fn lemma_rewrap_wrapped(rs: Seq<Seq<Seq<char>>>, indent: Seq<char>, width: int)
    requires
        valid_runs(rs),
        blank(indent),
    ensures
        rewrapped(wrapped(joined(rs), indent, width), width) == wrapped(
            joined(rs),
            indent,
            width,
        ),
{
    let ts = joined(rs);
    if rs.len() == 0 {
        let none = Seq::<Seq<char>>::empty();
        assert(wrapped(ts, indent, width) =~= none);
        assert(paragraph(none) =~= none);
        assert(bodies(none, 0) =~= none);
        assert(text_of(none) =~= Seq::<char>::empty());
        assert(words(text_of(none)) =~= none);
        assert(token_texts(text_of(none)) =~= none);
    } else {
        lemma_unwrap_wrapped(rs, indent, width);
        assert forall|i: int| 0 <= i < rs.len() implies all_words(#[trigger] rs[i]) by {
            assert(whole(rs[i]));
        }
        lemma_words_join(ts);
        lemma_words_of_joined(rs);
        lemma_regroup(rs);
    }
}

/// The tokens of the runs before a place, and of those from it on.
pub proof fn lemma_joined_cut(rs: Seq<Seq<Seq<char>>>, c: int)
    requires
        0 <= c <= rs.len(),
    ensures
        joined(rs).take(c) == joined(rs.take(c)),
        joined(rs).skip(c) == joined(rs.skip(c)),
{
    assert(joined(rs).take(c) =~= joined(rs.take(c)));
    assert(joined(rs).skip(c) =~= joined(rs.skip(c)));
}

} // verus!
