//! No word is lost, doubled or moved.

use crate::classify::{kind, lemma_kind_state, next_state, LineKind};
use crate::laws::runs::{lemma_grouped_valid, whole};
use crate::reflow::{lemma_prose_run_bound, prose_run, reflowed, rewrapped};
use crate::syntax::Markers;
use crate::text::{blank, lead, lemma_lead_bounds, space};
use crate::tokenize::{grouped, joined, token_texts};
use crate::unwrap::{
    bodies, body, ends_blank, indent_of, lemma_min_lead_le, min_lead, paragraph, text_of,
};
use crate::words::{
    all_words, join, lemma_words_after_blank, lemma_words_are_words, lemma_words_blank,
    lemma_words_join, lemma_words_of_concat, lemma_words_of_one, lemma_words_of_words,
    lemma_words_skip_lead, lemma_words_trim_end, words, words_of,
};
use crate::wrap::{first_count, lemma_extra_bound, wrapped};
use vstd::prelude::*;

verus! {

/// The words of runs joined into texts are the words of the runs.
pub proof fn lemma_words_of_joined(rs: Seq<Seq<Seq<char>>>)
    requires
        forall|i: int| 0 <= i < rs.len() ==> all_words(#[trigger] rs[i]),
    ensures
        words_of(joined(rs)) == rs.flatten(),
    decreases rs.len(),
{
    if rs.len() == 0 {
        assert(words_of(joined(rs)) =~= rs.flatten());
    } else {
        let rest = rs.drop_first();
        assert forall|i: int| 0 <= i < rest.len() implies all_words(#[trigger] rest[i]) by {
            assert(rest[i] == rs[i + 1]);
        }
        lemma_words_of_joined(rest);
        assert(joined(rs).skip(1) =~= joined(rest));
        assert(joined(rs)[0] == join(rs[0]));
        lemma_words_join(rs[0]);
        lemma_words_of_words(rs[0]);
    }
}

/// The tokens of a text hold its words, in order.
pub proof fn lemma_token_words(text: Seq<char>)
    ensures
        words_of(token_texts(text)) == words(text),
{
    lemma_words_are_words(text);
    lemma_grouped_valid(words(text));
    let rs = grouped(words(text));
    assert forall|i: int| 0 <= i < rs.len() implies all_words(#[trigger] rs[i]) by {
        assert(whole(rs[i]));
    }
    lemma_words_of_joined(rs);
}

/// The lines that tokens are packed into hold the words of the tokens.
pub proof fn lemma_wrapped_words(ts: Seq<Seq<char>>, indent: Seq<char>, width: int)
    requires
        blank(indent),
    ensures
        words_of(wrapped(ts, indent, width)) == words_of(ts),
    decreases ts.len(),
{
    if ts.len() > 0 {
        lemma_extra_bound(ts.skip(1), (indent.len() + ts[0].len()) as int, width);
        let n = first_count(ts, indent.len() as int, width) as int;
        let head = ts.take(n);
        let tail = ts.skip(n);
        let all = wrapped(ts, indent, width);
        lemma_wrapped_words(tail, indent, width);
        assert(all.skip(1) =~= wrapped(tail, indent, width));
        assert(all[0] == indent + join(head));
        lemma_words_after_blank(indent, join(head));
        lemma_words_join(head);
        lemma_words_of_concat(head, tail);
        assert(head + tail =~= ts);
    }
}

/// The bodies of lines hold the words of the lines.
pub proof fn lemma_bodies_words(lines: Seq<Seq<char>>, m: int)
    requires
        0 <= m,
        forall|i: int| 0 <= i < lines.len() ==> m <= lead(#[trigger] lines[i]),
    ensures
        words_of(bodies(lines, m)) == words_of(lines),
    decreases lines.len(),
{
    if lines.len() > 0 {
        let rest = lines.skip(1);
        assert forall|i: int| 0 <= i < rest.len() implies m <= lead(#[trigger] rest[i]) by {
            assert(rest[i] == lines[i + 1]);
        }
        assert(m <= lead(lines[0]));
        lemma_bodies_words(rest, m);
        assert(bodies(lines, m).skip(1) =~= bodies(rest, m));
        assert(bodies(lines, m)[0] == body(lines[0], m));
        lemma_lead_bounds(lines[0]);
        lemma_words_trim_end(lines[0].skip(m));
        lemma_words_skip_lead(lines[0], m);
    }
}

/// The text of a paragraph holds the words of its lines.
pub proof fn lemma_text_words(lines: Seq<Seq<char>>)
    ensures
        words(text_of(lines)) == words_of(lines),
{
    let p = paragraph(lines);
    let m = min_lead(p) as int;
    assert forall|i: int| 0 <= i < p.len() implies m <= lead(#[trigger] p[i]) by {
        lemma_min_lead_le(p, i);
    }
    lemma_bodies_words(p, m);
    lemma_words_join(bodies(p, m));
    if ends_blank(lines) {
        lemma_words_blank(lines.last());
        lemma_words_of_one(lines.last());
        lemma_words_of_concat(p, seq![lines.last()]);
        assert(p + seq![lines.last()] =~= lines);
        assert(words_of(p) + Seq::<Seq<char>>::empty() =~= words_of(p));
    }
}

/// The indentation of a paragraph is whitespace.
pub proof fn lemma_indent_blank(lines: Seq<Seq<char>>)
    ensures
        blank(indent_of(lines)),
{
    let p = paragraph(lines);
    if p.len() > 0 {
        lemma_min_lead_le(p, 0);
        lemma_lead_bounds(p[0]);
        let ind = indent_of(lines);
        assert forall|i: int| 0 <= i < ind.len() implies space(#[trigger] ind[i]) by {
            assert(ind[i] == p[0][i]);
        }
    }
}

/// A paragraph wrapped again holds the words that it held, in their order:
/// none is lost, none is doubled, none has moved.
pub proof fn lemma_rewrap_keeps_words(lines: Seq<Seq<char>>, width: int)
    ensures
        words_of(rewrapped(lines, width)) == words_of(lines),
{
    lemma_indent_blank(lines);
    lemma_wrapped_words(token_texts(text_of(lines)), indent_of(lines), width);
    lemma_token_words(text_of(lines));
    lemma_text_words(lines);
}

/// A reflowed document holds the words of the document, in their order.
pub proof fn lemma_reflow_keeps_words(m: Markers, doc: Seq<Seq<char>>, verbatim: bool, width: int)
    ensures
        words_of(reflowed(m, doc, verbatim, width)) == words_of(doc),
    decreases doc.len(),
{
    if doc.len() == 0 {
    } else if kind(m, doc[0], verbatim) != LineKind::Prose {
        let rest = reflowed(m, doc.skip(1), next_state(m, verbatim, doc[0]), width);
        lemma_reflow_keeps_words(m, doc.skip(1), next_state(m, verbatim, doc[0]), width);
        lemma_words_of_concat(seq![doc[0]], rest);
        lemma_words_of_one(doc[0]);
    } else {
        lemma_kind_state(m, doc[0], verbatim);
        lemma_prose_run_bound(m, doc.skip(1));
        let k = prose_run(m, doc) as int;
        lemma_reflow_keeps_words(m, doc.skip(k), false, width);
        lemma_rewrap_keeps_words(doc.take(k), width);
        lemma_words_of_concat(rewrapped(doc.take(k), width), reflowed(m, doc.skip(k), false, width));
        lemma_words_of_concat(doc.take(k), doc.skip(k));
        assert(doc.take(k) + doc.skip(k) =~= doc);
    }
}

} // verus!
