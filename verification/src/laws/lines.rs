//! What comes out of a reflow is lines: at least one where there was one, and
//! none with a line feed in it where there was none.

use crate::classify::{kind, lemma_kind_state, next_state, LineKind};
use crate::laws::preservation::lemma_text_words;
use crate::laws::runs::{lemma_grouped_valid, whole};
use crate::reflow::{lemma_prose_run_bound, prose_run, reflowed, rewrapped};
use crate::strings::{all_single, single_line};
use crate::syntax::Markers;
use crate::text::{blank, lemma_lead_bounds, space};
use crate::tokenize::{grouped, joined, token_texts};
use crate::unwrap::{indent_of, lemma_min_lead_le, paragraph, text_of};
use crate::words::{is_word, join, lemma_words_are_words, lemma_words_some, words, words_of};
use crate::wrap::{first_count, lemma_extra_bound, lemma_wrapped_len, wrapped};
use vstd::prelude::*;

verus! {

/// Parts without line feeds, joined by spaces, hold no line feed.
pub proof fn lemma_join_single(parts: Seq<Seq<char>>)
    requires
        all_single(parts),
    ensures
        single_line(join(parts)),
    decreases parts.len(),
{
    if parts.len() == 1 {
        assert(single_line(parts[0]));
    } else if parts.len() > 1 {
        let rest = parts.skip(1);
        assert forall|i: int| 0 <= i < rest.len() implies single_line(#[trigger] rest[i]) by {
            assert(rest[i] == parts[i + 1]);
        }
        lemma_join_single(rest);
        assert(single_line(parts[0]));
        let s = join(parts);
        let n = parts[0].len() as int;
        assert forall|i: int| 0 <= i < s.len() implies #[trigger] s[i] != '\n' by {
            if i < n {
                assert(s[i] == parts[0][i]);
            } else if i > n {
                assert(s[i] == join(rest)[i - n - 1]);
            }
        }
    }
}

/// The tokens of a text hold no line feed.
pub proof fn lemma_tokens_single(text: Seq<char>)
    ensures
        all_single(token_texts(text)),
{
    lemma_words_are_words(text);
    lemma_grouped_valid(words(text));
    let rs = grouped(words(text));
    assert forall|i: int| 0 <= i < joined(rs).len() implies single_line(#[trigger] joined(rs)[i]) by {
        let r = rs[i];
        assert(whole(r));
        assert forall|j: int| 0 <= j < r.len() implies single_line(#[trigger] r[j]) by {
            assert(is_word(r[j]));
            assert forall|k: int| 0 <= k < r[j].len() implies #[trigger] r[j][k] != '\n' by {
                assert(!space(r[j][k]));
            }
        }
        lemma_join_single(r);
    }
}

/// Tokens and an indentation without line feeds are packed into lines
/// without line feeds.
pub proof fn lemma_wrapped_single(ts: Seq<Seq<char>>, indent: Seq<char>, width: int)
    requires
        all_single(ts),
        single_line(indent),
    ensures
        all_single(wrapped(ts, indent, width)),
    decreases ts.len(),
{
    if ts.len() > 0 {
        lemma_extra_bound(ts.skip(1), (indent.len() + ts[0].len()) as int, width);
        let n = first_count(ts, indent.len() as int, width) as int;
        let head = ts.take(n);
        let tail = ts.skip(n);
        assert forall|i: int| 0 <= i < tail.len() implies single_line(#[trigger] tail[i]) by {
            assert(tail[i] == ts[n + i]);
        }
        assert forall|i: int| 0 <= i < head.len() implies single_line(#[trigger] head[i]) by {
            assert(head[i] == ts[i]);
        }
        lemma_wrapped_single(tail, indent, width);
        lemma_join_single(head);
        let all = wrapped(ts, indent, width);
        let rest = wrapped(tail, indent, width);
        let line = indent + join(head);
        assert forall|k: int| 0 <= k < line.len() implies #[trigger] line[k] != '\n' by {
            if k < indent.len() {
                assert(line[k] == indent[k]);
            } else {
                assert(line[k] == join(head)[k - indent.len()]);
            }
        }
        assert forall|i: int| 0 <= i < all.len() implies single_line(#[trigger] all[i]) by {
            if i > 0 {
                assert(all[i] == rest[i - 1]);
            }
        }
    }
}

/// A paragraph of lines without line feeds is wrapped into lines without
/// line feeds.
pub proof fn lemma_rewrapped_single(lines: Seq<Seq<char>>, width: int)
    requires
        all_single(lines),
    ensures
        all_single(rewrapped(lines, width)),
{
    lemma_tokens_single(text_of(lines));
    let p = paragraph(lines);
    let ind = indent_of(lines);
    if p.len() > 0 {
        assert(p[0] == lines[0]);
        assert(single_line(lines[0]));
        lemma_min_lead_le(p, 0);
        lemma_lead_bounds(p[0]);
        assert forall|k: int| 0 <= k < ind.len() implies #[trigger] ind[k] != '\n' by {
            assert(ind[k] == p[0][k]);
        }
    }
    lemma_wrapped_single(token_texts(text_of(lines)), ind, width);
}

/// A paragraph whose first line is not blank is wrapped into at least one
/// line.
pub proof fn lemma_rewrapped_some(lines: Seq<Seq<char>>, width: int)
    requires
        lines.len() > 0,
        !blank(lines[0]),
    ensures
        rewrapped(lines, width).len() > 0,
{
    lemma_words_some(lines[0]);
    lemma_text_words(lines);
    let ws = words(text_of(lines));
    assert(words_of(lines).len() >= words(lines[0]).len());
    assert(ws.len() > 0);
    assert(grouped(ws).len() > 0);
    lemma_wrapped_len(token_texts(text_of(lines)), indent_of(lines), width);
}

/// What a document of lines without line feeds becomes holds no line feed in
/// any of its lines, and is not empty unless the document is.
pub proof fn lemma_reflowed_single(m: Markers, doc: Seq<Seq<char>>, verbatim: bool, width: int)
    requires
        all_single(doc),
    ensures
        all_single(reflowed(m, doc, verbatim, width)),
        doc.len() > 0 ==> reflowed(m, doc, verbatim, width).len() > 0,
    decreases doc.len(),
{
    let out = reflowed(m, doc, verbatim, width);
    if doc.len() == 0 {
    } else if kind(m, doc[0], verbatim) != LineKind::Prose {
        let tail = doc.skip(1);
        assert forall|i: int| 0 <= i < tail.len() implies single_line(#[trigger] tail[i]) by {
            assert(tail[i] == doc[i + 1]);
        }
        let next = next_state(m, verbatim, doc[0]);
        lemma_reflowed_single(m, tail, next, width);
        let rest = reflowed(m, tail, next, width);
        assert(single_line(doc[0]));
        assert forall|i: int| 0 <= i < out.len() implies single_line(#[trigger] out[i]) by {
            if i > 0 {
                assert(out[i] == rest[i - 1]);
            }
        }
    } else {
        lemma_kind_state(m, doc[0], verbatim);
        lemma_prose_run_bound(m, doc.skip(1));
        let k = prose_run(m, doc) as int;
        let para = doc.take(k);
        let tail = doc.skip(k);
        assert forall|i: int| 0 <= i < tail.len() implies single_line(#[trigger] tail[i]) by {
            assert(tail[i] == doc[k + i]);
        }
        assert forall|i: int| 0 <= i < para.len() implies single_line(#[trigger] para[i]) by {
            assert(para[i] == doc[i]);
        }
        lemma_reflowed_single(m, tail, false, width);
        lemma_rewrapped_single(para, width);
        assert(!blank(doc[0])) by {
            reveal(kind);
        }
        assert(para[0] == doc[0]);
        lemma_rewrapped_some(para, width);
        let fresh = rewrapped(para, width);
        let rest = reflowed(m, tail, false, width);
        assert forall|i: int| 0 <= i < out.len() implies single_line(#[trigger] out[i]) by {
            if i < fresh.len() {
                assert(out[i] == fresh[i]);
            } else {
                assert(out[i] == rest[i - fresh.len()]);
            }
        }
    }
}

} // verus!
