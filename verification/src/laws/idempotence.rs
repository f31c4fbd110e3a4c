//! A second reflow changes nothing.

use crate::classify::{kind, lemma_kind_state, next_state, LineKind};
use crate::laws::fidelity::{lemma_prose_run_props, lemma_reflow_split, state_after};
use crate::laws::occurrence::{all_free, lemma_rewrapped_free};
use crate::laws::packing::{consumed, lemma_joined_cut, lemma_rewrap_wrapped, lemma_wrapped_cut};
use crate::laws::preservation::lemma_indent_blank;
use crate::laws::runs::{lemma_grouped_valid, lemma_valid_runs_cut, valid_runs};
use crate::laws::lines::lemma_reflowed_single;
use crate::reflow::{lemma_prose_run_bound, prose_run, reflowed, reformatted, rewrapped};
use crate::strings::{lemma_split_join, lemma_split_single, lemma_split_some, split_lines};
use crate::syntax::{standard, Markers};
use crate::text::{blank, occurs, occurs_at, solid};
use crate::tokenize::{grouped, joined};
use crate::unwrap::{indent_of, text_of};
use crate::words::{lemma_words_are_words, words};
use crate::wrap::{lemma_extra_bound, wrapped};
use vstd::prelude::*;

verus! {

/// Lines that hold no opening marker open no block.
pub proof fn lemma_state_after_free(m: Markers, a: Seq<Seq<char>>)
    requires
        all_free(a, m.opener),
    ensures
        !state_after(m, a, false),
    decreases a.len(),
{
    if a.len() > 0 {
        let rest = a.skip(1);
        assert(!occurs(a[0], m.opener));
        assert(!next_state(m, false, a[0])) by {
            reveal(next_state);
        }
        assert forall|i: int| 0 <= i < rest.len() implies !occurs(#[trigger] rest[i], m.opener) by {
            assert(rest[i] == a[i + 1]);
        }
        lemma_state_after_free(m, rest);
    }
}

/// The lines of the tokens of valid runs, if none of them holds the opening
/// marker, are reflowed into themselves.
pub proof fn lemma_wrapped_fixed(
    m: Markers,
    rs: Seq<Seq<Seq<char>>>,
    indent: Seq<char>,
    width: int,
)
    requires
        valid_runs(rs),
        blank(indent),
        all_free(wrapped(joined(rs), indent, width), m.opener),
    ensures
        reflowed(m, wrapped(joined(rs), indent, width), false, width) == wrapped(
            joined(rs),
            indent,
            width,
        ),
    decreases rs.len(),
{
    let ts = joined(rs);
    let all = wrapped(ts, indent, width);
    if rs.len() > 0 {
        lemma_extra_bound(ts.skip(1), (indent.len() + ts[0].len()) as int, width);
        assert(all.len() > 0);
        let k: int = if kind(m, all[0], false) != LineKind::Prose {
            1
        } else {
            lemma_prose_run_bound(m, all.skip(1));
            prose_run(m, all) as int
        };
        lemma_wrapped_cut(ts, indent, width, k);
        let c = consumed(ts, indent.len() as int, width, k) as int;
        lemma_joined_cut(rs, c);
        lemma_valid_runs_cut(rs, c);
        let tail = all.skip(k);
        assert(tail == wrapped(joined(rs.skip(c)), indent, width));
        assert forall|i: int| 0 <= i < tail.len() implies !occurs(#[trigger] tail[i], m.opener) by {
            assert(tail[i] == all[k + i]);
        }
        lemma_wrapped_fixed(m, rs.skip(c), indent, width);
        if kind(m, all[0], false) != LineKind::Prose {
            assert(!occurs(all[0], m.opener));
            assert(!next_state(m, false, all[0])) by {
                reveal(next_state);
            }
            assert(reflowed(m, all, false, width) =~= all);
        } else {
            lemma_rewrap_wrapped(rs.take(c), indent, width);
            assert(all.take(k) + all.skip(k) =~= all);
        }
    }
}

/// Reflowing a reflowed document once more, to the same width, changes
/// nothing. The opening marker must hold no whitespace: else lines that are
/// wrapped together could make one that opens a block.
pub proof fn lemma_reflow_idempotent(m: Markers, doc: Seq<Seq<char>>, verbatim: bool, width: int)
    requires
        solid(m.opener),
    ensures
        reflowed(m, reflowed(m, doc, verbatim, width), verbatim, width) == reflowed(
            m,
            doc,
            verbatim,
            width,
        ),
    decreases doc.len(),
{
    let once = reflowed(m, doc, verbatim, width);
    if doc.len() == 0 {
    } else if kind(m, doc[0], verbatim) != LineKind::Prose {
        let next = next_state(m, verbatim, doc[0]);
        let rest = reflowed(m, doc.skip(1), next, width);
        lemma_reflow_idempotent(m, doc.skip(1), next, width);
        assert(once == seq![doc[0]] + rest);
        assert(once[0] == doc[0]);
        assert(once.skip(1) =~= rest);
    } else {
        lemma_kind_state(m, doc[0], verbatim);
        lemma_prose_run_props(m, doc);
        let k = prose_run(m, doc) as int;
        let para = doc.take(k);
        let rest = doc.skip(k);
        let fresh = rewrapped(para, width);
        let after = reflowed(m, rest, false, width);
        assert(once == fresh + after);
        assert(occurs_at(doc[0], Seq::<char>::empty(), 0)) by {
            assert(doc[0].subrange(0, 0) =~= Seq::<char>::empty());
        }
        assert(m.opener.len() > 0) by {
            if m.opener.len() == 0 {
                assert(m.opener =~= Seq::<char>::empty());
                assert(occurs(doc[0], m.opener));
            }
        }
        assert forall|i: int| 0 <= i < para.len() implies !occurs(#[trigger] para[i], m.opener) by {
            assert(para[i] == doc[i]);
            lemma_kind_state(m, doc[i], false);
        }
        lemma_rewrapped_free(para, m.opener, width);
        lemma_indent_blank(para);
        lemma_words_are_words(text_of(para));
        let rs = grouped(words(text_of(para)));
        lemma_grouped_valid(words(text_of(para)));
        assert(fresh == wrapped(joined(rs), indent_of(para), width));
        lemma_wrapped_fixed(m, rs, indent_of(para), width);
        lemma_state_after_free(m, fresh);
        lemma_reflow_idempotent(m, rest, false, width);
        if rest.len() > 0 {
            assert(rest[0] == doc[k]);
            assert(after[0] == rest[0]);
        }
        lemma_reflow_split(m, fresh, after, false, width);
    }
}

/// In the standard syntax a second reflow changes nothing, whatever the
/// document and the width.
pub proof fn lemma_standard_idempotent(doc: Seq<Seq<char>>, width: int)
    ensures
        reflowed(standard(), reflowed(standard(), doc, false, width), false, width) == reflowed(
            standard(),
            doc,
            false,
            width,
        ),
{
    lemma_reflow_idempotent(standard(), doc, false, width);
}

/// Reflowing a whole text a second time, to the same width, changes nothing:
/// what `reformat` gives is a fixed point of it.
pub proof fn lemma_reformat_idempotent(text: Seq<char>, width: int)
    ensures
        reformatted(reformatted(text, width), width) == reformatted(text, width),
{
    let lines = split_lines(text);
    let once = reflowed(standard(), lines, false, width);
    lemma_split_some(text);
    lemma_split_single(text);
    lemma_reflowed_single(standard(), lines, false, width);
    lemma_split_join(once);
    lemma_standard_idempotent(lines, width);
}

} // verus!
