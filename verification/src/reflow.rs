//! The driver: a document reflowed segment by segment.

use crate::classify::{
    classify, kind, kind_at, lemma_kind_state, next_state, prose_end, segment_of, segmentation,
    verbatim_at, LineKind, Segment, SegmentKind,
};
use crate::strings::{chars_of, join_lines, lines_of, split_lines, string_of, text_of_lines};
use crate::syntax::{standard, Markers, Syntax};
use crate::text::{blank, lemma_line_view, push_range};
use crate::tokenize::{token_texts, tokenize};
use crate::unwrap::{ends_blank, indent_of, paragraph, text_of, unwrap};
use crate::wrap::{wrap, wrapped};
use vstd::prelude::*;
use vstd::slice::slice_subrange;

verus! {

broadcast use lemma_line_view;

/// The lines of the paragraph `lines`, wrapped again to `width` columns.
pub open spec fn rewrapped(lines: Seq<Seq<char>>, width: int) -> Seq<Seq<char>> {
    wrapped(token_texts(text_of(lines)), indent_of(lines), width)
}

/// The number of lines of prose that `doc` begins with.
pub open spec fn prose_run(m: Markers, doc: Seq<Seq<char>>) -> nat
    decreases doc.len(),
{
    if doc.len() == 0 || kind(m, doc[0], false) != LineKind::Prose {
        0
    } else {
        1 + prose_run(m, doc.skip(1))
    }
}

/// The document `doc` reflowed to `width` columns, `verbatim` telling whether
/// a block is open before its first line: a line that is no prose stays as it
/// is, and each longest run of prose is wrapped again.
pub open spec fn reflowed(m: Markers, doc: Seq<Seq<char>>, verbatim: bool, width: int) -> Seq<
    Seq<char>,
>
    decreases doc.len(),
{
    if doc.len() == 0 {
        Seq::empty()
    } else if kind(m, doc[0], verbatim) != LineKind::Prose {
        seq![doc[0]] + reflowed(m, doc.skip(1), next_state(m, verbatim, doc[0]), width)
    } else {
        proof {
            lemma_kind_state(m, doc[0], verbatim);
            lemma_prose_run_bound(m, doc.skip(1));
        }
        let k = prose_run(m, doc) as int;
        rewrapped(doc.take(k), width) + reflowed(m, doc.skip(k), false, width)
    }
}

/// The text `text` reflowed in the standard syntax: split at its line feeds,
/// its lines reflowed to `width` columns, and what comes out joined by line
/// feeds.
pub open spec fn reformatted(text: Seq<char>, width: int) -> Seq<char> {
    join_lines(reflowed(standard(), split_lines(text), false, width))
}

/// What the segment `seg` of `doc` becomes: its own lines where it is opaque;
/// where it is reflowable, its lines wrapped again, and after them the blank
/// line that ends it, if there is one.
pub open spec fn emitted(doc: Seq<Seq<char>>, seg: Segment, width: int) -> Seq<Seq<char>> {
    let lines = doc.subrange(seg.start as int, seg.end as int);
    match seg.kind {
        SegmentKind::Opaque => lines,
        SegmentKind::Reflowable => if ends_blank(lines) {
            rewrapped(lines, width).push(lines.last())
        } else {
            rewrapped(lines, width)
        },
    }
}

/// A run of prose is no longer than the document.
pub proof fn lemma_prose_run_bound(m: Markers, doc: Seq<Seq<char>>)
    ensures
        prose_run(m, doc) <= doc.len(),
    decreases doc.len(),
{
    if doc.len() > 0 && kind(m, doc[0], false) == LineKind::Prose {
        lemma_prose_run_bound(m, doc.skip(1));
    }
}

/// `prose_run` is the one `k` with only prose before line `k` and none at it.
pub proof fn lemma_prose_run_is(m: Markers, doc: Seq<Seq<char>>, k: int)
    requires
        0 <= k <= doc.len(),
        forall|i: int| 0 <= i < k ==> kind(m, #[trigger] doc[i], false) == LineKind::Prose,
        k < doc.len() ==> kind(m, doc[k], false) != LineKind::Prose,
    ensures
        prose_run(m, doc) == k,
    decreases k,
{
    if k > 0 {
        let rest = doc.skip(1);
        assert(kind(m, doc[0], false) == LineKind::Prose);
        assert forall|i: int| 0 <= i < k - 1 implies kind(m, #[trigger] rest[i], false)
            == LineKind::Prose by {
            assert(rest[i] == doc[i + 1]);
        }
        if k < doc.len() {
            assert(rest[k - 1] == doc[k]);
        }
        lemma_prose_run_is(m, rest, k - 1);
    }
}

/// Lines that are no prose pass through one by one.
pub proof fn lemma_opaque_run(m: Markers, doc: Seq<Seq<char>>, s: int, e: int, width: int)
    requires
        0 <= s <= e <= doc.len(),
        forall|i: int| s <= i < e ==> kind_at(m, doc, i) != LineKind::Prose,
    ensures
        reflowed(m, doc.skip(s), verbatim_at(m, doc, s), width) == doc.subrange(s, e) + reflowed(
            m,
            doc.skip(e),
            verbatim_at(m, doc, e),
            width,
        ),
    decreases e - s,
{
    if s == e {
        assert(doc.subrange(s, e) + reflowed(m, doc.skip(e), verbatim_at(m, doc, e), width)
            =~= reflowed(m, doc.skip(e), verbatim_at(m, doc, e), width));
    } else {
        let d = doc.skip(s);
        assert(d[0] == doc[s]);
        assert(kind_at(m, doc, s) != LineKind::Prose);
        assert(d.skip(1) =~= doc.skip(s + 1));
        lemma_opaque_run(m, doc, s + 1, e, width);
        assert(doc.subrange(s, e) =~= seq![doc[s]] + doc.subrange(s + 1, e));
        assert(reflowed(m, d, verbatim_at(m, doc, s), width) =~= doc.subrange(s, e) + reflowed(
            m,
            doc.skip(e),
            verbatim_at(m, doc, e),
            width,
        ));
    }
}

/// A block stays closed over lines of prose.
pub proof fn lemma_prose_closed(m: Markers, doc: Seq<Seq<char>>, s: int, e: int)
    requires
        0 <= s <= e <= doc.len(),
        forall|i: int| s <= i < e ==> kind_at(m, doc, i) == LineKind::Prose,
        !verbatim_at(m, doc, s),
    ensures
        !verbatim_at(m, doc, e),
        forall|i: int| s <= i < e ==> kind(m, #[trigger] doc[i], false) == LineKind::Prose,
    decreases e - s,
{
    if s < e {
        lemma_prose_closed(m, doc, s, e - 1);
        assert(kind_at(m, doc, e - 1) == LineKind::Prose);
        lemma_kind_state(m, doc[e - 1], false);
    }
}

/// What the document becomes from a segment on is what the segment becomes,
/// followed by what the document becomes after it.
pub proof fn lemma_segment_emits(m: Markers, doc: Seq<Seq<char>>, seg: Segment, width: int)
    requires
        segment_of(m, doc, seg),
    ensures
        reflowed(m, doc.skip(seg.start as int), verbatim_at(m, doc, seg.start as int), width)
            == emitted(doc, seg, width) + reflowed(
            m,
            doc.skip(seg.end as int),
            verbatim_at(m, doc, seg.end as int),
            width,
        ),
{
    let s = seg.start as int;
    let e = seg.end as int;
    match seg.kind {
        SegmentKind::Opaque => {
            lemma_opaque_run(m, doc, s, e, width);
        },
        SegmentKind::Reflowable => {
            let stop = prose_end(m, doc, seg);
            let d = doc.skip(s);
            let lines = doc.subrange(s, e);
            let after = reflowed(m, doc.skip(e), verbatim_at(m, doc, e), width);
            assert(kind_at(m, doc, s) == LineKind::Prose);
            lemma_kind_state(m, doc[s], verbatim_at(m, doc, s));
            lemma_prose_closed(m, doc, s, stop);
            assert forall|i: int| 0 <= i < stop - s implies kind(m, #[trigger] d[i], false)
                == LineKind::Prose by {
                assert(d[i] == doc[s + i]);
            }
            assert(d[0] == doc[s]);
            if stop < doc.len() {
                assert(d[stop - s] == doc[stop]);
                assert(kind_at(m, doc, stop) != LineKind::Prose);
            }
            lemma_prose_run_is(m, d, stop - s);
            assert(d.take(stop - s) =~= doc.subrange(s, stop));
            assert(d.skip(stop - s) =~= doc.skip(stop));
            assert(reflowed(m, d, false, width) == rewrapped(doc.subrange(s, stop), width)
                + reflowed(m, doc.skip(stop), false, width));
            let last = doc[stop - 1];
            assert(kind(m, last, false) == LineKind::Prose);
            assert(!blank(last)) by {
                reveal(kind);
            }
            assert(doc.subrange(s, stop).last() == last);
            assert(paragraph(doc.subrange(s, stop)) == doc.subrange(s, stop));
            if stop == e {
                assert(reflowed(m, d, false, width) =~= emitted(doc, seg, width) + after);
            } else {
                let b = doc[stop];
                assert(kind_at(m, doc, stop) == LineKind::Blank);
                assert(blank(b)) by {
                    reveal(kind);
                }
                lemma_kind_state(m, b, false);
                assert(lines.last() == b);
                assert(lines.drop_last() =~= doc.subrange(s, stop));
                assert(rewrapped(lines, width) == rewrapped(doc.subrange(s, stop), width));
                lemma_opaque_run(m, doc, stop, e, width);
                assert(doc.subrange(stop, e) =~= seq![b]);
                assert(reflowed(m, d, false, width) =~= emitted(doc, seg, width) + after);
            }
        },
    }
}

/// Appends copies of the lines of `lines` from `from` up to `to` to `out`.
pub fn push_lines(out: &mut Vec<Vec<char>>, lines: &Vec<Vec<char>>, from: usize, to: usize)
    requires
        from <= to <= lines.len(),
    ensures
        final(out).deep_view() == old(out).deep_view() + lines.deep_view().subrange(
            from as int,
            to as int,
        ),
{
    let mut i: usize = from;
    assert(out.deep_view() =~= old(out).deep_view() + lines.deep_view().subrange(
        from as int,
        i as int,
    ));
    while i < to
        invariant
            from <= i <= to <= lines.len(),
            out.deep_view() == old(out).deep_view() + lines.deep_view().subrange(
                from as int,
                i as int,
            ),
        decreases to - i,
    {
        let mut line: Vec<char> = Vec::new();
        push_range(&mut line, &lines[i], 0, lines[i].len());
        let ghost before = out.deep_view();
        assert(line@ =~= lines[i as int]@);
        out.push(line);
        i += 1;
        assert(out.deep_view() =~= before.push(lines[i - 1]@));
        assert(out.deep_view() =~= old(out).deep_view() + lines.deep_view().subrange(
            from as int,
            i as int,
        ));
    }
}

/// Appends what the segment `seg` of `lines` becomes to `out`.
pub fn emit(out: &mut Vec<Vec<char>>, lines: &Vec<Vec<char>>, seg: Segment, column_length: u8)
    requires
        seg.start <= seg.end <= lines.len(),
    ensures
        final(out).deep_view() == old(out).deep_view() + emitted(
            lines.deep_view(),
            seg,
            column_length as int,
        ),
{
    let ghost doc = lines.deep_view();
    match seg.kind {
        SegmentKind::Opaque => {
            push_lines(out, lines, seg.start, seg.end);
        },
        SegmentKind::Reflowable => {
            let part = slice_subrange(lines.as_slice(), seg.start, seg.end);
            assert(part.deep_view() =~= doc.subrange(seg.start as int, seg.end as int));
            let logical = unwrap(part);
            let tokens = tokenize(&logical.text);
            let mut fresh = wrap(&tokens, &logical.indent, column_length);
            let ghost before = out.deep_view();
            let ghost added = fresh.deep_view();
            out.append(&mut fresh);
            assert(out.deep_view() =~= before + added);
            if logical.trailing_blank {
                push_lines(out, lines, seg.end - 1, seg.end);
                assert(doc.subrange(seg.end - 1, seg.end as int) =~= seq![
                    doc.subrange(seg.start as int, seg.end as int).last(),
                ]);
                assert(out.deep_view() =~= before + added.push(
                    doc.subrange(seg.start as int, seg.end as int).last(),
                ));
            }
        },
    }
}

/// Reflows `lines` to `column_length` columns: the lines that are no prose stay
/// as they are, in their places, and every paragraph is wrapped again.
pub fn reflow(syntax: &Syntax, lines: &Vec<Vec<char>>, column_length: u8) -> (out: Vec<
    Vec<char>,
>)
    ensures
        out.deep_view() == reflowed(syntax@, lines.deep_view(), false, column_length as int),
{
    let ghost m = syntax@;
    let ghost doc = lines.deep_view();
    let ghost w = column_length as int;
    let segs = classify(syntax, lines);
    let mut out: Vec<Vec<char>> = Vec::new();
    let mut k: usize = 0;
    let ghost mut pos: int = 0;
    assert(doc.skip(0) =~= doc);
    assert(out.deep_view() + reflowed(m, doc, false, w) =~= reflowed(m, doc, false, w));
    while k < segs.len()
        invariant
            k <= segs.len(),
            m == syntax@,
            doc == lines.deep_view(),
            w == column_length as int,
            segmentation(m, doc, segs@),
            0 <= pos <= doc.len(),
            k < segs.len() ==> pos == segs[k as int].start,
            k == segs.len() ==> pos == doc.len(),
            out.deep_view() + reflowed(m, doc.skip(pos), verbatim_at(m, doc, pos), w) == reflowed(
                m,
                doc,
                false,
                w,
            ),
        decreases segs.len() - k,
    {
        let seg = segs[k];
        let ghost before = out.deep_view();
        proof {
            assert(segment_of(m, doc, segs@[k as int]));
            lemma_segment_emits(m, doc, seg, w);
        }
        emit(&mut out, lines, seg, column_length);
        proof {
            let rest = reflowed(m, doc.skip(seg.end as int), verbatim_at(m, doc, seg.end as int), w);
            assert((before + emitted(doc, seg, w)) + rest =~= before + (emitted(doc, seg, w)
                + rest));
            if k + 1 < segs.len() {
                assert(segs@[k as int].end == segs@[k + 1].start);
            } else {
                assert(segs@[k as int] == segs@.last());
            }
            pos = seg.end as int;
        }
        k += 1;
    }
    proof {
        assert(doc.skip(pos) =~= Seq::<Seq<char>>::empty());
        assert(out.deep_view() + Seq::<Seq<char>>::empty() =~= out.deep_view());
    }
    out
}

/// Reflows the lines of a document in the standard syntax: the lines that
/// are no prose stay as they are, in their places, and every paragraph is
/// wrapped again to `column_length` columns.
pub fn rewrap_lines(lines: Vec<&str>, column_length: u8) -> (out: Vec<String>)
    ensures
        out.deep_view() == reflowed(
            standard(),
            lines.deep_view(),
            false,
            column_length as int,
        ),
{
    let syntax = Syntax::standard();
    let mut doc: Vec<Vec<char>> = Vec::new();
    let mut i: usize = 0;
    assert(doc.deep_view() =~= lines.deep_view().take(0));
    while i < lines.len()
        invariant
            i <= lines.len(),
            doc.deep_view() == lines.deep_view().take(i as int),
        decreases lines.len() - i,
    {
        let line = chars_of(lines[i]);
        let ghost before = doc.deep_view();
        doc.push(line);
        i += 1;
        assert(doc.deep_view() =~= before.push(line@));
        assert(doc.deep_view() =~= lines.deep_view().take(i as int));
    }
    assert(lines.deep_view().take(i as int) =~= lines.deep_view());
    let done = reflow(&syntax, &doc, column_length);
    let mut out: Vec<String> = Vec::new();
    let mut j: usize = 0;
    assert(out.deep_view() =~= done.deep_view().take(0));
    while j < done.len()
        invariant
            j <= done.len(),
            out.deep_view() == done.deep_view().take(j as int),
        decreases done.len() - j,
    {
        let line = string_of(&done[j]);
        let ghost before = out.deep_view();
        out.push(line);
        j += 1;
        assert(out.deep_view() =~= before.push(line@));
        assert(out.deep_view() =~= done.deep_view().take(j as int));
    }
    assert(done.deep_view().take(j as int) =~= done.deep_view());
    out
}

/// Reflows a whole text in the standard syntax: the text is split at its line
/// feeds, its lines are reflowed to `column_length` columns, and the lines
/// that come out are joined by line feeds.
pub fn reformat(text: &str, column_length: u8) -> (out: String)
    ensures
        out@ == reformatted(text@, column_length as int),
{
    let syntax = Syntax::standard();
    let chars = chars_of(text);
    let doc = lines_of(&chars);
    let done = reflow(&syntax, &doc, column_length);
    let joined = text_of_lines(&done);
    string_of(&joined)
}

} // verus!
