//! The lines that are no prose stay as they are, in their order.

use crate::classify::{kind, kind_at, lemma_kind_state, next_state, verbatim_at, LineKind};
use crate::reflow::{lemma_prose_run_is, prose_run, reflowed};
use crate::syntax::Markers;
use vstd::prelude::*;

verus! {

/// Whether a block is open after the lines `a`, `verbatim` telling whether
/// one is open before them.
pub open spec fn state_after(m: Markers, a: Seq<Seq<char>>, verbatim: bool) -> bool
    decreases a.len(),
{
    if a.len() == 0 {
        verbatim
    } else {
        state_after(m, a.skip(1), next_state(m, verbatim, a[0]))
    }
}

/// Where line `i` of `doc` stands after the reflow, if it is no prose: behind
/// what the lines before it have become.
pub open spec fn landing(m: Markers, doc: Seq<Seq<char>>, i: int, width: int) -> int {
    reflowed(m, doc.take(i), false, width).len() as int
}

/// The state after one more line.
pub proof fn lemma_state_after_push(m: Markers, a: Seq<Seq<char>>, x: Seq<char>, verbatim: bool)
    ensures
        state_after(m, a.push(x), verbatim) == next_state(m, state_after(m, a, verbatim), x),
    decreases a.len(),
{
    let all = a.push(x);
    if a.len() == 0 {
        assert(all.skip(1) =~= Seq::<Seq<char>>::empty());
        assert(state_after(m, all.skip(1), next_state(m, verbatim, x)) == next_state(
            m,
            verbatim,
            x,
        ));
    } else {
        assert(all[0] == a[0]);
        assert(all.skip(1) =~= a.skip(1).push(x));
        lemma_state_after_push(m, a.skip(1), x, next_state(m, verbatim, a[0]));
    }
}

/// The state before a line of a document is the state after the lines
/// before it.
pub proof fn lemma_verbatim_at_is(m: Markers, doc: Seq<Seq<char>>, i: int)
    requires
        0 <= i <= doc.len(),
    ensures
        verbatim_at(m, doc, i) == state_after(m, doc.take(i), false),
    decreases i,
{
    if i > 0 {
        lemma_verbatim_at_is(m, doc, i - 1);
        assert(doc.take(i) =~= doc.take(i - 1).push(doc[i - 1]));
        lemma_state_after_push(m, doc.take(i - 1), doc[i - 1], false);
    }
}

/// What `prose_run` counts is prose, and it stops at the first line that is
/// none.
pub proof fn lemma_prose_run_props(m: Markers, doc: Seq<Seq<char>>)
    ensures
        prose_run(m, doc) <= doc.len(),
        forall|i: int|
            0 <= i < prose_run(m, doc) ==> kind(m, #[trigger] doc[i], false) == LineKind::Prose,
        prose_run(m, doc) < doc.len() ==> kind(m, doc[prose_run(m, doc) as int], false)
            != LineKind::Prose,
    decreases doc.len(),
{
    if doc.len() > 0 && kind(m, doc[0], false) == LineKind::Prose {
        let rest = doc.skip(1);
        lemma_prose_run_props(m, rest);
        assert forall|i: int| 0 <= i < prose_run(m, doc) implies kind(m, #[trigger] doc[i], false)
            == LineKind::Prose by {
            if i > 0 {
                assert(doc[i] == rest[i - 1]);
            }
        }
        if prose_run(m, doc) < doc.len() {
            assert(doc[prose_run(m, doc) as int] == rest[prose_run(m, rest) as int]);
        }
    }
}

/// No block is open after lines of prose.
pub proof fn lemma_state_after_prose(m: Markers, a: Seq<Seq<char>>, k: int)
    requires
        0 <= k <= a.len(),
        forall|i: int| 0 <= i < k ==> kind(m, #[trigger] a[i], false) == LineKind::Prose,
    ensures
        state_after(m, a, false) == state_after(m, a.skip(k), false),
    decreases k,
{
    if k == 0 {
        assert(a.skip(0) =~= a);
    } else {
        let rest = a.skip(1);
        assert(kind(m, a[0], false) == LineKind::Prose);
        lemma_kind_state(m, a[0], false);
        assert forall|i: int| 0 <= i < k - 1 implies kind(m, #[trigger] rest[i], false)
            == LineKind::Prose by {
            assert(rest[i] == a[i + 1]);
        }
        lemma_state_after_prose(m, rest, k - 1);
        assert(rest.skip(k - 1) =~= a.skip(k));
    }
}

/// A document can be cut before a line that is no prose: what it becomes is
/// what the lines before the cut become, followed by what the lines after it
/// become.
pub proof fn lemma_reflow_split(
    m: Markers,
    a: Seq<Seq<char>>,
    b: Seq<Seq<char>>,
    verbatim: bool,
    width: int,
)
    requires
        b.len() == 0 || kind(m, b[0], state_after(m, a, verbatim)) != LineKind::Prose,
    ensures
        reflowed(m, a + b, verbatim, width) == reflowed(m, a, verbatim, width) + reflowed(
            m,
            b,
            state_after(m, a, verbatim),
            width,
        ),
    decreases a.len(),
{
    let all = a + b;
    if a.len() == 0 {
        assert(all =~= b);
        assert(reflowed(m, a, verbatim, width) + reflowed(m, b, verbatim, width) =~= reflowed(
            m,
            b,
            verbatim,
            width,
        ));
    } else if kind(m, a[0], verbatim) != LineKind::Prose {
        let next = next_state(m, verbatim, a[0]);
        assert(all[0] == a[0]);
        assert(all.skip(1) =~= a.skip(1) + b);
        lemma_reflow_split(m, a.skip(1), b, next, width);
        assert(reflowed(m, all, verbatim, width) =~= reflowed(m, a, verbatim, width) + reflowed(
            m,
            b,
            state_after(m, a, verbatim),
            width,
        ));
    } else {
        lemma_kind_state(m, a[0], verbatim);
        let k = prose_run(m, a) as int;
        lemma_prose_run_props(m, a);
        lemma_state_after_prose(m, a, k);
        assert(all[0] == a[0]);
        assert forall|i: int| 0 <= i < k implies kind(m, #[trigger] all[i], false)
            == LineKind::Prose by {
            assert(all[i] == a[i]);
        }
        if k < a.len() {
            assert(all[k] == a[k]);
        } else if b.len() > 0 {
            assert(a.skip(k) =~= Seq::<Seq<char>>::empty());
            assert(all[k] == b[0]);
        }
        lemma_prose_run_is(m, all, k);
        assert(all.take(k) =~= a.take(k));
        assert(all.skip(k) =~= a.skip(k) + b);
        lemma_reflow_split(m, a.skip(k), b, false, width);
        assert(reflowed(m, all, verbatim, width) =~= reflowed(m, a, verbatim, width) + reflowed(
            m,
            b,
            state_after(m, a, verbatim),
            width,
        ));
    }
}

/// A line that is no prose stands in the reflowed document as it was: that
/// document is what the lines before it become, then the line itself, then
/// what the lines after it become.
pub proof fn lemma_opaque_line_kept(m: Markers, doc: Seq<Seq<char>>, i: int, width: int)
    requires
        0 <= i < doc.len(),
        kind_at(m, doc, i) != LineKind::Prose,
    ensures
        reflowed(m, doc, false, width) == reflowed(m, doc.take(i), false, width) + seq![doc[i]]
            + reflowed(m, doc.skip(i + 1), verbatim_at(m, doc, i + 1), width),
        0 <= landing(m, doc, i, width) < reflowed(m, doc, false, width).len(),
        reflowed(m, doc, false, width)[landing(m, doc, i, width)] == doc[i],
{
    let a = doc.take(i);
    let b = doc.skip(i);
    lemma_verbatim_at_is(m, doc, i);
    assert(b[0] == doc[i]);
    assert(a + b =~= doc);
    lemma_reflow_split(m, a, b, false, width);
    assert(b.skip(1) =~= doc.skip(i + 1));
    let tail = reflowed(m, doc.skip(i + 1), verbatim_at(m, doc, i + 1), width);
    assert(reflowed(m, b, verbatim_at(m, doc, i), width) == seq![doc[i]] + tail);
    assert(reflowed(m, doc, false, width) =~= reflowed(m, a, false, width) + seq![doc[i]] + tail);
}

/// Lines that are no prose keep their order: the later one stands behind the
/// earlier one after the reflow too.
pub proof fn lemma_opaque_lines_in_order(
    m: Markers,
    doc: Seq<Seq<char>>,
    i: int,
    j: int,
    width: int,
)
    requires
        0 <= i < j < doc.len(),
        kind_at(m, doc, i) != LineKind::Prose,
        kind_at(m, doc, j) != LineKind::Prose,
    ensures
        landing(m, doc, i, width) < landing(m, doc, j, width),
{
    let front = doc.take(j);
    lemma_verbatim_at_is(m, doc, i);
    lemma_verbatim_at_is(m, front, i);
    assert(front.take(i) =~= doc.take(i));
    assert(front[i] == doc[i]);
    lemma_opaque_line_kept(m, front, i, width);
}

} // verus!
