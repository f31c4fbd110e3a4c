//! A document has one way to be parted into segments.

use crate::classify::{
    kind_at, prose_end, segment_of, segmentation, tiles, LineKind, Segment, SegmentKind,
};
use crate::syntax::Markers;
use vstd::prelude::*;

verus! {

/// Two segments of a document that begin with the same line are the same.
pub proof fn lemma_segment_determined(m: Markers, doc: Seq<Seq<char>>, a: Segment, b: Segment)
    requires
        segment_of(m, doc, a),
        segment_of(m, doc, b),
        a.start == b.start,
    ensures
        a == b,
{
    let s = a.start as int;
    match a.kind {
        SegmentKind::Opaque => {
            assert(kind_at(m, doc, s) != LineKind::Prose);
            assert(b.kind == SegmentKind::Opaque);
            if a.end < b.end {
                assert(kind_at(m, doc, a.end as int) == LineKind::Prose);
            }
            if b.end < a.end {
                assert(kind_at(m, doc, b.end as int) == LineKind::Prose);
            }
        },
        SegmentKind::Reflowable => {
            assert(kind_at(m, doc, s) == LineKind::Prose);
            assert(b.kind == SegmentKind::Reflowable);
            let sa = prose_end(m, doc, a);
            let sb = prose_end(m, doc, b);
            if sa < sb {
                assert(kind_at(m, doc, sa) == LineKind::Prose);
            }
            if sb < sa {
                assert(kind_at(m, doc, sb) == LineKind::Prose);
            }
            assert(sa == sb);
            assert(kind_at(m, doc, sa - 1) == LineKind::Prose);
        },
    }
}

/// Two ways to part a document into segments agree on their first `k`
/// segments.
pub proof fn lemma_segments_agree(
    m: Markers,
    doc: Seq<Seq<char>>,
    s1: Seq<Segment>,
    s2: Seq<Segment>,
    k: int,
)
    requires
        segmentation(m, doc, s1),
        segmentation(m, doc, s2),
        0 <= k <= s1.len(),
        k <= s2.len(),
    ensures
        s1.take(k) == s2.take(k),
    decreases k,
{
    if k == 0 {
        assert(s1.take(0) =~= s2.take(0));
    } else {
        lemma_segments_agree(m, doc, s1, s2, k - 1);
        if k > 1 {
            assert(s1.take(k - 1)[k - 2] == s1[k - 2]);
            assert(s2.take(k - 1)[k - 2] == s2[k - 2]);
            assert(s1[k - 2].end == s1[k - 1].start);
            assert(s2[k - 2].end == s2[k - 1].start);
        }
        lemma_segment_determined(m, doc, s1[k - 1], s2[k - 1]);
        assert(s1.take(k) =~= s1.take(k - 1).push(s1[k - 1]));
        assert(s2.take(k) =~= s2.take(k - 1).push(s2[k - 1]));
    }
}

/// There is one way to part a document into segments.
pub proof fn lemma_segmentation_unique(
    m: Markers,
    doc: Seq<Seq<char>>,
    s1: Seq<Segment>,
    s2: Seq<Segment>,
)
    requires
        segmentation(m, doc, s1),
        segmentation(m, doc, s2),
    ensures
        s1 == s2,
{
    assert(s1.take(s1.len() as int) =~= s1);
    assert(s2.take(s2.len() as int) =~= s2);
    if s1.len() <= s2.len() {
        lemma_segments_agree(m, doc, s1, s2, s1.len() as int);
        lemma_same_count(doc.len() as int, s1, s2);
    } else {
        lemma_segments_agree(m, doc, s1, s2, s2.len() as int);
        lemma_same_count(doc.len() as int, s2, s1);
    }
}

/// Segments that cover the same lines, and of which the ones are the first of
/// the others, are as many.
pub proof fn lemma_same_count(n: int, short: Seq<Segment>, long: Seq<Segment>)
    requires
        tiles(short, n),
        tiles(long, n),
        short.len() <= long.len(),
        short == long.take(short.len() as int),
    ensures
        short.len() == long.len(),
{
    if short.len() < long.len() {
        let k = short.len() as int;
        if k == 0 {
            assert(long[0].start < long[0].end);
        } else {
            assert(short[k - 1] == long.take(k)[k - 1]);
            assert(long[k - 1].end == long[k].start);
            assert(long[k].start < long[k].end);
            lemma_ends_grow(long, n, k);
        }
    }
}

/// No segment ends behind the lines that the segments cover.
pub proof fn lemma_ends_grow(segs: Seq<Segment>, n: int, k: int)
    requires
        tiles(segs, n),
        0 <= k < segs.len(),
    ensures
        segs[k].end <= n,
    decreases segs.len() - k,
{
    if k < segs.len() - 1 {
        lemma_ends_grow(segs, n, k + 1);
        assert(segs[k].end == segs[k + 1].start);
        assert(segs[k + 1].start < segs[k + 1].end);
    }
}

} // verus!
