//! The classifier: which lines are prose, and the segments that they make.

use crate::syntax::{Markers, Syntax};
use crate::text::{
    blank, digit, find, is_blank, is_digit, is_space, lead, leading_spaces, lemma_lead_bounds,
    lemma_line_view, occurs, occurs_at, space,
};
use crate::words::{lemma_word_len_is, word_len};
use vstd::prelude::*;

verus! {

broadcast use lemma_line_view;

/// What a line is.
#[derive(Clone, Copy, PartialEq, Eq, Debug, Structural)]
pub enum LineKind {
    /// Part of a paragraph.
    Prose,
    /// Nothing but whitespace.
    Blank,
    /// Inside a block that is kept as it is, or the line that opens one.
    Verbatim,
    /// A row of a table.
    Table,
    /// A heading, a list item or a rule.
    Marked,
}

/// What a segment is: a paragraph, or lines that pass through unchanged.
#[derive(Clone, Copy, PartialEq, Eq, Debug, Structural)]
pub enum SegmentKind {
    Reflowable,
    Opaque,
}

/// The lines from `start` up to `end`, without `end`.
#[derive(Clone, Copy, PartialEq, Eq, Debug, Structural)]
pub struct Segment {
    pub kind: SegmentKind,
    pub start: usize,
    pub end: usize,
}

/// The first word of `line`: empty where the line is blank.
pub open spec fn first_word(line: Seq<char>) -> Seq<char> {
    let rest = line.skip(lead(line) as int);
    rest.take(word_len(rest) as int)
}

/// Whether `w` is one of `leaders`, once or several times.
pub open spec fn repeated(w: Seq<char>, leaders: Seq<char>) -> bool {
    &&& w.len() > 0
    &&& leaders.contains(w[0])
    &&& forall|i: int| 0 <= i < w.len() ==> #[trigger] w[i] == w[0]
}

/// Whether `w` is a number of a list: digits, then a full stop or a closing
/// bracket.
pub open spec fn numbered(w: Seq<char>) -> bool {
    &&& w.len() >= 2
    &&& (w.last() == '.' || w.last() == ')')
    &&& forall|i: int| 0 <= i < w.len() - 1 ==> digit(#[trigger] w[i])
}

/// Whether the first word of `line` marks a heading, a list item or a rule.
pub open spec fn structural(m: Markers, line: Seq<char>) -> bool {
    repeated(first_word(line), m.leaders) || numbered(first_word(line))
}

/// Whether `line` both opens a block and closes it again.
pub open spec fn self_contained(m: Markers, line: Seq<char>) -> bool {
    exists|p: int, q: int|
        #![trigger occurs_at(line, m.opener, p), occurs_at(line, m.closer, q)]
        occurs_at(line, m.opener, p) && occurs_at(line, m.closer, q) && p + m.opener.len() <= q
}

/// What `line` is, `verbatim` telling whether a block is open before it.
#[verifier::opaque]
pub open spec fn kind(m: Markers, line: Seq<char>, verbatim: bool) -> LineKind {
    if verbatim || occurs(line, m.opener) {
        LineKind::Verbatim
    } else if blank(line) {
        LineKind::Blank
    } else if occurs(line, m.column) {
        LineKind::Table
    } else if structural(m, line) {
        LineKind::Marked
    } else {
        LineKind::Prose
    }
}

/// Whether a block is open after `line`, `verbatim` telling whether one is
/// open before it. An open block ends with a line that holds the closing
/// marker. A line opens one if it holds the opening marker and no closing
/// marker behind it.
#[verifier::opaque]
pub open spec fn next_state(m: Markers, verbatim: bool, line: Seq<char>) -> bool {
    if verbatim {
        !occurs(line, m.closer)
    } else {
        occurs(line, m.opener) && !self_contained(m, line)
    }
}

/// Whether a block is open before line `i` of `doc`.
pub open spec fn verbatim_at(m: Markers, doc: Seq<Seq<char>>, i: int) -> bool
    decreases i,
{
    if i <= 0 {
        false
    } else {
        next_state(m, verbatim_at(m, doc, i - 1), doc[i - 1])
    }
}

/// What line `i` of `doc` is.
pub open spec fn kind_at(m: Markers, doc: Seq<Seq<char>>, i: int) -> LineKind {
    kind(m, doc[i], verbatim_at(m, doc, i))
}

/// Where the prose of a reflowable segment ends: before its last line if that
/// one is blank.
pub open spec fn prose_end(m: Markers, doc: Seq<Seq<char>>, seg: Segment) -> int {
    if seg.end > seg.start && kind_at(m, doc, seg.end - 1) == LineKind::Blank {
        seg.end - 1
    } else {
        seg.end as int
    }
}

/// Whether `seg` is a segment of `doc`. An opaque segment holds no prose and
/// ends before prose or with the document. A reflowable segment is a run of
/// prose that cannot be longer, with the blank line after it if there is one.
pub open spec fn segment_of(m: Markers, doc: Seq<Seq<char>>, seg: Segment) -> bool {
    &&& seg.start < seg.end <= doc.len()
    &&& match seg.kind {
        SegmentKind::Opaque => {
            &&& forall|i: int| seg.start <= i < seg.end ==> kind_at(m, doc, i) != LineKind::Prose
            &&& seg.end < doc.len() ==> kind_at(m, doc, seg.end as int) == LineKind::Prose
        },
        SegmentKind::Reflowable => {
            let stop = prose_end(m, doc, seg);
            &&& seg.start < stop
            &&& forall|i: int| seg.start <= i < stop ==> kind_at(m, doc, i) == LineKind::Prose
            &&& stop == seg.end && seg.end < doc.len() ==> {
                &&& kind_at(m, doc, seg.end as int) != LineKind::Prose
                &&& kind_at(m, doc, seg.end as int) != LineKind::Blank
            }
        },
    }
}

/// Whether `segs` cover the lines before `n` in order, each line once.
pub open spec fn tiles(segs: Seq<Segment>, n: int) -> bool {
    &&& segs.len() == 0 <==> n == 0
    &&& segs.len() > 0 ==> segs[0].start == 0 && segs.last().end == n
    &&& forall|k: int| 0 <= k < segs.len() ==> (#[trigger] segs[k]).start < segs[k].end
    &&& forall|j: int, k: int|
        0 <= j && k == j + 1 && k < segs.len() ==> (#[trigger] segs[j]).end == (
        #[trigger] segs[k]).start
}

/// Whether `segs` are the segments of `doc`.
pub open spec fn segmentation(m: Markers, doc: Seq<Seq<char>>, segs: Seq<Segment>) -> bool {
    &&& tiles(segs, doc.len() as int)
    &&& forall|k: int| 0 <= k < segs.len() ==> segment_of(m, doc, #[trigger] segs[k])
}

/// Prose and blank lines stand outside the blocks and open none.
pub proof fn lemma_kind_state(m: Markers, line: Seq<char>, verbatim: bool)
    ensures
        verbatim ==> kind(m, line, verbatim) == LineKind::Verbatim,
        kind(m, line, verbatim) == LineKind::Prose || kind(m, line, verbatim) == LineKind::Blank
            ==> !verbatim && !occurs(line, m.opener) && !next_state(m, false, line),
{
    reveal(kind);
    reveal(next_state);
}

/// Tells whether `c` is among `set`.
fn has_char(set: &Vec<char>, c: char) -> (b: bool)
    ensures
        b == set@.contains(c),
{
    let mut i: usize = 0;
    while i < set.len()
        invariant
            i <= set.len(),
            forall|j: int| 0 <= j < i ==> set@[j] != c,
        decreases set.len() - i,
    {
        if set[i] == c {
            return true;
        }
        i += 1;
    }
    false
}

/// Tells whether the characters of `line` from `from` up to `to` all are `c`.
fn uniform(line: &Vec<char>, from: usize, to: usize, c: char) -> (b: bool)
    requires
        from <= to <= line.len(),
    ensures
        b == forall|i: int| from <= i < to ==> line@[i] == c,
{
    let mut i: usize = from;
    while i < to
        invariant
            from <= i <= to <= line.len(),
            forall|j: int| from <= j < i ==> line@[j] == c,
        decreases to - i,
    {
        if line[i] != c {
            return false;
        }
        i += 1;
    }
    true
}

/// Tells whether the characters of `line` from `from` up to `to` all are
/// digits.
fn digits(line: &Vec<char>, from: usize, to: usize) -> (b: bool)
    requires
        from <= to <= line.len(),
    ensures
        b == forall|i: int| from <= i < to ==> digit(#[trigger] line@[i]),
{
    let mut i: usize = from;
    while i < to
        invariant
            from <= i <= to <= line.len(),
            forall|j: int| from <= j < i ==> digit(#[trigger] line@[j]),
        decreases to - i,
    {
        if !is_digit(line[i]) {
            return false;
        }
        i += 1;
    }
    true
}

/// Tells whether the first word of `line` marks a heading, a list item or a
/// rule.
pub fn is_structural(syntax: &Syntax, line: &Vec<char>) -> (b: bool)
    ensures
        b == structural(syntax@, line@),
{
    let start: usize = leading_spaces(line);
    let mut end: usize = start;
    proof {
        lemma_lead_bounds(line@);
    }
    while end < line.len() && !is_space(line[end])
        invariant
            start <= end <= line.len(),
            forall|j: int| start <= j < end ==> !space(#[trigger] line@[j]),
        decreases line.len() - end,
    {
        end += 1;
    }
    let ghost rest = line@.skip(start as int);
    let ghost w = first_word(line@);
    proof {
        assert forall|j: int| 0 <= j < end - start implies !space(#[trigger] rest[j]) by {
            assert(rest[j] == line@[start + j]);
        }
        if end < line.len() {
            assert(rest[end - start] == line@[end as int]);
        }
        lemma_word_len_is(rest, end - start);
        assert(w =~= line@.subrange(start as int, end as int));
    }
    if end == start {
        return false;
    }
    let c = line[start];
    let same = uniform(line, start, end, c);
    let led = has_char(&syntax.leaders, c);
    proof {
        assert(w[0] == c);
        if same {
            assert forall|i: int| 0 <= i < w.len() implies #[trigger] w[i] == w[0] by {
                assert(w[i] == line@[start + i]);
            }
        } else {
            let i = choose|i: int| start <= i < end && line@[i] != c;
            assert(w[i - start] == line@[i]);
        }
    }
    if same && led {
        return true;
    }
    if end - start < 2 {
        return false;
    }
    let last = line[end - 1];
    assert(w.last() == last);
    if last != '.' && last != ')' {
        return false;
    }
    let all = digits(line, start, end - 1);
    proof {
        if all {
            assert forall|i: int| 0 <= i < w.len() - 1 implies digit(#[trigger] w[i]) by {
                assert(w[i] == line@[start + i]);
            }
        } else {
            let i = choose|i: int| start <= i < end - 1 && !digit(#[trigger] line@[i]);
            assert(w[i - start] == line@[i]);
        }
    }
    all
}

/// Tells whether `line` both opens a block and closes it again.
fn is_self_contained(syntax: &Syntax, line: &Vec<char>) -> (b: bool)
    ensures
        b == self_contained(syntax@, line@),
{
    let n: usize = line.len();
    match find(line, &syntax.verbatim_open, 0) {
        None => false,
        Some(p) => {
            assert(p + syntax.verbatim_open@.len() <= n);
            let after: usize = p + syntax.verbatim_open.len();
            match find(line, &syntax.verbatim_close, after) {
                None => {
                    assert forall|a: int, b: int|
                        #![trigger occurs_at(line@, syntax@.opener, a), occurs_at(line@, syntax@.closer, b)]
                        occurs_at(line@, syntax@.opener, a) && occurs_at(
                            line@,
                            syntax@.closer,
                            b,
                        ) implies !(a + syntax@.opener.len() <= b) by {
                        if a < p {
                            assert(!occurs_at(line@, syntax@.opener, a));
                        }
                    }
                    false
                },
                Some(q) => {
                    assert(occurs_at(line@, syntax@.opener, p as int) && occurs_at(
                        line@,
                        syntax@.closer,
                        q as int,
                    ));
                    true
                },
            }
        },
    }
}

/// Tells what `line` is, `verbatim` telling whether a block is open before it.
pub fn line_kind(syntax: &Syntax, line: &Vec<char>, verbatim: bool) -> (k: LineKind)
    ensures
        k == kind(syntax@, line@, verbatim),
{
    proof {
        reveal(kind);
    }
    if verbatim || find(line, &syntax.verbatim_open, 0).is_some() {
        LineKind::Verbatim
    } else if is_blank(line) {
        LineKind::Blank
    } else if find(line, &syntax.column_marker, 0).is_some() {
        LineKind::Table
    } else if is_structural(syntax, line) {
        LineKind::Marked
    } else {
        LineKind::Prose
    }
}

/// Tells whether `line` is prose, `verbatim` telling whether a block is open
/// before it.
pub fn is_prose(syntax: &Syntax, line: &Vec<char>, verbatim: bool) -> (b: bool)
    ensures
        b == (kind(syntax@, line@, verbatim) == LineKind::Prose),
{
    line_kind(syntax, line, verbatim) == LineKind::Prose
}

/// Tells whether a block is open after `line`, `verbatim` telling whether one
/// is open before it.
pub fn next_verbatim(syntax: &Syntax, line: &Vec<char>, verbatim: bool) -> (v: bool)
    ensures
        v == next_state(syntax@, verbatim, line@),
{
    proof {
        reveal(next_state);
    }
    if verbatim {
        find(line, &syntax.verbatim_close, 0).is_none()
    } else {
        find(line, &syntax.verbatim_open, 0).is_some() && !is_self_contained(syntax, line)
    }
}

/// One more segment, from where the others end.
pub proof fn lemma_tiles_push(segs: Seq<Segment>, seg: Segment, n: int)
    requires
        tiles(segs, n),
        seg.start == n,
        seg.start < seg.end,
    ensures
        tiles(segs.push(seg), seg.end as int),
{
    let all = segs.push(seg);
    assert forall|k: int| 0 <= k < all.len() implies (#[trigger] all[k]).start < all[k].end by {
        if k < segs.len() {
            assert(all[k] == segs[k]);
        }
    }
    assert forall|j: int, k: int| 0 <= j && k == j + 1 && k < all.len() implies (
    #[trigger] all[j]).end == (#[trigger] all[k]).start by {
        assert(all[j] == segs[j]);
        if k < segs.len() {
            assert(all[k] == segs[k]);
        }
    }
    if segs.len() > 0 {
        assert(all[0] == segs[0]);
    }
}

/// Finds where the prose that begins at line `start` ends.
fn prose_stop(syntax: &Syntax, lines: &Vec<Vec<char>>, start: usize) -> (end: usize)
    requires
        start < lines.len(),
        kind_at(syntax@, lines.deep_view(), start as int) == LineKind::Prose,
    ensures
        start < end <= lines.len(),
        forall|j: int| start <= j < end ==> kind_at(syntax@, lines.deep_view(), j) == LineKind::Prose,
        end < lines.len() ==> kind_at(syntax@, lines.deep_view(), end as int) != LineKind::Prose,
        !verbatim_at(syntax@, lines.deep_view(), end as int),
{
    let ghost m = syntax@;
    let ghost doc = lines.deep_view();
    let mut i: usize = start + 1;
    proof {
        lemma_kind_state(m, doc[start as int], verbatim_at(m, doc, start as int));
    }
    while i < lines.len() && is_prose(syntax, &lines[i], false)
        invariant
            start < i <= lines.len(),
            m == syntax@,
            doc == lines.deep_view(),
            !verbatim_at(m, doc, i as int),
            forall|j: int| start <= j < i ==> kind_at(m, doc, j) == LineKind::Prose,
        decreases lines.len() - i,
    {
        proof {
            lemma_kind_state(m, doc[i as int], false);
        }
        i += 1;
    }
    i
}

/// Finds where the lines that are no prose, from line `start` on, end, and
/// tells whether a block is open there.
fn opaque_stop(syntax: &Syntax, lines: &Vec<Vec<char>>, start: usize, verbatim: bool) -> (r: (
    usize,
    bool,
))
    requires
        start < lines.len(),
        verbatim == verbatim_at(syntax@, lines.deep_view(), start as int),
        kind_at(syntax@, lines.deep_view(), start as int) != LineKind::Prose,
    ensures
        start < r.0 <= lines.len(),
        forall|j: int| start <= j < r.0 ==> kind_at(syntax@, lines.deep_view(), j) != LineKind::Prose,
        r.0 < lines.len() ==> kind_at(syntax@, lines.deep_view(), r.0 as int) == LineKind::Prose,
        r.1 == verbatim_at(syntax@, lines.deep_view(), r.0 as int),
{
    let ghost m = syntax@;
    let ghost doc = lines.deep_view();
    let mut state: bool = next_verbatim(syntax, &lines[start], verbatim);
    let mut i: usize = start + 1;
    while i < lines.len() && !is_prose(syntax, &lines[i], state)
        invariant
            start < i <= lines.len(),
            m == syntax@,
            doc == lines.deep_view(),
            state == verbatim_at(m, doc, i as int),
            forall|j: int| start <= j < i ==> kind_at(m, doc, j) != LineKind::Prose,
        decreases lines.len() - i,
    {
        state = next_verbatim(syntax, &lines[i], state);
        i += 1;
    }
    (i, state)
}

/// Parts `lines` into segments: runs of prose, each with the blank line that
/// ends it, and runs of lines that are no prose. A block that is opened and
/// never closed goes on to the end.
pub fn classify(syntax: &Syntax, lines: &Vec<Vec<char>>) -> (segs: Vec<Segment>)
    ensures
        segmentation(syntax@, lines.deep_view(), segs@),
{
    let ghost m = syntax@;
    let ghost doc = lines.deep_view();
    let n: usize = lines.len();
    let mut segs: Vec<Segment> = Vec::new();
    let mut i: usize = 0;
    let mut verbatim: bool = false;
    while i < n
        invariant
            i <= n,
            n == lines.len(),
            m == syntax@,
            doc == lines.deep_view(),
            verbatim == verbatim_at(m, doc, i as int),
            tiles(segs@, i as int),
            forall|k: int| 0 <= k < segs.len() ==> segment_of(m, doc, #[trigger] segs[k]),
        decreases n - i,
    {
        let start: usize = i;
        let ghost before = segs@;
        let seg = if is_prose(syntax, &lines[i], verbatim) {
            let stop = prose_stop(syntax, lines, start);
            i = stop;
            if i < n && line_kind(syntax, &lines[i], false) == LineKind::Blank {
                proof {
                    lemma_kind_state(m, doc[i as int], false);
                }
                i += 1;
            }
            verbatim = false;
            let seg = Segment { kind: SegmentKind::Reflowable, start, end: i };
            assert(prose_end(m, doc, seg) == stop);
            seg
        } else {
            let r = opaque_stop(syntax, lines, start, verbatim);
            i = r.0;
            verbatim = r.1;
            Segment { kind: SegmentKind::Opaque, start, end: i }
        };
        assert(segment_of(m, doc, seg));
        segs.push(seg);
        proof {
            lemma_tiles_push(before, seg, start as int);
            assert forall|k: int| 0 <= k < segs.len() implies segment_of(m, doc, #[trigger] segs[k]) by {
                if k < before.len() {
                    assert(segs[k] == before[k]);
                }
            }
        }
    }
    segs
}

} // verus!
