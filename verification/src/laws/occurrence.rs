//! A marker without whitespace that stands in no line of a paragraph stands
//! in no line that the paragraph is wrapped into.

use crate::laws::preservation::lemma_indent_blank;
use crate::reflow::rewrapped;
use crate::text::{
    blank, lemma_lead_bounds, lemma_trail_bounds, occurs, occurs_at, solid, space, trail,
};
use crate::tokenize::{grouped, joined, lemma_rest_len_bound, run_len, scan, token_texts, Mode};
use crate::unwrap::{bodies, indent_of, lemma_min_lead_le, min_lead, paragraph, text_of};
use crate::words::{join, lemma_word_len_bounds, word_len, words};
use crate::wrap::{first_count, lemma_extra_bound, wrapped};
use vstd::prelude::*;

verus! {

/// Whether `pat` stands in none of `parts`.
pub open spec fn all_free(parts: Seq<Seq<char>>, pat: Seq<char>) -> bool {
    forall|i: int| 0 <= i < parts.len() ==> !occurs(#[trigger] parts[i], pat)
}

/// What stands in a part of a line stands in the line.
pub proof fn lemma_occurs_sub(s: Seq<char>, a: int, b: int, pat: Seq<char>)
    requires
        0 <= a <= b <= s.len(),
        occurs(s.subrange(a, b), pat),
    ensures
        occurs(s, pat),
{
    let sub = s.subrange(a, b);
    let p = choose|p: int| occurs_at(sub, pat, p);
    assert(s.subrange(a + p, a + p + pat.len()) =~= sub.subrange(p, p + pat.len()));
    assert(occurs_at(s, pat, a + p));
}

/// What holds no whitespace and stands in two lines with whitespace between
/// them stands in one of the two.
pub proof fn lemma_occurs_around(x: Seq<char>, c: char, y: Seq<char>, pat: Seq<char>)
    requires
        solid(pat),
        pat.len() > 0,
        space(c),
        !occurs(x, pat),
        !occurs(y, pat),
    ensures
        !occurs(x + seq![c] + y, pat),
{
    let s = x + seq![c] + y;
    if occurs(s, pat) {
        let p = choose|p: int| occurs_at(s, pat, p);
        let found = s.subrange(p, p + pat.len());
        if p + pat.len() <= x.len() {
            assert(x.subrange(p, p + pat.len()) =~= found);
            assert(occurs_at(x, pat, p));
        } else if p > x.len() {
            let q = p - x.len() - 1;
            assert(y.subrange(q, q + pat.len()) =~= found);
            assert(occurs_at(y, pat, q));
        } else {
            let k = x.len() - p;
            assert(found[k] == s[x.len() as int]);
            assert(pat[k] == c);
        }
    }
}

/// What holds no whitespace and stands in none of the parts does not stand in
/// the parts joined.
pub proof fn lemma_join_free(parts: Seq<Seq<char>>, pat: Seq<char>)
    requires
        solid(pat),
        pat.len() > 0,
        all_free(parts, pat),
    ensures
        !occurs(join(parts), pat),
    decreases parts.len(),
{
    if parts.len() == 0 {
        assert forall|p: int| !occurs_at(join(parts), pat, p) by {}
    } else if parts.len() == 1 {
    } else {
        let rest = parts.skip(1);
        assert forall|i: int| 0 <= i < rest.len() implies !occurs(#[trigger] rest[i], pat) by {
            assert(rest[i] == parts[i + 1]);
        }
        lemma_join_free(rest, pat);
        lemma_occurs_around(parts[0], ' ', join(rest), pat);
    }
}

/// Whitespace in front of a line brings nothing that holds no whitespace.
pub proof fn lemma_free_after_blank(ind: Seq<char>, x: Seq<char>, pat: Seq<char>)
    requires
        blank(ind),
        solid(pat),
        pat.len() > 0,
        !occurs(x, pat),
    ensures
        !occurs(ind + x, pat),
{
    let s = ind + x;
    if occurs(s, pat) {
        let p = choose|p: int| occurs_at(s, pat, p);
        let found = s.subrange(p, p + pat.len());
        if p >= ind.len() {
            let q = p - ind.len();
            assert(x.subrange(q, q + pat.len()) =~= found);
            assert(occurs_at(x, pat, q));
        } else {
            assert(found[0] == s[p]);
            assert(s[p] == ind[p]);
            assert(pat[0] == ind[p]);
        }
    }
}

/// What stands in no line stands in none of its words.
pub proof fn lemma_words_free(s: Seq<char>, pat: Seq<char>)
    requires
        !occurs(s, pat),
    ensures
        all_free(words(s), pat),
    decreases s.len(),
{
    if s.len() == 0 {
    } else if space(s[0]) {
        if occurs(s.skip(1), pat) {
            lemma_occurs_sub(s, 1, s.len() as int, pat);
        }
        lemma_words_free(s.skip(1), pat);
    } else {
        lemma_word_len_bounds(s);
        let n = word_len(s) as int;
        if occurs(s.skip(n), pat) {
            lemma_occurs_sub(s, n, s.len() as int, pat);
        }
        if occurs(s.take(n), pat) {
            lemma_occurs_sub(s, 0, n, pat);
        }
        lemma_words_free(s.skip(n), pat);
        let rest = words(s.skip(n));
        assert forall|i: int| 0 <= i < words(s).len() implies !occurs(#[trigger] words(s)[i], pat) by {
            if i > 0 {
                assert(words(s)[i] == rest[i - 1]);
            }
        }
    }
}

/// What stands in none of the words stands in none of their runs.
pub proof fn lemma_grouped_free(ws: Seq<Seq<char>>, pat: Seq<char>)
    requires
        all_free(ws, pat),
    ensures
        forall|i: int| 0 <= i < grouped(ws).len() ==> all_free(#[trigger] grouped(ws)[i], pat),
    decreases ws.len(),
{
    if ws.len() > 0 {
        lemma_rest_len_bound(ws.skip(1), scan(Mode::Text, ws[0]));
        let n = run_len(ws, Mode::Text) as int;
        let r = ws.take(n);
        let tail = ws.skip(n);
        assert forall|i: int| 0 <= i < tail.len() implies !occurs(#[trigger] tail[i], pat) by {
            assert(tail[i] == ws[n + i]);
        }
        assert forall|i: int| 0 <= i < r.len() implies !occurs(#[trigger] r[i], pat) by {
            assert(r[i] == ws[i]);
        }
        lemma_grouped_free(tail, pat);
        let rest = grouped(tail);
        assert forall|i: int| 0 <= i < grouped(ws).len() implies all_free(
            #[trigger] grouped(ws)[i],
            pat,
        ) by {
            if i > 0 {
                assert(grouped(ws)[i] == rest[i - 1]);
            }
        }
    }
}

/// What holds no whitespace and stands in no line of a paragraph stands in
/// none of its tokens.
pub proof fn lemma_tokens_free(lines: Seq<Seq<char>>, pat: Seq<char>)
    requires
        solid(pat),
        pat.len() > 0,
        all_free(lines, pat),
    ensures
        all_free(token_texts(text_of(lines)), pat),
{
    let p = paragraph(lines);
    let m = min_lead(p) as int;
    let bs = bodies(p, m);
    assert forall|i: int| 0 <= i < bs.len() implies !occurs(#[trigger] bs[i], pat) by {
        let line = p[i];
        assert(line == lines[i]);
        lemma_min_lead_le(p, i);
        lemma_lead_bounds(line);
        let rest = line.skip(m);
        lemma_trail_bounds(rest);
        if occurs(bs[i], pat) {
            assert(bs[i] == rest.subrange(0, rest.len() - trail(rest)));
            lemma_occurs_sub(rest, 0, rest.len() - trail(rest), pat);
            lemma_occurs_sub(line, m, line.len() as int, pat);
        }
    }
    lemma_join_free(bs, pat);
    lemma_words_free(text_of(lines), pat);
    let rs = grouped(words(text_of(lines)));
    lemma_grouped_free(words(text_of(lines)), pat);
    assert forall|i: int| 0 <= i < joined(rs).len() implies !occurs(#[trigger] joined(rs)[i], pat) by {
        assert(all_free(rs[i], pat));
        lemma_join_free(rs[i], pat);
    }
}

/// What holds no whitespace and stands in none of the tokens stands in none
/// of the lines that they are packed into.
pub proof fn lemma_wrapped_free(ts: Seq<Seq<char>>, indent: Seq<char>, pat: Seq<char>, width: int)
    requires
        solid(pat),
        pat.len() > 0,
        blank(indent),
        all_free(ts, pat),
    ensures
        all_free(wrapped(ts, indent, width), pat),
    decreases ts.len(),
{
    if ts.len() > 0 {
        lemma_extra_bound(ts.skip(1), (indent.len() + ts[0].len()) as int, width);
        let n = first_count(ts, indent.len() as int, width) as int;
        let head = ts.take(n);
        let tail = ts.skip(n);
        assert forall|i: int| 0 <= i < tail.len() implies !occurs(#[trigger] tail[i], pat) by {
            assert(tail[i] == ts[n + i]);
        }
        assert forall|i: int| 0 <= i < head.len() implies !occurs(#[trigger] head[i], pat) by {
            assert(head[i] == ts[i]);
        }
        lemma_wrapped_free(tail, indent, pat, width);
        lemma_join_free(head, pat);
        lemma_free_after_blank(indent, join(head), pat);
        let all = wrapped(ts, indent, width);
        let rest = wrapped(tail, indent, width);
        assert forall|i: int| 0 <= i < all.len() implies !occurs(#[trigger] all[i], pat) by {
            if i > 0 {
                assert(all[i] == rest[i - 1]);
            }
        }
    }
}

/// What holds no whitespace and stands in no line of a paragraph stands in no
/// line of the paragraph wrapped again.
pub proof fn lemma_rewrapped_free(lines: Seq<Seq<char>>, pat: Seq<char>, width: int)
    requires
        solid(pat),
        pat.len() > 0,
        all_free(lines, pat),
    ensures
        all_free(rewrapped(lines, width), pat),
{
    lemma_tokens_free(lines, pat);
    lemma_indent_blank(lines);
    lemma_wrapped_free(token_texts(text_of(lines)), indent_of(lines), pat, width);
}

} // verus!
