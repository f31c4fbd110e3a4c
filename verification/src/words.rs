//! Words: the runs of characters between whitespace, and lines joined by
//! single spaces.

use crate::text::{blank, lemma_line_view, is_space, lead, lemma_lead_bounds, lemma_trail_bounds, push_range, solid, space, trail, trim_end};
use vstd::prelude::*;

verus! {

broadcast use lemma_line_view;

/// The number of characters before the first whitespace of `s`.
pub open spec fn word_len(s: Seq<char>) -> nat
    decreases s.len(),
{
    if s.len() == 0 || space(s[0]) {
        0
    } else {
        1 + word_len(s.skip(1))
    }
}

/// A word is not empty and holds no whitespace.
pub open spec fn is_word(w: Seq<char>) -> bool {
    w.len() > 0 && solid(w)
}

/// Whether every element of `ws` is a word.
pub open spec fn all_words(ws: Seq<Seq<char>>) -> bool {
    forall|i: int| 0 <= i < ws.len() ==> is_word(#[trigger] ws[i])
}

/// The words of `s`, in order: its longest runs without whitespace.
pub open spec fn words(s: Seq<char>) -> Seq<Seq<char>>
    decreases s.len(),
{
    if s.len() == 0 {
        Seq::empty()
    } else if space(s[0]) {
        words(s.skip(1))
    } else {
        proof {
            lemma_word_len_bounds(s);
        }
        seq![s.take(word_len(s) as int)] + words(s.skip(word_len(s) as int))
    }
}

/// The words of all of `lines`, in order.
pub open spec fn words_of(lines: Seq<Seq<char>>) -> Seq<Seq<char>>
    decreases lines.len(),
{
    if lines.len() == 0 {
        Seq::empty()
    } else {
        words(lines[0]) + words_of(lines.skip(1))
    }
}

/// `parts` one after the other, with a single space between two of them.
pub open spec fn join(parts: Seq<Seq<char>>) -> Seq<char>
    decreases parts.len(),
{
    if parts.len() == 0 {
        Seq::empty()
    } else if parts.len() == 1 {
        parts[0]
    } else {
        parts[0] + seq![' '] + join(parts.skip(1))
    }
}

/// `word_len(s)` is the one `n` with no whitespace before it and some at it.
pub proof fn lemma_word_len_is(s: Seq<char>, n: int)
    requires
        0 <= n <= s.len(),
        forall|i: int| 0 <= i < n ==> !space(#[trigger] s[i]),
        n == s.len() || space(s[n]),
    ensures
        word_len(s) == n,
    decreases n,
{
    if n > 0 {
        let t = s.skip(1);
        assert forall|i: int| 0 <= i < n - 1 implies !space(#[trigger] t[i]) by {
            assert(t[i] == s[i + 1]);
        }
        assert(!space(s[0]));
        if n < s.len() {
            assert(t[n - 1] == s[n]);
        }
        lemma_word_len_is(t, n - 1);
    }
}

/// What `word_len` counts is no whitespace, and it stops at the first
/// whitespace.
pub proof fn lemma_word_len_bounds(s: Seq<char>)
    ensures
        word_len(s) <= s.len(),
        forall|i: int| 0 <= i < word_len(s) ==> !space(#[trigger] s[i]),
        word_len(s) == s.len() || space(s[word_len(s) as int]),
        s.len() > 0 && !space(s[0]) ==> word_len(s) >= 1,
    decreases s.len(),
{
    if s.len() > 0 && !space(s[0]) {
        let t = s.skip(1);
        lemma_word_len_bounds(t);
        assert forall|i: int| 0 <= i < word_len(s) implies !space(#[trigger] s[i]) by {
            if i > 0 {
                assert(s[i] == t[i - 1]);
            }
        }
        if word_len(s) < s.len() {
            assert(s[word_len(s) as int] == t[word_len(t) as int]);
        }
    }
}

/// A blank line has no words.
pub proof fn lemma_words_blank(s: Seq<char>)
    requires
        blank(s),
    ensures
        words(s) == Seq::<Seq<char>>::empty(),
    decreases s.len(),
{
    if s.len() > 0 {
        let t = s.skip(1);
        assert forall|i: int| 0 <= i < t.len() implies space(#[trigger] t[i]) by {
            assert(t[i] == s[i + 1]);
        }
        assert(space(s[0]));
        lemma_words_blank(t);
    }
}

/// A line that is not blank has a word.
pub proof fn lemma_words_some(s: Seq<char>)
    requires
        !blank(s),
    ensures
        words(s).len() > 0,
    decreases s.len(),
{
    if s.len() > 0 && space(s[0]) {
        let t = s.skip(1);
        if blank(t) {
            assert forall|i: int| 0 <= i < s.len() implies space(#[trigger] s[i]) by {
                if i > 0 {
                    assert(s[i] == t[i - 1]);
                }
            }
        }
        lemma_words_some(t);
    }
}

/// A word is its own only word.
pub proof fn lemma_words_word(w: Seq<char>)
    requires
        is_word(w),
    ensures
        words(w) == seq![w],
{
    lemma_word_len_is(w, w.len() as int);
    assert(w.take(w.len() as int) =~= w);
    assert(w.skip(w.len() as int) =~= Seq::<char>::empty());
    assert(!space(w[0]));
    assert(words(w.skip(w.len() as int)) =~= Seq::<Seq<char>>::empty());
    assert(words(w) =~= seq![w]);
}

/// Whitespace parts the words: those of `s` are those before a whitespace
/// character followed by those after it.
pub proof fn lemma_words_split(s: Seq<char>, i: int)
    requires
        0 <= i < s.len(),
        space(s[i]),
    ensures
        words(s) == words(s.take(i)) + words(s.skip(i + 1)),
    decreases s.len(),
{
    let p = s.take(i);
    if space(s[0]) {
        let t = s.skip(1);
        if i == 0 {
            assert(p =~= Seq::<char>::empty());
            assert(words(s) =~= words(p) + words(t));
        } else {
            lemma_words_split(t, i - 1);
            assert(p[0] == s[0]);
            assert(p.skip(1) =~= t.take(i - 1));
            assert(t.skip(i) =~= s.skip(i + 1));
        }
    } else {
        let n = word_len(s) as int;
        lemma_word_len_bounds(s);
        assert(n <= i) by {
            if i < n {
                assert(!space(s[i]));
            }
        }
        assert(p[0] == s[0]);
        assert forall|j: int| 0 <= j < n implies !space(#[trigger] p[j]) by {
            assert(p[j] == s[j]);
        }
        if n < i {
            assert(p[n] == s[n]);
        }
        lemma_word_len_is(p, n);
        assert(p.take(n) =~= s.take(n));
        let u = s.skip(n);
        assert(u[i - n] == s[i]);
        lemma_words_split(u, i - n);
        assert(u.take(i - n) =~= p.skip(n));
        assert(u.skip(i - n + 1) =~= s.skip(i + 1));
        assert(words(s) =~= words(p) + words(s.skip(i + 1)));
    }
}

/// The words of two lines with whitespace between them.
pub proof fn lemma_words_around(a: Seq<char>, c: char, b: Seq<char>)
    requires
        space(c),
    ensures
        words(a + seq![c] + b) == words(a) + words(b),
{
    let s = a + seq![c] + b;
    assert(s[a.len() as int] == c);
    lemma_words_split(s, a.len() as int);
    assert(s.take(a.len() as int) =~= a);
    assert(s.skip(a.len() as int + 1) =~= b);
}

/// Whitespace in front adds no word.
pub proof fn lemma_words_after_blank(a: Seq<char>, s: Seq<char>)
    requires
        blank(a),
    ensures
        words(a + s) == words(s),
    decreases a.len(),
{
    if a.len() == 0 {
        assert(a + s =~= s);
    } else {
        let t = a.skip(1);
        assert forall|i: int| 0 <= i < t.len() implies space(#[trigger] t[i]) by {
            assert(t[i] == a[i + 1]);
        }
        assert((a + s)[0] == a[0]);
        assert(space(a[0]));
        assert((a + s).skip(1) =~= t + s);
        lemma_words_after_blank(t, s);
    }
}

/// Whitespace at the end adds no word.
pub proof fn lemma_words_before_blank(s: Seq<char>, b: Seq<char>)
    requires
        blank(b),
    ensures
        words(s + b) == words(s),
    decreases b.len(),
{
    if b.len() == 0 {
        assert(s + b =~= s);
    } else {
        let t = b.skip(1);
        assert forall|i: int| 0 <= i < t.len() implies space(#[trigger] t[i]) by {
            assert(t[i] == b[i + 1]);
        }
        assert(space(b[0]));
        assert(s + b =~= s + seq![b[0]] + t);
        lemma_words_around(s, b[0], t);
        lemma_words_blank(t);
        assert(words(s) + Seq::<Seq<char>>::empty() =~= words(s));
    }
}

/// The whitespace that a line begins with can go: the words stay.
pub proof fn lemma_words_skip_lead(s: Seq<char>, m: int)
    requires
        0 <= m <= lead(s),
    ensures
        words(s.skip(m)) == words(s),
{
    lemma_lead_bounds(s);
    let a = s.take(m);
    assert forall|i: int| 0 <= i < a.len() implies space(#[trigger] a[i]) by {
        assert(a[i] == s[i]);
    }
    assert(a + s.skip(m) =~= s);
    lemma_words_after_blank(a, s.skip(m));
}

/// The whitespace that a line ends with can go: the words stay.
pub proof fn lemma_words_trim_end(s: Seq<char>)
    ensures
        words(trim_end(s)) == words(s),
{
    lemma_trail_bounds(s);
    let n = s.len() - trail(s);
    let b = s.skip(n);
    assert forall|i: int| 0 <= i < b.len() implies space(#[trigger] b[i]) by {
        assert(b[i] == s[n + i]);
    }
    assert(trim_end(s) + b =~= s);
    lemma_words_before_blank(trim_end(s), b);
}

/// Every word of a line is a word.
pub proof fn lemma_words_are_words(s: Seq<char>)
    ensures
        all_words(words(s)),
    decreases s.len(),
{
    if s.len() == 0 {
    } else if space(s[0]) {
        lemma_words_are_words(s.skip(1));
    } else {
        let n = word_len(s) as int;
        lemma_word_len_bounds(s);
        lemma_words_are_words(s.skip(n));
        let w = s.take(n);
        assert forall|j: int| 0 <= j < w.len() implies !space(#[trigger] w[j]) by {
            assert(w[j] == s[j]);
        }
        assert(is_word(w));
        let rest = words(s.skip(n));
        assert forall|i: int| 0 <= i < words(s).len() implies is_word(#[trigger] words(s)[i]) by {
            if i > 0 {
                assert(words(s)[i] == rest[i - 1]);
            }
        }
    }
}

/// The words of lines one after the other.
pub proof fn lemma_words_of_concat(a: Seq<Seq<char>>, b: Seq<Seq<char>>)
    ensures
        words_of(a + b) == words_of(a) + words_of(b),
    decreases a.len(),
{
    if a.len() == 0 {
        assert(a + b =~= b);
        assert(words_of(a) + words_of(b) =~= words_of(b));
    } else {
        assert((a + b)[0] == a[0]);
        assert((a + b).skip(1) =~= a.skip(1) + b);
        lemma_words_of_concat(a.skip(1), b);
        assert(words_of(a + b) =~= words_of(a) + words_of(b));
    }
}

/// The words of a single line, taken as a list of lines.
pub proof fn lemma_words_of_one(s: Seq<char>)
    ensures
        words_of(seq![s]) == words(s),
{
    assert(seq![s].skip(1) =~= Seq::<Seq<char>>::empty());
    assert(words_of(Seq::<Seq<char>>::empty()) =~= Seq::<Seq<char>>::empty());
    assert(words_of(seq![s]) =~= words(s));
}

/// Words taken as lines give themselves back.
pub proof fn lemma_words_of_words(ws: Seq<Seq<char>>)
    requires
        all_words(ws),
    ensures
        words_of(ws) == ws,
    decreases ws.len(),
{
    if ws.len() == 0 {
        assert(words_of(ws) =~= ws);
    } else {
        let t = ws.skip(1);
        assert forall|i: int| 0 <= i < t.len() implies is_word(#[trigger] t[i]) by {
            assert(t[i] == ws[i + 1]);
        }
        lemma_words_of_words(t);
        lemma_words_word(ws[0]);
        assert(words_of(ws) =~= ws);
    }
}

/// Joining lines keeps their words.
pub proof fn lemma_words_join(parts: Seq<Seq<char>>)
    ensures
        words(join(parts)) == words_of(parts),
    decreases parts.len(),
{
    if parts.len() == 0 {
    } else if parts.len() == 1 {
        lemma_words_of_one(parts[0]);
        assert(parts =~= seq![parts[0]]);
    } else {
        lemma_words_around(parts[0], ' ', join(parts.skip(1)));
        lemma_words_join(parts.skip(1));
    }
}

/// Joining one more part.
pub proof fn lemma_join_push(parts: Seq<Seq<char>>, x: Seq<char>)
    ensures
        join(parts.push(x)) == if parts.len() == 0 {
            x
        } else {
            join(parts) + seq![' '] + x
        },
    decreases parts.len(),
{
    let all = parts.push(x);
    if parts.len() == 0 {
    } else if parts.len() == 1 {
        assert(all.skip(1) =~= seq![x]);
        assert(join(all.skip(1)) == x);
    } else {
        assert(all.skip(1) =~= parts.skip(1).push(x));
        lemma_join_push(parts.skip(1), x);
        assert(join(all) =~= join(parts) + seq![' '] + x);
    }
}

/// Joining two lists of parts, neither of them empty.
pub proof fn lemma_join_concat(a: Seq<Seq<char>>, b: Seq<Seq<char>>)
    requires
        a.len() > 0,
        b.len() > 0,
    ensures
        join(a + b) == join(a) + seq![' '] + join(b),
    decreases a.len(),
{
    let all = a + b;
    assert(all[0] == a[0]);
    if a.len() == 1 {
        assert(all.skip(1) =~= b);
    } else {
        assert(all.skip(1) =~= a.skip(1) + b);
        lemma_join_concat(a.skip(1), b);
        assert(join(all) =~= join(a) + seq![' '] + join(b));
    }
}

/// Splits `text` into its words.
pub fn split_words(text: &Vec<char>) -> (out: Vec<Vec<char>>)
    ensures
        out.deep_view() == words(text@),
{
    let mut out: Vec<Vec<char>> = Vec::new();
    let mut i: usize = 0;
    assert(text@.skip(0) =~= text@);
    assert(out.deep_view() =~= Seq::<Seq<char>>::empty());
    while i < text.len()
        invariant
            i <= text.len(),
            out.deep_view() + words(text@.skip(i as int)) == words(text@),
        decreases text.len() - i,
    {
        let ghost rest = text@.skip(i as int);
        assert(rest[0] == text@[i as int]);
        if is_space(text[i]) {
            assert(rest.skip(1) =~= text@.skip(i + 1));
            i += 1;
        } else {
            let start: usize = i;
            while i < text.len() && !is_space(text[i])
                invariant
                    start <= i <= text.len(),
                    forall|j: int| start <= j < i ==> !space(#[trigger] text@[j]),
                decreases text.len() - i,
            {
                i += 1;
            }
            let mut word: Vec<char> = Vec::new();
            push_range(&mut word, text, start, i);
            proof {
                let n = i - start;
                assert forall|j: int| 0 <= j < n implies !space(#[trigger] rest[j]) by {
                    assert(rest[j] == text@[start + j]);
                }
                if i < text.len() {
                    assert(rest[n] == text@[i as int]);
                }
                lemma_word_len_is(rest, n);
                assert(rest.take(n) =~= text@.subrange(start as int, i as int));
                assert(rest.skip(n) =~= text@.skip(i as int));
                assert(word@ =~= rest.take(n));
            }
            let ghost before = out.deep_view();
            out.push(word);
            assert(out.deep_view() =~= before.push(word@));
            assert(before.push(word@) + words(text@.skip(i as int)) =~= before + words(rest));
        }
    }
    assert(text@.skip(i as int) =~= Seq::<char>::empty());
    assert(out.deep_view() + Seq::<Seq<char>>::empty() =~= out.deep_view());
    out
}

/// Joins `parts` with single spaces.
pub fn join_words(parts: &Vec<Vec<char>>) -> (out: Vec<char>)
    ensures
        out@ == join(parts.deep_view()),
{
    let mut out: Vec<char> = Vec::new();
    let mut i: usize = 0;
    assert(parts.deep_view().take(0) =~= Seq::<Seq<char>>::empty());
    while i < parts.len()
        invariant
            i <= parts.len(),
            out@ == join(parts.deep_view().take(i as int)),
        decreases parts.len() - i,
    {
        if i > 0 {
            out.push(' ');
        }
        let part = &parts[i];
        push_range(&mut out, part, 0, part.len());
        proof {
            let done = parts.deep_view().take(i as int);
            assert(part@.subrange(0, part@.len() as int) =~= part@);
            assert(parts.deep_view().take(i + 1) =~= done.push(part@));
            lemma_join_push(done, part@);
            assert(out@ =~= join(done.push(part@)));
        }
        i += 1;
    }
    assert(parts.deep_view().take(i as int) =~= parts.deep_view());
    out
}

} // verus!
