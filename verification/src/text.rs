//! Characters and lines: whitespace, trimming and searching.

use vstd::prelude::*;

verus! {

/// Whether `c` is whitespace: a space, a tab, a line feed, a carriage return
/// or a form feed.
pub open spec fn space(c: char) -> bool {
    c == ' ' || c == '\t' || c == '\n' || c == '\r' || c == '\x0C'
}

/// Whether `c` is a decimal digit.
pub open spec fn digit(c: char) -> bool {
    c == '0' || c == '1' || c == '2' || c == '3' || c == '4' || c == '5' || c == '6' || c == '7'
        || c == '8' || c == '9'
}

/// The number of characters of `s` before the first `c`: all of them where
/// there is none.
pub open spec fn span(s: Seq<char>, c: char) -> nat
    decreases s.len(),
{
    if s.len() == 0 || s[0] == c {
        0
    } else {
        1 + span(s.skip(1), c)
    }
}

/// Whether every character of `s` is whitespace. The empty line is blank.
pub open spec fn blank(s: Seq<char>) -> bool {
    forall|i: int| 0 <= i < s.len() ==> space(#[trigger] s[i])
}

/// Whether no character of `s` is whitespace.
pub open spec fn solid(s: Seq<char>) -> bool {
    forall|i: int| 0 <= i < s.len() ==> !space(#[trigger] s[i])
}

/// The number of whitespace characters that `s` begins with.
pub open spec fn lead(s: Seq<char>) -> nat
    decreases s.len(),
{
    if s.len() == 0 || !space(s[0]) {
        0
    } else {
        1 + lead(s.skip(1))
    }
}

/// The number of whitespace characters that `s` ends with.
pub open spec fn trail(s: Seq<char>) -> nat
    decreases s.len(),
{
    if s.len() == 0 || !space(s.last()) {
        0
    } else {
        1 + trail(s.drop_last())
    }
}

/// `s` without the whitespace that it ends with.
pub open spec fn trim_end(s: Seq<char>) -> Seq<char> {
    s.take(s.len() - trail(s))
}

/// Whether `pat` stands in `s` at position `p`.
pub open spec fn occurs_at(s: Seq<char>, pat: Seq<char>, p: int) -> bool {
    0 <= p && p + pat.len() <= s.len() && s.subrange(p, p + pat.len()) == pat
}

/// Whether `pat` stands somewhere in `s`.
pub open spec fn occurs(s: Seq<char>, pat: Seq<char>) -> bool {
    exists|p: int| occurs_at(s, pat, p)
}

/// The deep view of a line is its view: a character is its own view.
pub broadcast proof fn lemma_line_view(v: Vec<char>)
    ensures
        #[trigger] v.deep_view() == v@,
{
    assert(v.deep_view() =~= v@);
}

/// `lead(s)` is the one `n` with only whitespace before it and none at it.
pub proof fn lemma_lead_is(s: Seq<char>, n: int)
    requires
        0 <= n <= s.len(),
        forall|i: int| 0 <= i < n ==> space(#[trigger] s[i]),
        n == s.len() || !space(s[n]),
    ensures
        lead(s) == n,
    decreases n,
{
    if n > 0 {
        let t = s.skip(1);
        assert forall|i: int| 0 <= i < n - 1 implies space(#[trigger] t[i]) by {
            assert(t[i] == s[i + 1]);
        }
        assert(space(s[0]));
        if n < s.len() {
            assert(t[n - 1] == s[n]);
        }
        lemma_lead_is(t, n - 1);
    }
}

/// What `lead` counts is whitespace, and it stops at the first character
/// that is not.
pub proof fn lemma_lead_bounds(s: Seq<char>)
    ensures
        lead(s) <= s.len(),
        forall|i: int| 0 <= i < lead(s) ==> space(#[trigger] s[i]),
        lead(s) == s.len() || !space(s[lead(s) as int]),
    decreases s.len(),
{
    if s.len() > 0 && space(s[0]) {
        let t = s.skip(1);
        lemma_lead_bounds(t);
        assert forall|i: int| 0 <= i < lead(s) implies space(#[trigger] s[i]) by {
            if i > 0 {
                assert(s[i] == t[i - 1]);
            }
        }
        if lead(s) < s.len() {
            assert(s[lead(s) as int] == t[lead(t) as int]);
        }
    }
}

/// `trail(s)` is the one `n` with only whitespace in the last `n` places and
/// none before them.
pub proof fn lemma_trail_is(s: Seq<char>, n: int)
    requires
        0 <= n <= s.len(),
        forall|i: int| s.len() - n <= i < s.len() ==> space(#[trigger] s[i]),
        n == s.len() || !space(s[s.len() - n - 1]),
    ensures
        trail(s) == n,
    decreases n,
{
    if n > 0 {
        let t = s.drop_last();
        assert forall|i: int| t.len() - (n - 1) <= i < t.len() implies space(#[trigger] t[i]) by {
            assert(t[i] == s[i]);
        }
        assert(space(s[s.len() - 1]));
        if n < s.len() {
            assert(t[t.len() - (n - 1) - 1] == s[s.len() - n - 1]);
        }
        lemma_trail_is(t, n - 1);
    }
}

/// What `trail` counts is whitespace, and the character before it is not.
pub proof fn lemma_trail_bounds(s: Seq<char>)
    ensures
        trail(s) <= s.len(),
        forall|i: int| s.len() - trail(s) <= i < s.len() ==> space(#[trigger] s[i]),
        trail(s) == s.len() || !space(s[s.len() - trail(s) - 1]),
    decreases s.len(),
{
    if s.len() > 0 && space(s.last()) {
        let t = s.drop_last();
        lemma_trail_bounds(t);
        assert forall|i: int| s.len() - trail(s) <= i < s.len() implies space(#[trigger] s[i]) by {
            if i < s.len() - 1 {
                assert(s[i] == t[i]);
            }
        }
        if trail(s) < s.len() {
            assert(s[s.len() - trail(s) - 1] == t[t.len() - trail(t) - 1]);
        }
    }
}

/// What `span` counts is not `c`, and it stops at the first `c`.
pub proof fn lemma_span_bounds(s: Seq<char>, c: char)
    ensures
        span(s, c) <= s.len(),
        forall|i: int| 0 <= i < span(s, c) ==> #[trigger] s[i] != c,
        span(s, c) < s.len() ==> s[span(s, c) as int] == c,
    decreases s.len(),
{
    if s.len() > 0 && s[0] != c {
        let t = s.skip(1);
        lemma_span_bounds(t, c);
        assert forall|i: int| 0 <= i < span(s, c) implies #[trigger] s[i] != c by {
            if i > 0 {
                assert(s[i] == t[i - 1]);
            }
        }
        if span(s, c) < s.len() {
            assert(s[span(s, c) as int] == t[span(t, c) as int]);
        }
    }
}

/// `span(s, c)` is the one `n` with no `c` before it and one at it.
pub proof fn lemma_span_is(s: Seq<char>, c: char, n: int)
    requires
        0 <= n <= s.len(),
        forall|i: int| 0 <= i < n ==> #[trigger] s[i] != c,
        n < s.len() ==> s[n] == c,
    ensures
        span(s, c) == n,
    decreases n,
{
    if n > 0 {
        let t = s.skip(1);
        assert forall|i: int| 0 <= i < n - 1 implies #[trigger] t[i] != c by {
            assert(t[i] == s[i + 1]);
        }
        assert(s[0] != c);
        if n < s.len() {
            assert(t[n - 1] == s[n]);
        }
        lemma_span_is(t, c, n - 1);
    }
}

/// Tells whether `c` is a decimal digit.
pub fn is_digit(c: char) -> (b: bool)
    ensures
        b == digit(c),
{
    c == '0' || c == '1' || c == '2' || c == '3' || c == '4' || c == '5' || c == '6' || c == '7'
        || c == '8' || c == '9'
}

/// Tells whether `c` is whitespace.
pub fn is_space(c: char) -> (b: bool)
    ensures
        b == space(c),
{
    c == ' ' || c == '\t' || c == '\n' || c == '\r' || c == '\x0C'
}

/// Tells whether `line` holds nothing but whitespace.
pub fn is_blank(line: &Vec<char>) -> (b: bool)
    ensures
        b == blank(line@),
{
    let mut i: usize = 0;
    while i < line.len()
        invariant
            i <= line.len(),
            forall|j: int| 0 <= j < i ==> space(#[trigger] line@[j]),
        decreases line.len() - i,
    {
        if !is_space(line[i]) {
            return false;
        }
        i += 1;
    }
    true
}

/// Counts the whitespace characters that `line` begins with.
pub fn leading_spaces(line: &Vec<char>) -> (n: usize)
    ensures
        n == lead(line@),
{
    let mut i: usize = 0;
    while i < line.len() && is_space(line[i])
        invariant
            i <= line.len(),
            forall|j: int| 0 <= j < i ==> space(#[trigger] line@[j]),
        decreases line.len() - i,
    {
        i += 1;
    }
    proof {
        lemma_lead_is(line@, i as int);
    }
    i
}

/// The length of `line` without the whitespace that it ends with.
pub fn trimmed_len(line: &Vec<char>) -> (n: usize)
    ensures
        n == line@.len() - trail(line@),
{
    let mut n: usize = line.len();
    while n > 0 && is_space(line[n - 1])
        invariant
            n <= line.len(),
            forall|j: int| n <= j < line.len() ==> space(#[trigger] line@[j]),
        decreases n,
    {
        n -= 1;
    }
    proof {
        lemma_trail_is(line@, line@.len() - n);
    }
    n
}

/// Appends the characters of `src` from `from` up to `to` to `out`.
pub fn push_range(out: &mut Vec<char>, src: &Vec<char>, from: usize, to: usize)
    requires
        from <= to <= src.len(),
    ensures
        final(out)@ == old(out)@ + src@.subrange(from as int, to as int),
{
    let mut i: usize = from;
    while i < to
        invariant
            from <= i <= to <= src.len(),
            out@ == old(out)@ + src@.subrange(from as int, i as int),
        decreases to - i,
    {
        out.push(src[i]);
        i += 1;
        assert(out@ =~= old(out)@ + src@.subrange(from as int, i as int));
    }
}

/// Tells whether `pat` stands in `s` at position `p`.
fn matches_at(s: &Vec<char>, pat: &Vec<char>, p: usize) -> (b: bool)
    requires
        p + pat.len() <= s.len(),
    ensures
        b == occurs_at(s@, pat@, p as int),
{
    let mut k: usize = 0;
    while k < pat.len()
        invariant
            k <= pat.len(),
            p + pat.len() <= s.len(),
            forall|j: int| 0 <= j < k ==> s@[p + j] == #[trigger] pat@[j],
        decreases pat.len() - k,
    {
        if s[p + k] != pat[k] {
            assert(s@.subrange(p as int, p + pat.len())[k as int] == s@[p + k]);
            return false;
        }
        k += 1;
    }
    assert(s@.subrange(p as int, p + pat.len()) =~= pat@);
    true
}

/// Tells whether `s` begins with `pat`.
pub fn starts_with(s: &Vec<char>, pat: &Vec<char>) -> (b: bool)
    ensures
        b == occurs_at(s@, pat@, 0),
{
    pat.len() <= s.len() && matches_at(s, pat, 0)
}

/// Tells whether `a` and `b` hold the same characters.
pub fn same(a: &Vec<char>, b: &Vec<char>) -> (r: bool)
    ensures
        r == (a@ == b@),
{
    if a.len() != b.len() {
        return false;
    }
    let r = matches_at(a, b, 0);
    assert(a@.subrange(0, a@.len() as int) =~= a@);
    r
}

/// Finds the first place at or after `from` where `pat` stands in `s`.
pub fn find(s: &Vec<char>, pat: &Vec<char>, from: usize) -> (r: Option<usize>)
    ensures
        match r {
            Some(p) => from <= p && occurs_at(s@, pat@, p as int) && forall|q: int|
                from <= q < p ==> !occurs_at(s@, pat@, q),
            None => forall|q: int| from <= q ==> !occurs_at(s@, pat@, q),
        },
{
    if pat.len() > s.len() {
        return None;
    }
    let last: usize = s.len() - pat.len();
    let mut p: usize = from;
    while p <= last
        invariant
            from <= p,
            last == s.len() - pat.len(),
            forall|q: int| from <= q < p ==> !occurs_at(s@, pat@, q),
        decreases last - p,
    {
        if matches_at(s, pat, p) {
            return Some(p);
        }
        if p == last {
            return None;
        }
        p += 1;
    }
    None
}

/// Tells whether `pat` stands somewhere in `s`.
pub fn contains(s: &Vec<char>, pat: &Vec<char>) -> (b: bool)
    ensures
        b == occurs(s@, pat@),
{
    find(s, pat, 0).is_some()
}

} // verus!
