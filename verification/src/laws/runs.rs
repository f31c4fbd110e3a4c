//! Runs of words: what the tokenizer makes of words, and that it makes the
//! same of them again.

use crate::tokenize::{grouped, lemma_rest_len_bound, rest_len, run_len, scan, Mode};
use crate::words::{all_words, is_word};
use vstd::prelude::*;

verus! {

/// The mode after all the words `ws`, read from `mode` on.
pub open spec fn final_mode(ws: Seq<Seq<char>>, mode: Mode) -> Mode
    decreases ws.len(),
{
    if ws.len() == 0 {
        mode
    } else {
        final_mode(ws.skip(1), scan(mode, ws[0]))
    }
}

/// A run that is one token: some words, with a construct open after each of
/// them but the last.
pub open spec fn whole(r: Seq<Seq<char>>) -> bool {
    r.len() > 0 && all_words(r) && run_len(r, Mode::Text) == r.len()
}

/// A run after which no construct is open.
pub open spec fn closed(r: Seq<Seq<char>>) -> bool {
    final_mode(r, Mode::Text) == Mode::Text
}

/// Runs as the tokenizer makes them: each is one token, and only the last may
/// leave a construct open.
pub open spec fn valid_runs(rs: Seq<Seq<Seq<char>>>) -> bool {
    forall|i: int|
        0 <= i < rs.len() ==> whole(#[trigger] rs[i]) && (i < rs.len() - 1 ==> closed(rs[i]))
}

/// The words that belong to an open run are a run of that very length.
pub proof fn lemma_rest_len_take(ws: Seq<Seq<char>>, mode: Mode)
    ensures
        rest_len(ws.take(rest_len(ws, mode) as int), mode) == rest_len(ws, mode),
    decreases ws.len(),
{
    lemma_rest_len_bound(ws, mode);
    if mode != Mode::Text && ws.len() > 0 {
        let n = rest_len(ws, mode) as int;
        let m1 = scan(mode, ws[0]);
        lemma_rest_len_take(ws.skip(1), m1);
        lemma_rest_len_bound(ws.skip(1), m1);
        assert(ws.take(n)[0] == ws[0]);
        assert(ws.take(n).skip(1) =~= ws.skip(1).take(n - 1));
    }
}

/// Where words are left after an open run, the run has closed its construct.
pub proof fn lemma_rest_len_closes(ws: Seq<Seq<char>>, mode: Mode)
    requires
        rest_len(ws, mode) < ws.len(),
    ensures
        final_mode(ws.take(rest_len(ws, mode) as int), mode) == Mode::Text,
    decreases ws.len(),
{
    if mode != Mode::Text && ws.len() > 0 {
        let n = rest_len(ws, mode) as int;
        let m1 = scan(mode, ws[0]);
        lemma_rest_len_closes(ws.skip(1), m1);
        assert(ws.take(n)[0] == ws[0]);
        assert(ws.take(n).skip(1) =~= ws.skip(1).take(n - 1));
    }
}

/// Words after a run that has closed its construct do not make it longer.
pub proof fn lemma_rest_len_append(r: Seq<Seq<char>>, rest: Seq<Seq<char>>, mode: Mode)
    requires
        rest_len(r, mode) == r.len(),
        final_mode(r, mode) == Mode::Text,
    ensures
        rest_len(r + rest, mode) == r.len(),
    decreases r.len(),
{
    if mode == Mode::Text {
        assert(r + rest =~= rest);
    } else if r.len() > 0 {
        let m1 = scan(mode, r[0]);
        lemma_rest_len_append(r.skip(1), rest, m1);
        assert((r + rest)[0] == r[0]);
        assert((r + rest).skip(1) =~= r.skip(1) + rest);
    }
}

/// The first run of some words is one token, and it has closed its
/// construct where words are left after it.
pub proof fn lemma_first_run(ws: Seq<Seq<char>>)
    requires
        ws.len() > 0,
        all_words(ws),
    ensures
        1 <= run_len(ws, Mode::Text) <= ws.len(),
        whole(ws.take(run_len(ws, Mode::Text) as int)),
        run_len(ws, Mode::Text) < ws.len() ==> closed(ws.take(run_len(ws, Mode::Text) as int)),
{
    let n = run_len(ws, Mode::Text) as int;
    let m1 = scan(Mode::Text, ws[0]);
    let r = ws.take(n);
    lemma_rest_len_bound(ws.skip(1), m1);
    lemma_rest_len_take(ws.skip(1), m1);
    assert(r[0] == ws[0]);
    assert(r.skip(1) =~= ws.skip(1).take(n - 1));
    assert forall|i: int| 0 <= i < r.len() implies is_word(#[trigger] r[i]) by {
        assert(r[i] == ws[i]);
    }
    if n < ws.len() {
        lemma_rest_len_closes(ws.skip(1), m1);
    }
}

/// A run that is one token and has closed its construct is the first run of
/// itself and whatever follows.
pub proof fn lemma_run_len_append(r: Seq<Seq<char>>, rest: Seq<Seq<char>>)
    requires
        whole(r),
        closed(r),
    ensures
        run_len(r + rest, Mode::Text) == r.len(),
{
    let m1 = scan(Mode::Text, r[0]);
    lemma_rest_len_append(r.skip(1), rest, m1);
    assert((r + rest)[0] == r[0]);
    assert((r + rest).skip(1) =~= r.skip(1) + rest);
}

/// The runs of some words are valid, and together they are the words.
pub proof fn lemma_grouped_valid(ws: Seq<Seq<char>>)
    requires
        all_words(ws),
    ensures
        valid_runs(grouped(ws)),
        grouped(ws).flatten() == ws,
    decreases ws.len(),
{
    if ws.len() == 0 {
        assert(grouped(ws).flatten() =~= ws);
    } else {
        lemma_first_run(ws);
        let n = run_len(ws, Mode::Text) as int;
        let r = ws.take(n);
        let tail = ws.skip(n);
        assert forall|i: int| 0 <= i < tail.len() implies is_word(
            #[trigger] tail[i],
        ) by {
            assert(tail[i] == ws[n + i]);
        }
        lemma_grouped_valid(tail);
        let rs = grouped(ws);
        let rest = grouped(tail);
        assert(rs == seq![r] + rest);
        assert(rs.drop_first() =~= rest);
        assert(rs.first() == r);
        assert(rs.flatten() =~= ws);
        assert forall|i: int| 0 <= i < rs.len() implies whole(#[trigger] rs[i]) && (i < rs.len()
            - 1 ==> closed(rs[i])) by {
            if i == 0 {
                if rs.len() > 1 {
                    assert(rest.len() > 0);
                    assert(tail.len() > 0);
                }
            } else {
                assert(rs[i] == rest[i - 1]);
            }
        }
    }
}

/// Valid runs, taken together as words, are grouped into themselves.
pub proof fn lemma_regroup(rs: Seq<Seq<Seq<char>>>)
    requires
        valid_runs(rs),
    ensures
        grouped(rs.flatten()) == rs,
    decreases rs.len(),
{
    if rs.len() == 0 {
        assert(grouped(rs.flatten()) =~= rs);
    } else {
        let r = rs.first();
        let rest = rs.drop_first();
        let ws = rs.flatten();
        assert(whole(rs[0]));
        assert forall|i: int| 0 <= i < rest.len() implies whole(#[trigger] rest[i]) && (i
            < rest.len() - 1 ==> closed(rest[i])) by {
            assert(rest[i] == rs[i + 1]);
        }
        lemma_regroup(rest);
        assert(ws == r + rest.flatten());
        if rest.len() == 0 {
            assert(rest.flatten() =~= Seq::<Seq<char>>::empty());
            assert(ws =~= r);
        } else {
            assert(closed(rs[0]));
            lemma_run_len_append(r, rest.flatten());
        }
        let n = run_len(ws, Mode::Text) as int;
        assert(n == r.len());
        assert(ws.take(n) =~= r);
        assert(ws.skip(n) =~= rest.flatten());
        assert(grouped(ws) =~= rs);
    }
}

/// A part of valid runs is valid: the runs before a place, and those from
/// it on.
pub proof fn lemma_valid_runs_cut(rs: Seq<Seq<Seq<char>>>, c: int)
    requires
        valid_runs(rs),
        0 <= c <= rs.len(),
    ensures
        valid_runs(rs.take(c)),
        valid_runs(rs.skip(c)),
{
    let a = rs.take(c);
    let b = rs.skip(c);
    assert forall|i: int| 0 <= i < a.len() implies whole(#[trigger] a[i]) && (i < a.len() - 1
        ==> closed(a[i])) by {
        assert(a[i] == rs[i]);
    }
    assert forall|i: int| 0 <= i < b.len() implies whole(#[trigger] b[i]) && (i < b.len() - 1
        ==> closed(b[i])) by {
        assert(b[i] == rs[c + i]);
    }
}

} // verus!
