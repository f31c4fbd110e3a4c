//! The tokenizer: words, and markup constructs that hold several of them.

use crate::text::{lemma_line_view, push_range};
use crate::words::{join, lemma_join_push, split_words, words};
use vstd::prelude::*;

verus! {

broadcast use lemma_line_view;

/// Where a scan stands: in plain text, inside a tag in angle brackets, or
/// inside a span between two backticks.
#[derive(Clone, Copy, PartialEq, Eq, Debug, Structural)]
pub enum Mode {
    Text,
    Tag,
    Span,
}

/// What a token is: a plain word, a word that ends in a punctuation mark, or
/// a piece of text with a markup construct in it.
#[derive(Clone, Copy, PartialEq, Eq, Debug, Structural)]
pub enum TokenKind {
    Word,
    Punctuated,
    Markup,
}

/// A piece of text that no line break may part.
#[derive(Clone, Debug, PartialEq, Eq)]
pub struct Token {
    pub text: Vec<char>,
    pub kind: TokenKind,
}

/// The mode after the character `c`, read in `mode`. `more` says that the
/// word goes on after `c`: a `<` or a backtick opens a construct only when
/// another character follows it directly.
pub open spec fn step(mode: Mode, c: char, more: bool) -> Mode {
    match mode {
        Mode::Text => if c == '<' && more {
            Mode::Tag
        } else if c == '`' && more {
            Mode::Span
        } else {
            Mode::Text
        },
        Mode::Tag => if c == '>' {
            Mode::Text
        } else {
            Mode::Tag
        },
        Mode::Span => if c == '`' {
            Mode::Text
        } else {
            Mode::Span
        },
    }
}

/// The mode after the word `w`, read from `mode` on.
pub open spec fn scan(mode: Mode, w: Seq<char>) -> Mode
    decreases w.len(),
{
    if w.len() == 0 {
        mode
    } else {
        scan(step(mode, w[0], w.len() > 1), w.skip(1))
    }
}

/// Whether the scan of `w` from `mode` on is, after some character, inside a
/// construct.
pub open spec fn leaves_text(mode: Mode, w: Seq<char>) -> bool
    decreases w.len(),
{
    if w.len() == 0 {
        false
    } else {
        let m = step(mode, w[0], w.len() > 1);
        m != Mode::Text || leaves_text(m, w.skip(1))
    }
}

/// The number of words of `ws` up to and including the first after which the
/// scan, begun in `mode`, is back in plain text: all of them if there is none.
pub open spec fn run_len(ws: Seq<Seq<char>>, mode: Mode) -> nat
    decreases ws.len(),
{
    if ws.len() == 0 {
        0
    } else {
        1 + rest_len(ws.skip(1), scan(mode, ws[0]))
    }
}

/// The number of words of `ws` that still belong to a run which stands in
/// `mode` before them.
pub open spec fn rest_len(ws: Seq<Seq<char>>, mode: Mode) -> nat
    decreases ws.len(),
{
    if mode == Mode::Text || ws.len() == 0 {
        0
    } else {
        1 + rest_len(ws.skip(1), scan(mode, ws[0]))
    }
}

/// The words `ws` in runs, one run for each token: a run ends with the first
/// word after which no construct is open.
pub open spec fn grouped(ws: Seq<Seq<char>>) -> Seq<Seq<Seq<char>>>
    decreases ws.len(),
{
    if ws.len() == 0 {
        Seq::empty()
    } else {
        proof {
            lemma_rest_len_bound(ws.skip(1), scan(Mode::Text, ws[0]));
        }
        let n = run_len(ws, Mode::Text) as int;
        seq![ws.take(n)] + grouped(ws.skip(n))
    }
}

/// Each run joined into one text.
pub open spec fn joined(runs: Seq<Seq<Seq<char>>>) -> Seq<Seq<char>> {
    Seq::new(runs.len(), |i: int| join(runs[i]))
}

/// The texts of the tokens of `text`, in order.
pub open spec fn token_texts(text: Seq<char>) -> Seq<Seq<char>> {
    joined(grouped(words(text)))
}

/// Whether `c` is a punctuation mark that ends a word.
pub open spec fn punctuation(c: char) -> bool {
    c == '.' || c == ',' || c == ';' || c == ':' || c == '!' || c == '?' || c == ')' || c == ']'
        || c == '}' || c == '"' || c == '\''
}

/// The kind of the token made of `run`.
pub open spec fn kind_of(run: Seq<Seq<char>>) -> TokenKind {
    let text = join(run);
    if run.len() > 0 && leaves_text(Mode::Text, run[0]) {
        TokenKind::Markup
    } else if text.len() > 0 && punctuation(text.last()) {
        TokenKind::Punctuated
    } else {
        TokenKind::Word
    }
}

/// The texts of `tokens`.
pub open spec fn texts(tokens: Seq<Token>) -> Seq<Seq<char>> {
    Seq::new(tokens.len(), |i: int| tokens[i].text@)
}

/// Whether `tokens` are of the kinds that `runs` give them.
pub open spec fn kinds_match(tokens: Seq<Token>, runs: Seq<Seq<Seq<char>>>) -> bool {
    &&& tokens.len() == runs.len()
    &&& forall|i: int| 0 <= i < tokens.len() ==> (#[trigger] tokens[i]).kind == kind_of(runs[i])
}

/// A run holds no more words than there are.
pub proof fn lemma_rest_len_bound(ws: Seq<Seq<char>>, mode: Mode)
    ensures
        rest_len(ws, mode) <= ws.len(),
    decreases ws.len(),
{
    if mode != Mode::Text && ws.len() > 0 {
        lemma_rest_len_bound(ws.skip(1), scan(mode, ws[0]));
    }
}

impl Token {
    /// The number of columns that the token takes.
    pub fn width(&self) -> (w: usize)
        ensures
            w == self.text@.len(),
    {
        self.text.len()
    }
}

/// Tells whether `c` is a punctuation mark that ends a word.
pub fn is_punctuation(c: char) -> (b: bool)
    ensures
        b == punctuation(c),
{
    c == '.' || c == ',' || c == ';' || c == ':' || c == '!' || c == '?' || c == ')' || c == ']'
        || c == '}' || c == '"' || c == '\''
}

/// Reads one character.
pub fn advance(mode: Mode, c: char, more: bool) -> (next: Mode)
    ensures
        next == step(mode, c, more),
{
    match mode {
        Mode::Text => if c == '<' && more {
            Mode::Tag
        } else if c == '`' && more {
            Mode::Span
        } else {
            Mode::Text
        },
        Mode::Tag => if c == '>' {
            Mode::Text
        } else {
            Mode::Tag
        },
        Mode::Span => if c == '`' {
            Mode::Text
        } else {
            Mode::Span
        },
    }
}

/// Reads one word: the mode after it, and whether a construct was open at
/// some point.
pub fn scan_word(mode: Mode, w: &Vec<char>) -> (r: (Mode, bool))
    ensures
        r.0 == scan(mode, w@),
        r.1 == leaves_text(mode, w@),
{
    let mut m: Mode = mode;
    let mut left: bool = false;
    let mut i: usize = 0;
    assert(w@.skip(0) =~= w@);
    while i < w.len()
        invariant
            i <= w.len(),
            scan(mode, w@) == scan(m, w@.skip(i as int)),
            leaves_text(mode, w@) == (left || leaves_text(m, w@.skip(i as int))),
        decreases w.len() - i,
    {
        let ghost rest = w@.skip(i as int);
        assert(rest[0] == w@[i as int]);
        assert(rest.skip(1) =~= w@.skip(i + 1));
        m = advance(m, w[i], i + 1 < w.len());
        if m != Mode::Text {
            left = true;
        }
        i += 1;
    }
    (m, left)
}

/// Groups words into tokens. A word that opens a construct takes the words
/// after it along, up to the one that closes the construct.
pub fn group_words(ws: &Vec<Vec<char>>) -> (tokens: Vec<Token>)
    ensures
        texts(tokens@) == joined(grouped(ws.deep_view())),
        kinds_match(tokens@, grouped(ws.deep_view())),
{
    let ghost all = ws.deep_view();
    let ghost mut done: Seq<Seq<Seq<char>>> = Seq::empty();
    let mut tokens: Vec<Token> = Vec::new();
    let mut i: usize = 0;
    assert(all.skip(0) =~= all);
    assert(texts(tokens@) =~= joined(done));
    while i < ws.len()
        invariant
            i <= ws.len(),
            all == ws.deep_view(),
            grouped(all) == done + grouped(all.skip(i as int)),
            texts(tokens@) == joined(done),
            kinds_match(tokens@, done),
        decreases ws.len() - i,
    {
        let start: usize = i;
        let ghost tail = all.skip(start as int);
        assert(tail[0] == all[start as int]);
        let first = scan_word(Mode::Text, &ws[i]);
        let mut mode: Mode = first.0;
        let mut text: Vec<char> = Vec::new();
        push_range(&mut text, &ws[i], 0, ws[i].len());
        i += 1;
        proof {
            assert(ws[start as int]@.subrange(0, ws[start as int]@.len() as int) =~= ws[start as int]@);
            assert(all.subrange(start as int, i as int) =~= seq![all[start as int]]);
            assert(tail.skip(1) =~= all.skip(i as int));
        }
        while mode != Mode::Text && i < ws.len()
            invariant
                start < i <= ws.len(),
                all == ws.deep_view(),
                tail == all.skip(start as int),
                text@ == join(all.subrange(start as int, i as int)),
                run_len(tail, Mode::Text) == (i - start) + rest_len(all.skip(i as int), mode),
            decreases ws.len() - i,
        {
            let ghost rest = all.skip(i as int);
            let ghost sofar = all.subrange(start as int, i as int);
            assert(rest[0] == all[i as int]);
            assert(rest.skip(1) =~= all.skip(i + 1));
            let next = scan_word(mode, &ws[i]);
            mode = next.0;
            text.push(' ');
            push_range(&mut text, &ws[i], 0, ws[i].len());
            proof {
                assert(ws[i as int]@.subrange(0, ws[i as int]@.len() as int) =~= ws[i as int]@);
                assert(all.subrange(start as int, i + 1) =~= sofar.push(all[i as int]));
                lemma_join_push(sofar, all[i as int]);
                assert(text@ =~= join(sofar) + seq![' '] + all[i as int]);
            }
            i += 1;
        }
        let ghost n = i - start;
        let ghost run = tail.take(n);
        proof {
            lemma_rest_len_bound(tail.skip(1), scan(Mode::Text, tail[0]));
            assert(run_len(tail, Mode::Text) == n);
            assert(run =~= all.subrange(start as int, i as int));
            assert(tail.skip(n) =~= all.skip(i as int));
            assert(run[0] == all[start as int]);
        }
        let kind = if first.1 {
            TokenKind::Markup
        } else if text.len() > 0 && is_punctuation(text[text.len() - 1]) {
            TokenKind::Punctuated
        } else {
            TokenKind::Word
        };
        let ghost before = tokens@;
        let ghost line = text@;
        tokens.push(Token { text, kind });
        proof {
            assert(grouped(tail) == seq![run] + grouped(tail.skip(n)));
            assert(done.push(run) + grouped(all.skip(i as int)) =~= done + grouped(tail));
            assert(line == join(run));
            assert forall|k: int| 0 <= k < tokens@.len() implies texts(tokens@)[k] == joined(
                done.push(run),
            )[k] by {
                if k < before.len() {
                    assert(tokens@[k] == before[k]);
                    assert(texts(before)[k] == joined(done)[k]);
                } else {
                    assert(tokens@[k].text@ == line);
                }
            }
            assert(texts(tokens@) =~= joined(done.push(run)));
            assert forall|k: int| 0 <= k < tokens@.len() implies (#[trigger] tokens@[k]).kind
                == kind_of(done.push(run)[k]) by {
                if k < before.len() {
                    assert(tokens@[k] == before[k]);
                }
            }
            done = done.push(run);
        }
    }
    proof {
        assert(all.skip(i as int) =~= Seq::<Seq<char>>::empty());
        assert(done + grouped(all.skip(i as int)) =~= done);
    }
    tokens
}

/// Splits `text` into its tokens: its words, where those of one markup
/// construct make one token, with single spaces between them.
pub fn tokenize(text: &Vec<char>) -> (tokens: Vec<Token>)
    ensures
        texts(tokens@) == token_texts(text@),
        kinds_match(tokens@, grouped(words(text@))),
{
    let ws = split_words(text);
    group_words(&ws)
}

} // verus!
