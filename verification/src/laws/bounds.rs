//! The lines of a paragraph that is wrapped again keep the width and the
//! indentation.

use crate::laws::packing::lemma_joined_trimmed;
use crate::laws::preservation::lemma_indent_blank;
use crate::laws::runs::{lemma_grouped_valid, whole};
use crate::reflow::rewrapped;
use crate::text::{lead, space};
use crate::tokenize::{grouped, token_texts};
use crate::unwrap::{indent_of, text_of};
use crate::words::{all_words, lemma_words_are_words, words};
use crate::wrap::{all_trimmed, lemma_wrapped_indent, lemma_wrapped_width, lone};
use vstd::prelude::*;

verus! {

/// Every token of a text begins and ends with a character that is no
/// whitespace.
pub proof fn lemma_tokens_trimmed(text: Seq<char>)
    ensures
        all_trimmed(token_texts(text)),
{
    lemma_words_are_words(text);
    lemma_grouped_valid(words(text));
    let rs = grouped(words(text));
    assert forall|i: int| 0 <= i < rs.len() implies (#[trigger] rs[i]).len() > 0 && all_words(
        rs[i],
    ) by {
        assert(whole(rs[i]));
    }
    lemma_joined_trimmed(rs);
}

/// Every line of a paragraph that is wrapped again is within the width, but
/// for a line that holds nothing but the indentation and a single token.
pub proof fn lemma_rewrap_width(lines: Seq<Seq<char>>, width: int)
    ensures
        forall|i: int|
            0 <= i < rewrapped(lines, width).len() ==> (#[trigger] rewrapped(lines, width)[i]).len()
                <= width || lone(
                rewrapped(lines, width)[i],
                token_texts(text_of(lines)),
                indent_of(lines),
            ),
{
    lemma_wrapped_width(token_texts(text_of(lines)), indent_of(lines), width);
}

/// Every line of a paragraph that is wrapped again begins with the
/// indentation of the paragraph and has no other whitespace before its first
/// word, nor any at its end.
pub proof fn lemma_rewrap_indent(lines: Seq<Seq<char>>, width: int)
    ensures
        forall|i: int|
            0 <= i < rewrapped(lines, width).len() ==> {
                let line = #[trigger] rewrapped(lines, width)[i];
                &&& indent_of(lines).is_prefix_of(line)
                &&& lead(line) == indent_of(lines).len()
                &&& line.len() > indent_of(lines).len()
                &&& !space(line.last())
            },
{
    lemma_indent_blank(lines);
    lemma_tokens_trimmed(text_of(lines));
    lemma_wrapped_indent(token_texts(text_of(lines)), indent_of(lines), width);
}

} // verus!
