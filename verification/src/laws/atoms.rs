//! No token is parted: every line holds whole tokens, and every token stands
//! on one line.

use crate::words::join;
use crate::wrap::{first_count, lemma_extra_bound, wrapped};
use vstd::prelude::*;

verus! {

/// The tokens `ts` line by line, as they are packed.
pub open spec fn packed(ts: Seq<Seq<char>>, indent_len: int, width: int) -> Seq<Seq<Seq<char>>>
    decreases ts.len(),
{
    if ts.len() == 0 {
        Seq::empty()
    } else {
        proof {
            lemma_extra_bound(ts.skip(1), indent_len + ts[0].len(), width);
        }
        let n = first_count(ts, indent_len, width) as int;
        seq![ts.take(n)] + packed(ts.skip(n), indent_len, width)
    }
}

/// Every line is the indentation and some whole tokens with single spaces
/// between them, and the tokens of all lines, in order, are the tokens that
/// were given: none is parted, lost, doubled or moved.
pub proof fn lemma_tokens_whole(ts: Seq<Seq<char>>, indent: Seq<char>, width: int)
    ensures
        packed(ts, indent.len() as int, width).len() == wrapped(ts, indent, width).len(),
        forall|i: int|
            0 <= i < wrapped(ts, indent, width).len() ==> (#[trigger] packed(
                ts,
                indent.len() as int,
                width,
            )[i]).len() > 0 && wrapped(ts, indent, width)[i] == indent + join(
                packed(ts, indent.len() as int, width)[i],
            ),
        packed(ts, indent.len() as int, width).flatten() == ts,
    decreases ts.len(),
{
    let groups = packed(ts, indent.len() as int, width);
    let all = wrapped(ts, indent, width);
    if ts.len() == 0 {
        assert(groups.flatten() =~= ts);
    } else {
        lemma_extra_bound(ts.skip(1), (indent.len() + ts[0].len()) as int, width);
        let n = first_count(ts, indent.len() as int, width) as int;
        let tail = ts.skip(n);
        lemma_tokens_whole(tail, indent, width);
        let rest_groups = packed(tail, indent.len() as int, width);
        let rest = wrapped(tail, indent, width);
        assert(groups.drop_first() =~= rest_groups);
        assert(groups.first() == ts.take(n));
        assert(groups.flatten() =~= ts.take(n) + tail);
        assert(ts.take(n) + tail =~= ts);
        assert forall|i: int| 0 <= i < all.len() implies (#[trigger] groups[i]).len() > 0
            && all[i] == indent + join(groups[i]) by {
            if i > 0 {
                assert(groups[i] == rest_groups[i - 1]);
                assert(all[i] == rest[i - 1]);
            }
        }
    }
}

} // verus!
