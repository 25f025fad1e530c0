//! Where the encoder asks for room in its output.
//!
//! The encoder writes a token in pieces: the tag bit, then the byte of a
//! literal, or the distance and then the length of a backreference. Before
//! each piece it asks whether the output has room for a byte, and after the
//! last piece of a backreference it asks once more before it moves on. The
//! bit positions at which it asks follow from the tokens alone.

use crate::format::{lemma_tokens_bits_push, Token, tokens_bits};
use vstd::prelude::*;

verus! {

/// Number of bits that the first `i` tokens take.
pub open spec fn offset(tokens: Seq<Token>, i: int) -> int {
    tokens_bits(tokens.take(i)).len() as int
}

/// Whether, in writing `tokens`, the encoder asks for room at bit position
/// `c` on account of token `i`: before its tag bit, after its tag bit, and
/// for a backreference after its distance and after its length.
pub open spec fn asks_at(tokens: Seq<Token>, i: int, c: int) -> bool {
    &&& 0 <= i < tokens.len()
    &&& (c == offset(tokens, i) || c == offset(tokens, i) + 1 || (tokens[i] is Backref && (c
        == offset(tokens, i) + 9 || c == offset(tokens, i) + 13)))
}

/// Whether, in writing `tokens`, the encoder asks for room at bit position
/// `c`.
pub open spec fn asks(tokens: Seq<Token>, c: int) -> bool {
    exists|i: int| #[trigger] asks_at(tokens, i, c)
}

/// The bits of one more token follow the bits of the tokens before it.
pub proof fn lemma_offset_next(tokens: Seq<Token>, i: int)
    requires
        0 <= i < tokens.len(),
    ensures
        offset(tokens, i + 1) == offset(tokens, i) + tokens[i].bit_len(),
        offset(tokens, 0) == 0,
{
    assert(tokens.take(i + 1) =~= tokens.take(i).push(tokens[i]));
    lemma_tokens_bits_push(tokens.take(i), tokens[i]);
    assert(tokens.take(0) =~= Seq::<Token>::empty());
}

/// Tokens that come later start later.
pub proof fn lemma_offset_grows(tokens: Seq<Token>, i: int, j: int)
    requires
        0 <= i <= j <= tokens.len(),
    ensures
        offset(tokens, i) <= offset(tokens, j),
        i < j ==> offset(tokens, i) + tokens[i].bit_len() <= offset(tokens, j),
    decreases j - i,
{
    if i < j {
        lemma_offset_next(tokens, i);
        lemma_offset_grows(tokens, i + 1, j);
    }
}

/// Between two places at which the encoder asks for room on account of one
/// token, one right after the other, it asks for none.
pub proof fn lemma_no_ask_between(tokens: Seq<Token>, j: int, from: int, to: int)
    requires
        0 <= j < tokens.len(),
        ({
            let s = offset(tokens, j);
            ||| from == s && to == s + 1
            ||| from == s + 1 && to == s + 9
            ||| tokens[j] is Backref && from == s + 9 && to == s + 13
        }),
    ensures
        asks(tokens, from),
        forall|c: int| from < c < to ==> !asks(tokens, c),
{
    assert(asks_at(tokens, j, from));
    assert forall|c: int| from < c < to implies !asks(tokens, c) by {
        assert forall|i: int| !asks_at(tokens, i, c) by {
            if 0 <= i < tokens.len() {
                lemma_offset_next(tokens, j);
                if i < j {
                    lemma_offset_grows(tokens, i, j);
                } else if i > j {
                    lemma_offset_grows(tokens, j + 1, i);
                }
            }
        }
    }
}

/// The encoder asks for room at the end of the tokens only after a
/// backreference, and nowhere past the end.
pub proof fn lemma_asks_at_end(tokens: Seq<Token>, c: int)
    requires
        asks(tokens, c),
    ensures
        0 <= c <= tokens_bits(tokens).len(),
        c == tokens_bits(tokens).len() ==> tokens.len() > 0 && tokens.last() is Backref,
{
    let i = choose|i: int| #[trigger] asks_at(tokens, i, c);
    lemma_offset_next(tokens, i);
    lemma_offset_grows(tokens, i + 1, tokens.len() as int);
    lemma_offset_grows(tokens, 0, i);
    lemma_offset_next(tokens, 0);
    assert(tokens.take(tokens.len() as int) =~= tokens);
    if c == tokens_bits(tokens).len() {
        if i + 1 < tokens.len() {
            lemma_offset_grows(tokens, i + 1, tokens.len() as int);
            lemma_offset_next(tokens, i + 1);
        }
    }
}

/// After a backreference the encoder asks for room.
pub proof fn lemma_asks_after_backref(tokens: Seq<Token>, i: int)
    requires
        0 <= i < tokens.len(),
        tokens[i] is Backref,
    ensures
        asks(tokens, offset(tokens, i + 1)),
{
    lemma_offset_next(tokens, i);
    assert(asks_at(tokens, i, offset(tokens, i + 1)));
}

} // verus!
