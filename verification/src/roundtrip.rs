//! Decoding undoes encoding.

use crate::bits::{lemma_bits_of_pack, packed_len, zero_bits};
use crate::format::{
    all_valid, apply_token, copy_back, decode_spec, expand, lemma_expand_push,
    lemma_parse_tokens_bits, look_back, parse_token, parse_tokens, Token, tokens_bits,
};
use crate::lzss::{
    encode_spec, encode_tokens, lemma_best_match, lemma_match_len, lemma_next_token,
    lemma_scan_end, lookahead_at, next_position, next_token, scan_end, tokens_range, with_history,
};
use vstd::prelude::*;

verus! {

/// Copying back over a stretch on which the stream agrees with itself
/// `distance` earlier gives that stretch of the stream.
pub proof fn lemma_copy_back_agrees(s: Seq<u8>, p: int, distance: nat, length: nat)
    requires
        0 <= p,
        p + length <= s.len(),
        1 <= distance <= 256,
        forall|i: int|
            p + 256 - distance <= i < p + 256 - distance + length ==> #[trigger] with_history(s)[i]
                == with_history(s)[i + distance],
    ensures
        copy_back(s.take(p), distance, length) == s.take(p + length),
    decreases length,
{
    if length > 0 {
        let at = p + 256 - distance;
        assert(with_history(s)[at] == with_history(s)[at + distance]);
        assert(look_back(s.take(p), distance) == s[p]);
        assert(s.take(p).push(s[p]) =~= s.take(p + 1));
        lemma_copy_back_agrees(s, p + 1, distance, (length - 1) as nat);
    }
}

/// The token for a position stands for the bytes of the stream from that
/// position on.
pub proof fn lemma_token_reproduces(s: Seq<u8>, p: int)
    requires
        0 <= p < s.len(),
    ensures
        apply_token(s.take(p), next_token(s, p)) == s.take(next_position(s, p)),
{
    lemma_next_token(s, p);
    match next_token(s, p) {
        Token::Literal { byte } => {
            assert(s.take(p).push(s[p]) =~= s.take(p + 1));
        },
        Token::Backref { distance, length } => {
            let h = with_history(s);
            let maxlen = lookahead_at(s, p);
            lemma_best_match(h, p, p + 256, maxlen);
            let pos = p + 256 - distance;
            lemma_match_len(h, pos, p + 256, maxlen);
            assert forall|i: int| pos <= i < pos + length implies #[trigger] h[i] == h[i
                + distance] by {
                assert(h[i] == h[i - pos + (p + 256)]);
            }
            lemma_copy_back_agrees(s, p, distance, length);
        },
    }
}

/// Tokens written from a position on, after tokens that stand for the
/// stream up to that position, stand for the stream up to where the scan
/// arrives.
pub proof fn lemma_expand_scan(s: Seq<u8>, before: Seq<Token>, from: int, to: int)
    requires
        0 <= from <= s.len(),
        to <= s.len(),
        expand(before) == s.take(from),
    ensures
        expand(before + tokens_range(s, from, to)) == s.take(scan_end(s, from, to)),
    decreases to - from,
{
    if from >= to {
        assert(before + tokens_range(s, from, to) =~= before);
    } else {
        lemma_next_token(s, from);
        let token = next_token(s, from);
        let next = next_position(s, from);
        lemma_token_reproduces(s, from);
        lemma_expand_push(before, token);
        if next >= to {
            assert(before + tokens_range(s, from, to) =~= before.push(token));
        } else {
            lemma_expand_scan(s, before.push(token), next, to);
            assert(before + tokens_range(s, from, to) =~= before.push(token) + tokens_range(
                s,
                next,
                to,
            ));
        }
    }
}

/// The tokens that a stream is encoded as stand for the stream.
pub proof fn lemma_encode_tokens_expand(s: Seq<u8>)
    ensures
        all_valid(encode_tokens(s)),
        expand(encode_tokens(s)) == s,
{
    lemma_scan_end(s, 0, s.len() as int);
    assert(s.take(0) =~= Seq::<u8>::empty());
    lemma_expand_scan(s, Seq::empty(), 0, s.len() as int);
    assert(Seq::<Token>::empty() + encode_tokens(s) =~= encode_tokens(s));
    assert(s.take(s.len() as int) =~= s);
}

/// The clear bits that pad the last byte hold no token.
pub proof fn lemma_padding_parses_empty(n: nat)
    requires
        n < 13,
    ensures
        parse_tokens(zero_bits(n)) == Seq::<Token>::empty(),
{
    assert(parse_token(zero_bits(n)) is None);
}

/// Round trip: decoding what a stream is encoded to gives the stream.
pub proof fn lemma_round_trip(s: Seq<u8>)
    ensures
        decode_spec(encode_spec(s)) == s,
{
    let tokens = encode_tokens(s);
    let bits = tokens_bits(tokens);
    lemma_encode_tokens_expand(s);
    lemma_bits_of_pack(bits);
    let padding = zero_bits((8 * packed_len(bits.len()) - bits.len()) as nat);
    lemma_parse_tokens_bits(tokens, padding);
    lemma_padding_parses_empty(padding.len());
    assert(tokens + Seq::<Token>::empty() =~= tokens);
}

} // verus!
