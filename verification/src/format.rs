//! The compressed format: tokens, how they are written as bits, and what
//! they expand to.
//!
//! A compressed stream is a run of tokens. A literal is a set tag bit followed
//! by the byte; a backreference is a clear tag bit followed by the distance
//! minus one in eight bits and the length minus one in four bits. A
//! backreference copies `length` bytes from `distance` bytes back in the
//! output, byte by byte, so that it may overlap what it writes; positions
//! before the start of the output read as zero.

use crate::bits::{
    bits_of_bytes, bits_value, lemma_bits_of_bytes_concat, lemma_bits_value_small,
    lemma_low_bits_value, low_bits,
};
use vstd::prelude::*;

verus! {

/// Bytes of history that a backreference can reach.
pub open spec fn window_size() -> nat {
    256
}

/// Longest run that one backreference can copy.
pub open spec fn lookahead_size() -> nat {
    16
}

/// One unit of the compressed stream.
pub enum Token {
    /// A byte given as it is.
    Literal { byte: u8 },
    /// A copy of `length` bytes that start `distance` bytes back.
    Backref { distance: nat, length: nat },
}

impl Token {
    /// Whether the token's fields fit the widths of the format.
    pub open spec fn valid(self) -> bool {
        match self {
            Token::Literal { .. } => true,
            Token::Backref { distance, length } => 1 <= distance <= window_size() && 1 <= length
                <= lookahead_size(),
        }
    }

    /// The token as it is written in the stream.
    pub open spec fn bits(self) -> Seq<bool> {
        match self {
            Token::Literal { byte } => seq![true] + low_bits(byte, 8),
            Token::Backref { distance, length } => seq![false] + low_bits(
                (distance - 1) as u8,
                8,
            ) + low_bits((length - 1) as u8, 4),
        }
    }

    /// Number of bits the token takes in the stream.
    pub open spec fn bit_len(self) -> nat {
        match self {
            Token::Literal { .. } => 9,
            Token::Backref { .. } => 13,
        }
    }

    /// Number of bytes the token stands for.
    pub open spec fn span(self) -> nat {
        match self {
            Token::Literal { .. } => 1,
            Token::Backref { length, .. } => length,
        }
    }
}

/// Whether every token of a sequence is valid.
pub open spec fn all_valid(tokens: Seq<Token>) -> bool {
    forall|i: int| 0 <= i < tokens.len() ==> (#[trigger] tokens[i]).valid()
}

/// The bits of a run of tokens.
pub open spec fn tokens_bits(tokens: Seq<Token>) -> Seq<bool>
    decreases tokens.len(),
{
    if tokens.len() == 0 {
        Seq::empty()
    } else {
        tokens_bits(tokens.drop_last()) + tokens.last().bits()
    }
}

/// The byte `distance` back from the end of `out`, zero before its start.
pub open spec fn look_back(out: Seq<u8>, distance: nat) -> u8 {
    if distance <= out.len() {
        out[out.len() - distance]
    } else {
        0
    }
}

/// `out` followed by `length` bytes copied from `distance` back, one byte at
/// a time.
pub open spec fn copy_back(out: Seq<u8>, distance: nat, length: nat) -> Seq<u8>
    decreases length,
{
    if length == 0 {
        out
    } else {
        copy_back(out.push(look_back(out, distance)), distance, (length - 1) as nat)
    }
}

/// `out` followed by what one token stands for.
pub open spec fn apply_token(out: Seq<u8>, token: Token) -> Seq<u8> {
    match token {
        Token::Literal { byte } => out.push(byte),
        Token::Backref { distance, length } => copy_back(out, distance, length),
    }
}

/// The bytes that a run of tokens stands for.
pub open spec fn expand(tokens: Seq<Token>) -> Seq<u8>
    decreases tokens.len(),
{
    if tokens.len() == 0 {
        Seq::empty()
    } else {
        apply_token(expand(tokens.drop_last()), tokens.last())
    }
}

/// The token at the front of `bits`, if all of it is there.
pub open spec fn parse_token(bits: Seq<bool>) -> Option<Token> {
    if bits.len() >= 9 && bits[0] {
        Some(Token::Literal { byte: bits_value(bits.subrange(1, 9)) as u8 })
    } else if bits.len() >= 13 && !bits[0] {
        Some(
            Token::Backref {
                distance: bits_value(bits.subrange(1, 9)) + 1,
                length: bits_value(bits.subrange(9, 13)) + 1,
            },
        )
    } else {
        None
    }
}

/// The complete tokens at the front of `bits`; an incomplete token at the
/// end is left out.
pub open spec fn parse_tokens(bits: Seq<bool>) -> Seq<Token>
    decreases bits.len(),
{
    match parse_token(bits) {
        None => Seq::empty(),
        Some(token) => seq![token] + parse_tokens(bits.skip(token.bit_len() as int)),
    }
}

/// What a compressed byte sequence decodes to.
pub open spec fn decode_spec(bytes: Seq<u8>) -> Seq<u8> {
    expand(parse_tokens(bits_of_bytes(bytes)))
}

/// Whether `a` is the beginning of `b`.
pub open spec fn is_prefix(a: Seq<u8>, b: Seq<u8>) -> bool {
    a.len() <= b.len() && b.take(a.len() as int) == a
}

/// A parsed token is valid.
pub proof fn lemma_parse_token_valid(bits: Seq<bool>)
    ensures
        parse_token(bits) is Some ==> parse_token(bits)->Some_0.valid(),
{
    if bits.len() >= 13 {
        lemma_bits_value_small(bits.subrange(1, 9));
        lemma_bits_value_small(bits.subrange(9, 13));
    }
}

/// A valid token written as bits, followed by anything, parses as itself.
pub proof fn lemma_parse_token_bits(token: Token, rest: Seq<bool>)
    requires
        token.valid(),
    ensures
        parse_token(token.bits() + rest) == Some(token),
        (token.bits() + rest).skip(token.bit_len() as int) == rest,
{
    let all = token.bits() + rest;
    assert(all.skip(token.bit_len() as int) =~= rest);
    match token {
        Token::Literal { byte } => {
            assert(all.subrange(1, 9) =~= low_bits(byte, 8));
            lemma_low_bits_value(byte, 8);
        },
        Token::Backref { distance, length } => {
            let d: u8 = (distance - 1) as u8;
            let l: u8 = (length - 1) as u8;
            assert(all.subrange(1, 9) =~= low_bits(d, 8));
            assert(all.subrange(9, 13) =~= low_bits(l, 4));
            lemma_low_bits_value(d, 8);
            assert(l >> 4u8 == 0) by (bit_vector)
                requires
                    l < 16,
            ;
            lemma_low_bits_value(l, 4);
        },
    }
}

/// The bits of a run of tokens with one more token.
pub proof fn lemma_tokens_bits_push(tokens: Seq<Token>, token: Token)
    ensures
        tokens_bits(tokens.push(token)) == tokens_bits(tokens) + token.bits(),
{
    assert(tokens.push(token).drop_last() =~= tokens);
}

/// The bits of valid tokens, followed by anything, parse as those tokens
/// followed by what the rest parses as.
pub proof fn lemma_parse_tokens_bits(tokens: Seq<Token>, rest: Seq<bool>)
    requires
        all_valid(tokens),
    ensures
        parse_tokens(tokens_bits(tokens) + rest) == tokens + parse_tokens(rest),
    decreases tokens.len(),
{
    if tokens.len() == 0 {
        assert(tokens_bits(tokens) + rest =~= rest);
        assert(tokens + parse_tokens(rest) =~= parse_tokens(rest));
    } else {
        let head = tokens.drop_last();
        let last = tokens.last();
        let tail = last.bits() + rest;
        assert(tokens_bits(tokens) + rest =~= tokens_bits(head) + tail);
        lemma_parse_tokens_bits(head, tail);
        lemma_parse_token_bits(last, rest);
        assert(parse_tokens(tail) == seq![last] + parse_tokens(rest));
        assert(head + (seq![last] + parse_tokens(rest)) =~= tokens + parse_tokens(rest));
    }
}

/// Copying back one byte more is copying back and then one byte.
pub proof fn lemma_copy_back_step(out: Seq<u8>, distance: nat, length: nat)
    ensures
        copy_back(out, distance, length + 1) == copy_back(out, distance, length).push(
            look_back(copy_back(out, distance, length), distance),
        ),
    decreases length,
{
    if length > 0 {
        lemma_copy_back_step(out.push(look_back(out, distance)), distance, (length - 1) as nat);
    } else {
        let next = out.push(look_back(out, distance));
        assert(copy_back(next, distance, 0) == next);
    }
}

/// Copying back appends exactly `length` bytes.
pub proof fn lemma_copy_back_extends(out: Seq<u8>, distance: nat, length: nat)
    ensures
        copy_back(out, distance, length).len() == out.len() + length,
        is_prefix(out, copy_back(out, distance, length)),
    decreases length,
{
    if length > 0 {
        let next = out.push(look_back(out, distance));
        lemma_copy_back_extends(next, distance, (length - 1) as nat);
        assert(copy_back(out, distance, length).take(out.len() as int) =~= copy_back(
            out,
            distance,
            length,
        ).take(next.len() as int).take(out.len() as int));
        assert(next.take(out.len() as int) =~= out);
    } else {
        assert(out.take(out.len() as int) =~= out);
    }
}

/// A token appends its span to the output.
pub proof fn lemma_apply_token_extends(out: Seq<u8>, token: Token)
    ensures
        apply_token(out, token).len() == out.len() + token.span(),
        is_prefix(out, apply_token(out, token)),
{
    match token {
        Token::Literal { byte } => {
            assert(out.push(byte).take(out.len() as int) =~= out);
        },
        Token::Backref { distance, length } => {
            lemma_copy_back_extends(out, distance, length);
        },
    }
}

/// A sequence is a prefix of itself.
pub proof fn lemma_prefix_refl(a: Seq<u8>)
    ensures
        is_prefix(a, a),
{
    assert(a.take(a.len() as int) =~= a);
}

/// Of two prefixes of one sequence the shorter is a prefix of the longer.
pub proof fn lemma_prefix_of_common(a: Seq<u8>, b: Seq<u8>, c: Seq<u8>)
    requires
        is_prefix(a, c),
        is_prefix(b, c),
        a.len() <= b.len(),
    ensures
        is_prefix(a, b),
{
    assert(b.take(a.len() as int) =~= c.take(b.len() as int).take(a.len() as int));
    assert(c.take(b.len() as int).take(a.len() as int) =~= c.take(a.len() as int));
}

/// Being a prefix is transitive.
pub proof fn lemma_prefix_trans(a: Seq<u8>, b: Seq<u8>, c: Seq<u8>)
    requires
        is_prefix(a, b),
        is_prefix(b, c),
    ensures
        is_prefix(a, c),
{
    assert(c.take(a.len() as int) =~= c.take(b.len() as int).take(a.len() as int));
}

/// The expansion of a run of tokens begins with the expansion of each of its
/// prefixes.
pub proof fn lemma_expand_concat(first: Seq<Token>, second: Seq<Token>)
    ensures
        is_prefix(expand(first), expand(first + second)),
    decreases second.len(),
{
    if second.len() == 0 {
        assert(first + second =~= first);
        assert(expand(first).take(expand(first).len() as int) =~= expand(first));
    } else {
        let all = first + second;
        assert(all.drop_last() =~= first + second.drop_last());
        lemma_expand_concat(first, second.drop_last());
        lemma_apply_token_extends(expand(all.drop_last()), all.last());
        lemma_prefix_trans(expand(first), expand(all.drop_last()), expand(all));
    }
}

/// The expansion of a run of tokens with one more token.
pub proof fn lemma_expand_push(tokens: Seq<Token>, token: Token)
    ensures
        expand(tokens.push(token)) == apply_token(expand(tokens), token),
{
    assert(tokens.push(token).drop_last() =~= tokens);
}

/// More bits at the end leave the tokens parsed so far as they are.
pub proof fn lemma_parse_tokens_extend(bits: Seq<bool>, more: Seq<bool>)
    ensures
        parse_tokens(bits).len() <= parse_tokens(bits + more).len(),
        parse_tokens(bits + more).take(parse_tokens(bits).len() as int) == parse_tokens(bits),
    decreases bits.len(),
{
    let all = bits + more;
    match parse_token(bits) {
        None => {
            assert(parse_tokens(all).take(0) =~= parse_tokens(bits));
        },
        Some(token) => {
            let used = token.bit_len() as int;
            assert(all.subrange(1, 9) =~= bits.subrange(1, 9));
            if !bits[0] {
                assert(all.subrange(9, 13) =~= bits.subrange(9, 13));
            }
            assert(parse_token(all) == Some(token));
            assert(all.skip(used) =~= bits.skip(used) + more);
            lemma_parse_tokens_extend(bits.skip(used), more);
            let short = parse_tokens(bits.skip(used));
            let long = parse_tokens(bits.skip(used) + more);
            assert((seq![token] + long).take(1 + short.len() as int) =~= seq![token] + long.take(
                short.len() as int,
            ));
        },
    }
}

/// What a compressed stream decodes to begins with what each of its
/// prefixes decodes to.
pub proof fn lemma_decode_extend(bytes: Seq<u8>, more: Seq<u8>)
    ensures
        is_prefix(decode_spec(bytes), decode_spec(bytes + more)),
{
    lemma_bits_of_bytes_concat(bytes, more);
    let short = parse_tokens(bits_of_bytes(bytes));
    let long = parse_tokens(bits_of_bytes(bytes + more));
    lemma_parse_tokens_extend(bits_of_bytes(bytes), bits_of_bytes(more));
    assert(long =~= short + long.skip(short.len() as int));
    lemma_expand_concat(short, long.skip(short.len() as int));
}

/// The bits of two runs of tokens, one after the other.
pub proof fn lemma_tokens_bits_concat(first: Seq<Token>, second: Seq<Token>)
    ensures
        tokens_bits(first + second) == tokens_bits(first) + tokens_bits(second),
    decreases second.len(),
{
    if second.len() == 0 {
        assert(first + second =~= first);
        assert(tokens_bits(first) + tokens_bits(second) =~= tokens_bits(first));
    } else {
        assert((first + second).drop_last() =~= first + second.drop_last());
        lemma_tokens_bits_concat(first, second.drop_last());
        assert(tokens_bits(first + second) =~= tokens_bits(first) + tokens_bits(second));
    }
}

/// The bits of a single token.
pub proof fn lemma_tokens_bits_one(token: Token)
    ensures
        tokens_bits(seq![token]) == token.bits(),
{
    assert(seq![token].drop_last() =~= Seq::<Token>::empty());
    assert(tokens_bits(Seq::<Token>::empty()) + token.bits() =~= token.bits());
}

/// Parsed tokens are valid.
pub proof fn lemma_parse_tokens_valid(bits: Seq<bool>)
    ensures
        all_valid(parse_tokens(bits)),
    decreases bits.len(),
{
    lemma_parse_token_valid(bits);
    match parse_token(bits) {
        None => {},
        Some(token) => {
            lemma_parse_tokens_valid(bits.skip(token.bit_len() as int));
        },
    }
}

/// Number of leading tokens that stand, together, for no more than `count`
/// bytes.
pub open spec fn whole_tokens(tokens: Seq<Token>, count: int) -> int
    decreases tokens.len(),
{
    if tokens.len() == 0 {
        0
    } else if expand(tokens).len() <= count {
        tokens.len() as int
    } else {
        whole_tokens(tokens.drop_last(), count)
    }
}

/// The leading tokens that stand for no more than `count` bytes are those
/// before the first token that goes past `count` bytes.
pub proof fn lemma_whole_tokens(tokens: Seq<Token>, count: int, i: int)
    requires
        0 <= i <= tokens.len(),
        expand(tokens.take(i)).len() <= count,
        i < tokens.len() ==> expand(tokens.take(i + 1)).len() > count,
    ensures
        whole_tokens(tokens, count) == i,
    decreases tokens.len(),
{
    if tokens.len() > 0 {
        assert(tokens.take(tokens.len() as int) =~= tokens);
        if expand(tokens).len() <= count {
            if i < tokens.len() {
                assert(tokens =~= tokens.take(i + 1) + tokens.skip(i + 1));
                lemma_expand_concat(tokens.take(i + 1), tokens.skip(i + 1));
            }
        } else {
            let head = tokens.drop_last();
            assert(head.take(i) =~= tokens.take(i));
            if i < head.len() {
                assert(head.take(i + 1) =~= tokens.take(i + 1));
            }
            lemma_whole_tokens(head, count, i);
        }
    }
}

/// How far the decoder reads into the token that starts at bit `at` before
/// it has room to hand out what the token stands for: the tag bit, and for
/// a backreference the distance and the length, as far as they are there.
pub open spec fn read_ahead(bits: Seq<bool>, at: int) -> int {
    if at >= bits.len() {
        at
    } else if bits[at] || at + 9 > bits.len() {
        at + 1
    } else if at + 13 > bits.len() {
        at + 9
    } else {
        at + 13
    }
}

/// The bit that the decoder has read up to when it has handed out `count`
/// bytes of what `bits` stand for and has read on as far as it can. In the
/// middle of a backreference that is the end of the backreference;
/// between tokens it is as far into the next token as can be read ahead.
#[verifier::opaque]
pub open spec fn position_after(bits: Seq<bool>, count: int) -> int {
    let tokens = parse_tokens(bits);
    let whole = whole_tokens(tokens, count);
    if expand(tokens.take(whole)).len() == count {
        read_ahead(bits, tokens_bits(tokens.take(whole)).len() as int)
    } else {
        tokens_bits(tokens.take(whole + 1)).len() as int
    }
}

} // verus!
