//! What the encoder chooses: the longest match for each position, and the
//! tokens that follow from it.
//!
//! The encoder looks at the 256 bytes before the position it is at, the
//! window, and at up to 16 bytes from that position on. The stream is taken
//! to be preceded by zeros, so that the window is full from the first byte.
//! A match may run into the bytes it stands for.

use crate::bits::pack;
use crate::format::{Token, tokens_bits};
use vstd::prelude::*;

verus! {

/// A stream with the window of zeros that precedes it. Stream position `p`
/// is index `p + 256` of the result.
pub open spec fn with_history(s: Seq<u8>) -> Seq<u8> {
    Seq::new(256, |i: int| 0u8) + s
}

/// Number of bytes, up to `maxlen`, on which what starts at `pos` agrees
/// with what starts at `end`.
pub open spec fn match_len(buf: Seq<u8>, pos: int, end: int, maxlen: nat) -> nat
    decreases maxlen,
{
    if maxlen == 0 || buf[pos] != buf[end] {
        0
    } else {
        1 + match_len(buf, pos + 1, end + 1, (maxlen - 1) as nat)
    }
}

/// The best match among the positions `start .. end`, as its position and
/// its length: the longest, and among the longest the one nearest to `end`.
/// The length is zero where nothing matches.
pub open spec fn best_match(buf: Seq<u8>, start: int, end: int, maxlen: nat) -> (int, nat)
    decreases end - start,
{
    if start >= end {
        (0, 0)
    } else {
        let later = best_match(buf, start + 1, end, maxlen);
        let here = match_len(buf, start, end, maxlen);
        if here > later.1 {
            (start, here)
        } else {
            later
        }
    }
}

/// Number of bits that a backreference takes in the stream: the tag bit,
/// the distance and the length.
pub open spec fn backref_bits() -> nat {
    1 + 8 + 4
}

/// A match pays only if it is longer than the whole bytes that a
/// backreference takes to write.
pub open spec fn break_even() -> nat {
    backref_bits() / 8
}

/// The match that the encoder takes for the bytes at `end`, as a distance
/// back from `end` and a length; `None` where the best match does not pay.
pub open spec fn longest_match(buf: Seq<u8>, start: int, end: int, maxlen: nat) -> Option<
    (int, nat),
> {
    let best = best_match(buf, start, end, maxlen);
    if best.1 > break_even() {
        Some((end - best.0, best.1))
    } else {
        None
    }
}

/// Number of bytes that the encoder may look at from position `p` on.
pub open spec fn lookahead_at(s: Seq<u8>, p: int) -> nat {
    if s.len() - p < 16 {
        (s.len() - p) as nat
    } else {
        16
    }
}

/// The token that the encoder writes for position `p` of the stream `s`.
pub open spec fn next_token(s: Seq<u8>, p: int) -> Token {
    match longest_match(with_history(s), p, p + 256, lookahead_at(s, p)) {
        Some((distance, length)) => Token::Backref { distance: distance as nat, length },
        None => Token::Literal { byte: s[p] },
    }
}

/// The position that the encoder is at after the token for position `p`.
pub open spec fn next_position(s: Seq<u8>, p: int) -> int {
    p + next_token(s, p).span()
}

/// The position at which the encoder arrives when it starts at `from` and
/// writes tokens for as long as it is before `to`.
pub open spec fn scan_end(s: Seq<u8>, from: int, to: int) -> int
    decreases to - from,
{
    if from >= to || next_position(s, from) <= from {
        from
    } else if next_position(s, from) >= to {
        next_position(s, from)
    } else {
        scan_end(s, next_position(s, from), to)
    }
}

/// The tokens that the encoder writes when it starts at `from` and goes on
/// for as long as it is before `to`.
pub open spec fn tokens_range(s: Seq<u8>, from: int, to: int) -> Seq<Token>
    decreases to - from,
{
    if from >= to || next_position(s, from) <= from {
        Seq::empty()
    } else if next_position(s, from) >= to {
        seq![next_token(s, from)]
    } else {
        seq![next_token(s, from)] + tokens_range(s, next_position(s, from), to)
    }
}

/// The tokens that a whole stream is encoded as.
pub open spec fn encode_tokens(s: Seq<u8>) -> Seq<Token> {
    tokens_range(s, 0, s.len() as int)
}

/// The bytes that a whole stream is compressed to.
pub open spec fn encode_spec(s: Seq<u8>) -> Seq<u8> {
    pack(tokens_bits(encode_tokens(s)))
}

/// Whether what starts at `pos` agrees with what starts at `end` on `len`
/// bytes.
pub open spec fn agree(buf: Seq<u8>, pos: int, end: int, len: int) -> bool {
    forall|i: int| pos <= i < pos + len ==> #[trigger] buf[i] == buf[i - pos + end]
}

/// A match length is the length of the longest agreement within `maxlen`.
pub proof fn lemma_match_len(buf: Seq<u8>, pos: int, end: int, maxlen: nat)
    ensures
        match_len(buf, pos, end, maxlen) <= maxlen,
        agree(buf, pos, end, match_len(buf, pos, end, maxlen) as int),
        match_len(buf, pos, end, maxlen) < maxlen ==> buf[pos + match_len(buf, pos, end, maxlen)]
            != buf[end + match_len(buf, pos, end, maxlen)],
    decreases maxlen,
{
    if maxlen == 0 || buf[pos] != buf[end] {
    } else {
        lemma_match_len(buf, pos + 1, end + 1, (maxlen - 1) as nat);
        let rest = match_len(buf, pos + 1, end + 1, (maxlen - 1) as nat);
        assert forall|i: int| pos <= i < pos + rest + 1 implies #[trigger] buf[i] == buf[i - pos
            + end] by {
            if i > pos {
                assert(buf[i] == buf[i - (pos + 1) + (end + 1)]);
            }
        }
    }
}

/// The longest agreement within `maxlen` is the match length.
pub proof fn lemma_match_len_is(buf: Seq<u8>, pos: int, end: int, maxlen: nat, len: nat)
    requires
        len <= maxlen,
        agree(buf, pos, end, len as int),
        len < maxlen ==> buf[pos + len] != buf[end + len],
    ensures
        match_len(buf, pos, end, maxlen) == len,
    decreases maxlen,
{
    if maxlen == 0 {
    } else if len == 0 {
    } else {
        assert(buf[pos] == buf[pos - pos + end]);
        assert forall|i: int| pos + 1 <= i < pos + 1 + (len - 1) implies #[trigger] buf[i] == buf[i
            - (pos + 1) + (end + 1)] by {
            assert(buf[i] == buf[i - pos + end]);
        }
        lemma_match_len_is(buf, pos + 1, end + 1, (maxlen - 1) as nat, (len - 1) as nat);
    }
}

/// The best match lies in the range searched and has the length it claims.
pub proof fn lemma_best_match(buf: Seq<u8>, start: int, end: int, maxlen: nat)
    ensures
        best_match(buf, start, end, maxlen).1 <= maxlen,
        best_match(buf, start, end, maxlen).1 > 0 ==> start <= best_match(
            buf,
            start,
            end,
            maxlen,
        ).0 < end && match_len(buf, best_match(buf, start, end, maxlen).0, end, maxlen)
            == best_match(buf, start, end, maxlen).1,
        forall|pos: int|
            start <= pos < end ==> match_len(buf, pos, end, maxlen) <= best_match(
                buf,
                start,
                end,
                maxlen,
            ).1,
    decreases end - start,
{
    if start < end {
        lemma_best_match(buf, start + 1, end, maxlen);
        lemma_match_len(buf, start, end, maxlen);
    }
}

/// Positions whose match is no longer than the best one found after them
/// do not change the best match.
pub proof fn lemma_best_match_skip(buf: Seq<u8>, from: int, to: int, end: int, maxlen: nat)
    requires
        from <= to <= end,
        forall|pos: int|
            from <= pos < to ==> match_len(buf, pos, end, maxlen) <= best_match(
                buf,
                to,
                end,
                maxlen,
            ).1,
    ensures
        best_match(buf, from, end, maxlen) == best_match(buf, to, end, maxlen),
    decreases to - from,
{
    if from < to {
        lemma_best_match_skip(buf, from + 1, to, end, maxlen);
    }
}

/// Once a match of the full length is found, no earlier position is
/// better.
pub proof fn lemma_best_match_full(buf: Seq<u8>, from: int, to: int, end: int, maxlen: nat)
    requires
        from <= to <= end,
        best_match(buf, to, end, maxlen).1 == maxlen,
    ensures
        best_match(buf, from, end, maxlen) == best_match(buf, to, end, maxlen),
{
    assert forall|pos: int| from <= pos < to implies match_len(buf, pos, end, maxlen)
        <= best_match(buf, to, end, maxlen).1 by {
        lemma_match_len(buf, pos, end, maxlen);
    }
    lemma_best_match_skip(buf, from, to, end, maxlen);
}

/// A match length depends only on the bytes it compares.
pub proof fn lemma_match_len_shift(
    a: Seq<u8>,
    b: Seq<u8>,
    shift: int,
    pos: int,
    end: int,
    maxlen: nat,
)
    requires
        forall|i: int| pos <= i < pos + maxlen ==> #[trigger] a[i] == b[i + shift],
        forall|i: int| end <= i < end + maxlen ==> #[trigger] a[i] == b[i + shift],
    ensures
        match_len(a, pos, end, maxlen) == match_len(b, pos + shift, end + shift, maxlen),
    decreases maxlen,
{
    if maxlen > 0 {
        assert(a[pos] == b[pos + shift]);
        assert(a[end] == b[end + shift]);
        if a[pos] == a[end] {
            lemma_match_len_shift(a, b, shift, pos + 1, end + 1, (maxlen - 1) as nat);
        }
    }
}

/// The best match depends only on the bytes searched and compared.
pub proof fn lemma_best_match_shift(
    a: Seq<u8>,
    b: Seq<u8>,
    shift: int,
    start: int,
    end: int,
    maxlen: nat,
)
    requires
        start <= end,
        forall|i: int| start <= i < end + maxlen ==> #[trigger] a[i] == b[i + shift],
    ensures
        best_match(a, start, end, maxlen).1 == best_match(b, start + shift, end + shift, maxlen).1,
        best_match(a, start, end, maxlen).1 > 0 ==> best_match(a, start, end, maxlen).0 + shift
            == best_match(b, start + shift, end + shift, maxlen).0,
        longest_match(a, start, end, maxlen) == longest_match(
            b,
            start + shift,
            end + shift,
            maxlen,
        ),
    decreases end - start,
{
    if start < end {
        lemma_best_match_shift(a, b, shift, start + 1, end, maxlen);
        lemma_match_len_shift(a, b, shift, start, end, maxlen);
    }
}

/// The token for a position is valid, and stands for at least one byte and
/// for no more bytes than the stream has left.
pub proof fn lemma_next_token(s: Seq<u8>, p: int)
    requires
        0 <= p < s.len(),
    ensures
        next_token(s, p).valid(),
        1 <= next_token(s, p).span() <= lookahead_at(s, p),
        p < next_position(s, p) <= s.len(),
{
    lemma_best_match(with_history(s), p, p + 256, lookahead_at(s, p));
}

/// With sixteen bytes of the stream to look at, the token for a position
/// does not depend on what comes after them.
pub proof fn lemma_next_token_extend(s: Seq<u8>, more: Seq<u8>, p: int)
    requires
        0 <= p,
        p + 16 <= s.len(),
    ensures
        next_token(s + more, p) == next_token(s, p),
{
    lemma_best_match_shift(with_history(s), with_history(s + more), 0, p, p + 256, 16);
}

/// A scan arrives at or after the position it was to reach, and within the
/// stream.
pub proof fn lemma_scan_end(s: Seq<u8>, from: int, to: int)
    requires
        0 <= from <= s.len(),
        to <= s.len(),
    ensures
        from <= scan_end(s, from, to) <= s.len(),
        from < to ==> to <= scan_end(s, from, to),
        from >= to ==> scan_end(s, from, to) == from,
        crate::format::all_valid(tokens_range(s, from, to)),
    decreases to - from,
{
    if from < to {
        lemma_next_token(s, from);
        if next_position(s, from) < to {
            lemma_scan_end(s, next_position(s, from), to);
        }
    }
}

/// A scan to `to` is a scan to a nearer place followed by a scan from
/// where that one arrived.
pub proof fn lemma_scan_split(s: Seq<u8>, from: int, mid: int, to: int)
    requires
        0 <= from <= s.len(),
        mid <= to <= s.len(),
    ensures
        tokens_range(s, from, to) == tokens_range(s, from, mid) + tokens_range(
            s,
            scan_end(s, from, mid),
            to,
        ),
        scan_end(s, from, to) == scan_end(s, scan_end(s, from, mid), to),
    decreases to - from,
{
    if from >= mid {
        assert(tokens_range(s, from, to) =~= tokens_range(s, from, mid) + tokens_range(
            s,
            from,
            to,
        ));
    } else {
        lemma_next_token(s, from);
        let next = next_position(s, from);
        if next < to {
            lemma_scan_split(s, next, mid, to);
        }
        assert(tokens_range(s, from, to) =~= tokens_range(s, from, mid) + tokens_range(
            s,
            scan_end(s, from, mid),
            to,
        ));
    }
}

/// A scan that has arrived at `at` is the same scan for every goal between
/// the one it had and `at`.
pub proof fn lemma_scan_same(s: Seq<u8>, from: int, near: int, far: int)
    requires
        0 <= from <= s.len(),
        near <= far <= scan_end(s, from, near),
        far <= s.len(),
    ensures
        tokens_range(s, from, far) == tokens_range(s, from, near),
        scan_end(s, from, far) == scan_end(s, from, near),
{
    lemma_scan_split(s, from, near, far);
    lemma_scan_end(s, from, near);
    assert(tokens_range(s, from, near) + Seq::<Token>::empty() =~= tokens_range(s, from, near));
}

/// A scan that stays sixteen bytes short of the end of the stream does not
/// depend on what comes after the stream.
pub proof fn lemma_scan_extend(s: Seq<u8>, more: Seq<u8>, from: int, to: int)
    requires
        0 <= from,
        to + 15 <= s.len() || to <= from,
    ensures
        tokens_range(s + more, from, to) == tokens_range(s, from, to),
        scan_end(s + more, from, to) == scan_end(s, from, to),
    decreases to - from,
{
    if from < to {
        lemma_next_token_extend(s, more, from);
        lemma_next_token(s, from);
        if next_position(s, from) < to {
            lemma_scan_extend(s, more, next_position(s, from), to);
        }
    }
}

/// Break-even: a position whose best match is no longer than the whole
/// bytes that a backreference takes is written as a literal, and a position
/// whose best match is longer, be it by one byte, is written as a
/// backreference to that match.
pub proof fn lemma_break_even(s: Seq<u8>, p: int)
    requires
        0 <= p < s.len(),
    ensures
        break_even() == 1,
        best_match(with_history(s), p, p + 256, lookahead_at(s, p)).1 <= break_even()
            ==> next_token(s, p) == (Token::Literal { byte: s[p] }),
        best_match(with_history(s), p, p + 256, lookahead_at(s, p)).1 > break_even()
            ==> next_token(s, p) == (Token::Backref {
            distance: (p + 256 - best_match(with_history(s), p, p + 256, lookahead_at(s, p)).0) as nat,
            length: best_match(with_history(s), p, p + 256, lookahead_at(s, p)).1,
        }),
{
    lemma_best_match(with_history(s), p, p + 256, lookahead_at(s, p));
}

} // verus!
