//! Bit-level vocabulary shared by the encoder and the decoder.
//!
//! The compressed stream is a sequence of bits, most significant bit of each
//! byte first. This module relates bytes to sequences of bits and proves the
//! few machine-arithmetic facts the two state machines rely on.

use vstd::arithmetic::power2::{lemma2_to64, lemma_pow2_unfold, pow2};
use vstd::prelude::*;

verus! {

/// Whether bit `k` of `v` is set, bit 0 being the least significant.
pub open spec fn bit(v: u8, k: u8) -> bool {
    (v >> k) & 1u8 == 1u8
}

/// The `width` least significant bits of `v`, most significant first.
pub open spec fn low_bits(v: u8, width: nat) -> Seq<bool> {
    Seq::new(width, |i: int| bit(v, (width - 1 - i) as u8))
}

/// Whether `v` can be written with `width` bits.
pub open spec fn fits(v: u8, width: nat) -> bool {
    width >= 8 || v >> (width as u8) == 0
}

/// The number that a sequence of bits spells, most significant bit first.
pub open spec fn bits_value(bits: Seq<bool>) -> nat
    decreases bits.len(),
{
    if bits.len() == 0 {
        0
    } else {
        2 * bits_value(bits.drop_last()) + if bits.last() {
            1nat
        } else {
            0nat
        }
    }
}

/// `n` bits that are all clear.
pub open spec fn zero_bits(n: nat) -> Seq<bool> {
    Seq::new(n, |i: int| false)
}

/// The bits of a byte sequence, in stream order.
pub open spec fn bits_of_bytes(bytes: Seq<u8>) -> Seq<bool> {
    Seq::new(8 * bytes.len(), |i: int| bit(bytes[i / 8], (7 - i % 8) as u8))
}

/// The eight bits that make up byte `j` of a packed bit sequence; positions
/// past the end of `bits` read as clear.
pub open spec fn chunk(bits: Seq<bool>, j: int) -> Seq<bool> {
    Seq::new(8, |k: int| 8 * j + k < bits.len() && bits[8 * j + k])
}

/// Byte `j` of a packed bit sequence.
pub open spec fn byte_at(bits: Seq<bool>, j: int) -> u8 {
    bits_value(chunk(bits, j)) as u8
}

/// The number of bytes needed to hold `n` bits.
pub open spec fn packed_len(n: nat) -> nat {
    (n + 7) / 8
}

/// A bit sequence packed into bytes, the last byte padded with clear bits.
pub open spec fn pack(bits: Seq<bool>) -> Seq<u8> {
    Seq::new(packed_len(bits.len()), |j: int| byte_at(bits, j))
}

/// How the bits of a number follow from those of its half.
proof fn lemma_halve(v: u8, w: u8, k: u8)
    by (bit_vector)
    requires
        1 <= w <= 8,
        k < 7,
    ensures
        (w == 8 || v >> w == 0) ==> (v / 2) >> ((w - 1) as u8) == 0,
        ((v >> ((k + 1) as u8)) & 1 == 1) == (((v / 2) >> k) & 1 == 1),
        ((v >> 0u8) & 1 == 1) == (v % 2 == 1),
        v >> 0u8 == 0 ==> v == 0,
{
}

/// Reading back the bits of a number gives the number.
pub proof fn lemma_low_bits_value(v: u8, width: nat)
    requires
        width <= 8,
        fits(v, width),
    ensures
        bits_value(low_bits(v, width)) == v,
    decreases width,
{
    if width == 0 {
        lemma_halve(v, 1, 0);
    } else {
        let h: u8 = v / 2;
        lemma_halve(v, width as u8, 0);
        lemma_low_bits_value(h, (width - 1) as nat);
        assert forall|i: int| 0 <= i < width - 1 implies low_bits(v, width)[i] == low_bits(
            h,
            (width - 1) as nat,
        )[i] by {
            lemma_halve(v, width as u8, (width - 2 - i) as u8);
        }
        assert(low_bits(v, width).drop_last() =~= low_bits(h, (width - 1) as nat));
        assert(v == 2 * (v / 2) + v % 2);
    }
}

/// Two bytes with the same bits are the same byte.
pub proof fn lemma_same_bits_same_byte(a: u8, b: u8)
    requires
        low_bits(a, 8) =~= low_bits(b, 8),
    ensures
        a == b,
{
    lemma_low_bits_value(a, 8);
    lemma_low_bits_value(b, 8);
}

/// A sequence of `n` bits spells a number below `2^n`.
pub proof fn lemma_bits_value_bound(bits: Seq<bool>)
    ensures
        bits_value(bits) < pow2(bits.len()),
    decreases bits.len(),
{
    if bits.len() == 0 {
        lemma2_to64();
    } else {
        lemma_bits_value_bound(bits.drop_last());
        lemma_pow2_unfold(bits.len());
    }
}

/// Up to eight bits spell a byte; four bits spell a number below sixteen.
pub proof fn lemma_bits_value_small(bits: Seq<bool>)
    ensures
        bits.len() <= 8 ==> bits_value(bits) < 256,
        bits.len() <= 4 ==> bits_value(bits) < 16,
{
    lemma_bits_value_bound(bits);
    lemma2_to64();
    if bits.len() <= 8 {
        vstd::arithmetic::power2::lemma_pow2_strictly_increases(bits.len(), 9);
    }
    if bits.len() <= 4 {
        vstd::arithmetic::power2::lemma_pow2_strictly_increases(bits.len(), 5);
    }
}

/// How the bits of a number follow from those of its double.
proof fn lemma_double(h: u8, c: u8, k: u8, n: u8)
    by (bit_vector)
    requires
        h < 128,
        c <= 1,
        k < 7,
        n < 8,
    ensures
        ((((2 * h + c) as u8) >> ((k + 1) as u8)) & 1 == 1) == ((h >> k) & 1 == 1),
        ((((2 * h + c) as u8) >> 0u8) & 1 == 1) == (c == 1),
        h >> n == 0 ==> (n < 7 ==> ((2 * h + c) as u8) >> ((n + 1) as u8) == 0),
        h >> 0u8 == 0 ==> h == 0,
{
}

/// Spelling a number from bits and writing its bits back gives the bits.
pub proof fn lemma_value_low_bits(bits: Seq<bool>)
    requires
        bits.len() <= 8,
    ensures
        bits_value(bits) < 256,
        fits(bits_value(bits) as u8, bits.len()),
        low_bits(bits_value(bits) as u8, bits.len()) =~= bits,
    decreases bits.len(),
{
    lemma_bits_value_small(bits);
    if bits.len() == 0 {
        let z: u8 = 0;
        assert(z >> 0u8 == 0) by (bit_vector)
            requires
                z == 0,
        ;
    } else {
        let n = bits.len();
        let head = bits.drop_last();
        lemma_value_low_bits(head);
        lemma_bits_value_bound(head);
        lemma2_to64();
        if head.len() < 7 {
            vstd::arithmetic::power2::lemma_pow2_strictly_increases(head.len(), 7);
        }
        let h: u8 = bits_value(head) as u8;
        let c: u8 = if bits.last() {
            1
        } else {
            0
        };
        let v: u8 = bits_value(bits) as u8;
        assert(v == 2 * h + c);
        lemma_double(h, c, 0, (n - 1) as u8);
        assert forall|i: int| 0 <= i < n implies low_bits(v, n)[i] == bits[i] by {
            if i < n - 1 {
                lemma_double(h, c, (n - 2 - i) as u8, (n - 1) as u8);
                assert(low_bits(h, (n - 1) as nat)[i] == head[i]);
            } else {
                lemma_double(h, c, 0, (n - 1) as u8);
            }
        }
    }
}

/// The bits of a concatenation are the concatenation of the bits.
pub proof fn lemma_bits_of_bytes_concat(a: Seq<u8>, b: Seq<u8>)
    ensures
        bits_of_bytes(a + b) =~= bits_of_bytes(a) + bits_of_bytes(b),
{
    assert forall|i: int| 0 <= i < 8 * (a.len() + b.len()) implies bits_of_bytes(a + b)[i] == (
    bits_of_bytes(a) + bits_of_bytes(b))[i] by {
        if i >= 8 * a.len() {
            assert((i - 8 * a.len()) / 8 == i / 8 - a.len());
            assert((i - 8 * a.len()) % 8 == i % 8);
        }
    }
}

/// Byte `j` of the packing holds bits `8j .. 8j + 8`.
pub proof fn lemma_byte_at_bits(bits: Seq<bool>, j: int)
    ensures
        low_bits(byte_at(bits, j), 8) =~= chunk(bits, j),
{
    lemma_value_low_bits(chunk(bits, j));
}

/// Unpacking a packed bit sequence gives the sequence back, followed by the
/// clear bits that pad the last byte.
pub proof fn lemma_bits_of_pack(bits: Seq<bool>)
    ensures
        bits_of_bytes(pack(bits)) =~= bits + zero_bits(
            (8 * packed_len(bits.len()) - bits.len()) as nat,
        ),
        8 * packed_len(bits.len()) - bits.len() < 8,
{
    let padded = bits + zero_bits((8 * packed_len(bits.len()) - bits.len()) as nat);
    assert forall|i: int| 0 <= i < 8 * packed_len(bits.len()) implies bits_of_bytes(pack(bits))[i]
        == padded[i] by {
        lemma_byte_at_bits(bits, i / 8);
        assert(low_bits(byte_at(bits, i / 8), 8)[i % 8] == chunk(bits, i / 8)[i % 8]);
    }
}

/// The number read when `width` bits are taken from a cursor that has the
/// `left` low bits of `cur` before it and then the byte `next`.
pub open spec fn extract(cur: u8, next: u8, left: u8, width: u8) -> u16 {
    if width <= left {
        ((cur as u16) % (1u16 << left)) >> ((left - width) as u8)
    } else {
        (((((cur as u16) % (1u16 << left)) << 8u8) + (next as u16)) as u16) >> ((left + 8 - width) as u8)
    }
}

/// What is extracted fits the width asked for.
pub proof fn lemma_extract_fits(cur: u8, next: u8, left: u8, width: u8)
    by (bit_vector)
    requires
        left <= 8,
        width <= 8,
    ensures
        extract(cur, next, left, width) < 256,
        (1u16 << left) > 0,
        ((cur as u16) % (1u16 << left)) < 256,
        (((cur as u16) % (1u16 << left)) << 8u8) <= 0xff00,
        width < 8 ==> (extract(cur, next, left, width) as u8) >> width == 0,
{
}

/// Bit `i` of what is extracted is bit `i` after the cursor.
pub proof fn lemma_extract_bit(cur: u8, next: u8, left: u8, width: u8, i: u8)
    by (bit_vector)
    requires
        left <= 8,
        width <= 8,
        i < width,
    ensures
        i < left ==> bit(extract(cur, next, left, width) as u8, (width - 1 - i) as u8) == bit(
            cur,
            (left - 1 - i) as u8,
        ),
        i >= left ==> bit(extract(cur, next, left, width) as u8, (width - 1 - i) as u8) == bit(
            next,
            (7 - (i - left)) as u8,
        ),
{
}

/// Setting the bits of `x` in a clear word gives `x`.
pub proof fn lemma_or_zero(x: u8)
    by (bit_vector)
    ensures
        0usize | (x as usize) == x as usize,
        0u16 | (x as u16) == x as u16,
{
}

/// Shifting a clear word leaves it clear.
pub proof fn lemma_shift_zero()
    by (bit_vector)
    ensures
        (0u8 as usize) << 8u8 == 0usize,
{
}

/// How the bits of a byte follow from those of the bytes it is made of.
pub proof fn lemma_bit_ops(a: u8, b: u8, s: u8, k: u8)
    by (bit_vector)
    requires
        s < 8,
        k < 8,
    ensures
        bit(a | b, k) == (bit(a, k) || bit(b, k)),
        bit(b >> s, k) == (k + s < 8 && bit(b, (k + s) as u8)),
        bit(b << s, k) == (k >= s && bit(b, (k - s) as u8)),
        b >> s == 0 && k >= s ==> !bit(b, k),
        !bit(0u8, k),
        (0u8 | 1u8) == 1u8 && (1u8 | 1u8) == 1u8 && (0u8 & 1u8) == 0u8 && (1u8 & 1u8) == 1u8,
{
}

/// A byte whose bits are all clear is zero.
pub proof fn lemma_clear_chunk(bits: Seq<bool>, j: int)
    requires
        8 * j >= bits.len(),
    ensures
        byte_at(bits, j) == 0,
{
    lemma_byte_at_bits(bits, j);
    assert forall|k: int| 0 <= k < 8 implies low_bits(byte_at(bits, j), 8)[k] == low_bits(0u8, 8)[k] by {
        lemma_bit_ops(0, 0, 0, (7 - k) as u8);
    }
    lemma_same_bits_same_byte(byte_at(bits, j), 0);
}

/// Bytes of a packing that lie before the end of a bit sequence do not
/// change when bits are appended.
pub proof fn lemma_pack_append(bits: Seq<bool>, more: Seq<bool>, j: int)
    requires
        0 <= j,
        8 * j + 8 <= bits.len(),
    ensures
        byte_at(bits + more, j) == byte_at(bits, j),
{
    assert(chunk(bits + more, j) =~= chunk(bits, j));
}

/// What the encoder's bit accumulator does when `count` bits are pushed.
/// `cur` is the byte being filled, with room for `left` more bits, after
/// the bits `k`. Where the new bits fill the byte, the byte that is handed
/// out and the byte that is started are those of the packing; where they
/// do not, the byte being filled is.
pub proof fn lemma_push(k: Seq<bool>, cur: u8, left: u8, count: u8, bits: u8)
    requires
        1 <= left <= 8,
        left == 8 - k.len() % 8,
        cur == byte_at(k, (k.len() / 8) as int),
        1 <= count <= 8,
        fits(bits, count as nat),
    ensures
        ({
            let after = k + low_bits(bits, count as nat);
            let m = (k.len() / 8) as int;
            &&& pack(after).take(m) == pack(k).take(m)
            &&& count >= left ==> {
                &&& after.len() / 8 == m + 1
                &&& after.len() % 8 == count - left
                &&& (cur | (bits >> ((count - left) as u8))) == byte_at(after, m)
                &&& count == left ==> byte_at(after, m + 1) == 0
                &&& count > left ==> (bits << ((8 - (count - left)) as u8)) == byte_at(
                    after,
                    m + 1,
                )
            }
            &&& count < left ==> {
                &&& after.len() / 8 == m
                &&& after.len() % 8 == 8 - (left - count)
                &&& (cur | (bits << ((left - count) as u8))) == byte_at(after, m)
            }
        }),
{
    let field = low_bits(bits, count as nat);
    let after = k + field;
    let m = (k.len() / 8) as int;
    let r = 8 - left;
    assert(k.len() == 8 * m + r);
    assert(pack(after).take(m) =~= pack(k).take(m)) by {
        assert forall|j: int| 0 <= j < m implies byte_at(after, j) == byte_at(k, j) by {
            lemma_pack_append(k, field, j);
        }
    }
    lemma_byte_at_bits(k, m);
    lemma_byte_at_bits(after, m);
    lemma_byte_at_bits(after, m + 1);
    assert forall|j: int| 0 <= j < 8 implies #[trigger] low_bits(cur, 8)[j] == (j < r && k[8 * m
        + j]) by {
        assert(low_bits(cur, 8)[j] == chunk(k, m)[j]);
    }
    if count >= left {
        let s: u8 = (count - left) as u8;
        let first: u8 = cur | (bits >> s);
        assert forall|j: int| 0 <= j < 8 implies low_bits(first, 8)[j] == chunk(after, m)[j] by {
            let kk: u8 = (7 - j) as u8;
            lemma_bit_ops(cur, bits >> s, 0, kk);
            lemma_bit_ops(0, bits, s, kk);
            assert(low_bits(first, 8)[j] == bit(first, kk));
            assert(low_bits(cur, 8)[j] == bit(cur, kk));
            assert(chunk(after, m)[j] == after[8 * m + j]);
            if j < r {
                assert(after[8 * m + j] == k[8 * m + j]);
                if kk + s < 8 {
                    assert(count < 8);
                    lemma_bit_ops(0, bits, count, (kk + s) as u8);
                    assert(!bit(bits, (kk + s) as u8));
                }
                assert(!bit(bits >> s, kk));
            } else {
                assert(after[8 * m + j] == field[j - r]);
                assert(field[j - r] == bit(bits, (count - 1 - (j - r)) as u8));
                assert(kk + s == count - 1 - (j - r));
                assert(!bit(cur, kk));
            }
        }
        lemma_same_bits_same_byte(first, byte_at(after, m));
        if count == left {
            lemma_clear_chunk(after, m + 1);
        } else {
            let t: u8 = (8 - s) as u8;
            let second: u8 = bits << t;
            assert forall|j: int| 0 <= j < 8 implies low_bits(second, 8)[j] == chunk(
                after,
                m + 1,
            )[j] by {
                let kk: u8 = (7 - j) as u8;
                lemma_bit_ops(0, bits, t, kk);
                if j < s {
                    assert(after[8 * (m + 1) + j] == field[left + j]);
                }
            }
            lemma_same_bits_same_byte(second, byte_at(after, m + 1));
        }
    } else {
        let t: u8 = (left - count) as u8;
        let joined: u8 = cur | (bits << t);
        assert forall|j: int| 0 <= j < 8 implies low_bits(joined, 8)[j] == chunk(after, m)[j] by {
            let kk: u8 = (7 - j) as u8;
            lemma_bit_ops(cur, bits << t, 0, kk);
            lemma_bit_ops(0, bits, t, kk);
            assert(low_bits(joined, 8)[j] == bit(joined, kk));
            assert(low_bits(cur, 8)[j] == bit(cur, kk));
            assert(chunk(after, m)[j] == (j < r + count && after[8 * m + j]));
            if j < r {
                assert(after[8 * m + j] == k[8 * m + j]);
                if kk >= t {
                    assert(count < 8);
                    lemma_bit_ops(0, bits, count, (kk - t) as u8);
                    assert(!bit(bits, (kk - t) as u8));
                }
                assert(!bit(bits << t, kk));
            } else if j < r + count {
                assert(after[8 * m + j] == field[j - r]);
                assert(field[j - r] == bit(bits, (count - 1 - (j - r)) as u8));
                assert(kk - t == count - 1 - (j - r));
                assert(!bit(cur, kk));
            } else {
                assert(!bit(cur, kk));
                assert(kk < t);
            }
        }
        lemma_same_bits_same_byte(joined, byte_at(after, m));
    }
}

/// The whole bytes of a bit sequence are the first bytes of the packing of
/// every sequence that begins with it.
pub proof fn lemma_pack_prefix(short: Seq<bool>, long: Seq<bool>)
    requires
        short.len() <= long.len(),
        long.take(short.len() as int) == short,
    ensures
        short.len() / 8 <= packed_len(long.len()),
        pack(long).take((short.len() / 8) as int) == pack(short).take((short.len() / 8) as int),
{
    let whole = (short.len() / 8) as int;
    let more = long.skip(short.len() as int);
    assert(long =~= short + more);
    assert forall|j: int| 0 <= j < whole implies byte_at(long, j) == byte_at(short, j) by {
        lemma_pack_append(short, more, j);
    }
    assert(pack(long).take(whole) =~= pack(short).take(whole));
}

} // verus!
