//! The decoder: a state machine that turns a compressed stream back into
//! the bytes it stands for.

use crate::bits::{
    bits_of_bytes, bits_value, extract, lemma_bits_of_bytes_concat, lemma_bits_value_small,
    lemma_extract_bit, lemma_extract_fits, lemma_low_bits_value, lemma_or_zero, lemma_shift_zero,
    lemma_value_low_bits, low_bits,
};
use crate::format::{
    all_valid, copy_back, decode_spec, expand, is_prefix, lemma_copy_back_extends,
    lemma_copy_back_step,
    lemma_decode_extend, lemma_expand_concat, lemma_expand_push, lemma_parse_tokens_bits,
    lemma_parse_tokens_valid, lemma_prefix_of_common, lemma_prefix_refl, lemma_prefix_trans,
    lemma_tokens_bits_push, lemma_whole_tokens, look_back, parse_token, parse_tokens,
    position_after, Token, tokens_bits,
};
use crate::HSError;
use crate::HSfinishRes;
use crate::HSpollRes;
use crate::HSsinkRes;
use crate::OutputInfo;
use crate::HEATSHRINK_INPUT_BUFFER_SIZE;
use crate::HEATSHRINK_LOOKAHEAD_BITS;
use crate::HEATSHRINK_WINDOWS_BITS;
use crate::HEATSHRINK_WINDOW_SIZE;
use vstd::prelude::*;
use vstd::slice::slice_subrange;

verus! {

#[derive(Debug, Copy, Clone, PartialEq, Eq, Structural)]
enum HSDstate {
    /// Waiting for a tag bit.
    TagBit,
    /// Ready to read and yield a literal byte.
    YieldLiteral,
    /// Waiting for the high bits of a distance wider than a byte.
    BackrefIndexMsb,
    /// Waiting for the low eight bits of a distance.
    BackrefIndexLsb,
    /// Waiting for the bits of a length.
    BackrefCountLsb,
    /// Copying a backreference out.
    YieldBackref,
}

/// Uncompress the `src` buffer into the `dst` buffer and give the part of
/// `dst` that was written. Where what `src` stands for is longer than
/// `dst`, the result is `OutputFull`.
pub fn decode<'a>(src: &[u8], dst: &'a mut [u8]) -> (r: Result<&'a [u8], HSError>)
    ensures
        final(dst)@.len() == old(dst)@.len(),
        r is Ok ==> final(dst)@ == r->Ok_0@ + old(dst)@.skip(r->Ok_0@.len() as int),
        match r {
            Ok(out) => out@ == decode_spec(src@) && decode_spec(src@).len() <= old(dst)@.len(),
            Err(e) => e == HSError::OutputFull && decode_spec(src@).len() > old(dst)@.len(),
        },
{
    let mut total_input_size: usize = 0;
    let mut total_output_size: usize = 0;

    let mut dec: HeatshrinkDecoder = Default::default();
    proof {
        assert(decode_spec(Seq::<u8>::empty()) =~= Seq::<u8>::empty()) by {
            assert(bits_of_bytes(Seq::<u8>::empty()) =~= Seq::<bool>::empty());
        }
        assert(src@.take(0) =~= Seq::<u8>::empty());
        assert(dst@.take(0) =~= Seq::<u8>::empty());
    }

    while total_input_size < src.len()
        invariant
            dec.wf(),
            total_input_size <= src@.len(),
            dst@.skip(total_output_size as int) == old(dst)@.skip(total_output_size as int),
            dec.sunk() == src@.take(total_input_size as int),
            dec.emitted() == decode_spec(dec.sunk()),
            dec.staged() == 0,
            total_output_size == dec.emitted().len(),
            total_output_size <= dst@.len(),
            dst@.len() == old(dst)@.len(),
            dst@.take(total_output_size as int) == dec.emitted(),
        decreases src@.len() - total_input_size,
    {
        // Fill the staging buffer from what is left of `src`.
        match dec.sink(slice_subrange(src, total_input_size, src.len())) {
            (HSsinkRes::SinkOK, segment_input_size) => {
                total_input_size += segment_input_size;
            },
            (HSsinkRes::SinkFull, _) => {},
            (HSsinkRes::SinkErrorMisuse, _) => {
                return Err(HSError::Internal);
            },
        }
        proof {
            assert(dec.sunk() =~= src@.take(total_input_size as int));
            assert(src@ =~= dec.sunk() + src@.skip(total_input_size as int));
            lemma_decode_extend(dec.sunk(), src@.skip(total_input_size as int));
            dec.lemma_emitted_is_prefix();
        }

        if total_output_size < dst.len() {
            // Decode what was staged.
            let (_, rest) = dst.split_at_mut(total_output_size);
            match dec.poll(rest) {
                (HSpollRes::PollMore, segment_output_size) => {
                    total_output_size += segment_output_size;
                },
                (HSpollRes::PollEmpty, segment_output_size) => {
                    total_output_size += segment_output_size;
                },
                (HSpollRes::PollErrorMisuse, _) => {
                    return Err(HSError::Internal);
                },
            }
            proof {
                assert(dst@.take(total_output_size as int) =~= dec.emitted());
                assert(dst@.skip(total_output_size as int) =~= old(dst)@.skip(
                    total_output_size as int,
                ));
            }
        }
        if total_output_size == dst.len() {
            // `dst` is full. Whatever the decoder still has to hand out
            // does not fit; see whether there is a byte of it.
            let mut spare: [u8; 1] = [0;1];
            match dec.poll(&mut spare) {
                (HSpollRes::PollMore, _) => {
                    return Err(HSError::OutputFull);
                },
                (HSpollRes::PollEmpty, segment_output_size) => {
                    if segment_output_size > 0 {
                        return Err(HSError::OutputFull);
                    }
                },
                (HSpollRes::PollErrorMisuse, _) => {
                    return Err(HSError::Internal);
                },
            }
        }
        // With all of `src` sunk, nothing may be left staged.
        if total_input_size == src.len() {
            match dec.finish() {
                HSfinishRes::FinishDone => {},
                HSfinishRes::FinishMore => {
                    return Err(HSError::OutputFull);
                },
            }
        }
    }
    proof {
        assert(src@.take(total_input_size as int) =~= src@);
        assert(dst@ =~= dst@.take(total_output_size as int) + dst@.skip(
            total_output_size as int,
        ));
    }

    Ok(&dst[0..total_output_size])
}

/// The decoder instance.
pub struct HeatshrinkDecoder {
    input_size: usize,
    input_index: usize,
    output_index: usize,
    head_index: usize,
    output_count: u16,
    current_byte: u8,
    bit_index: u8,
    state: HSDstate,
    input_buffer: [u8; HEATSHRINK_INPUT_BUFFER_SIZE],
    output_buffer: [u8; HEATSHRINK_WINDOW_SIZE],
    /// Every byte accepted by `sink` so far.
    sunk: Ghost<Seq<u8>>,
    /// Every byte handed out by `poll` so far.
    emitted: Ghost<Seq<u8>>,
    /// The tokens read completely so far.
    tokens: Ghost<Seq<Token>>,
}

/// What a decoder is, seen from outside: what it has been given, what it
/// has given back, and how far it has got in between.
pub struct DecoderView {
    /// Every byte accepted by `sink` since the instance was made or reset.
    pub sunk: Seq<u8>,
    /// Every byte handed out by `poll` since the instance was made or reset.
    pub emitted: Seq<u8>,
    /// Number of bits of the sunk input that have been read.
    pub consumed: int,
    /// Number of bytes that the staging buffer holds.
    pub staged: nat,
}

impl View for HeatshrinkDecoder {
    type V = DecoderView;

    closed spec fn view(&self) -> DecoderView {
        DecoderView {
            sunk: self.sunk@,
            emitted: self.emitted@,
            consumed: self.position(),
            staged: self.input_size as nat,
        }
    }
}

impl HeatshrinkDecoder {
    /// Every byte accepted by `sink` since the instance was made or reset.
    pub open spec fn sunk(&self) -> Seq<u8> {
        self@.sunk
    }

    /// Every byte handed out by `poll` since the instance was made or reset.
    pub open spec fn emitted(&self) -> Seq<u8> {
        self@.emitted
    }

    /// Number of bits of the sunk input that the decoder has read.
    pub open spec fn consumed(&self) -> int {
        self@.consumed
    }

    /// Number of bytes that the staging buffer holds.
    pub open spec fn staged(&self) -> nat {
        self@.staged
    }

    /// Number of sunk bytes that have been taken out of the staging buffer.
    spec fn loaded(&self) -> int {
        self.sunk@.len() - (self.input_size - self.input_index)
    }

    /// Number of bits of the sunk stream that have been read.
    spec fn position(&self) -> int {
        8 * self.loaded() - self.bit_index
    }

    /// Number of sunk bits that have not been read yet.
    spec fn available(&self) -> int {
        8 * (self.input_size - self.input_index) + self.bit_index
    }

    /// The staging buffer and the bit cursor agree with the sunk stream.
    spec fn reader_wf(&self) -> bool {
        &&& self.input_index <= self.input_size <= HEATSHRINK_INPUT_BUFFER_SIZE
        &&& self.bit_index <= 8
        &&& (self.bit_index == 0 ==> self.input_size == 0)
        &&& (self.input_index == self.input_size && self.input_size > 0 ==> self.bit_index == 8)
        &&& self.loaded() >= 0
        &&& (self.bit_index > 0 ==> self.loaded() >= 1 && self.current_byte
            == self.sunk@[self.loaded() - 1])
        &&& forall|i: int|
            self.input_index <= i < self.input_size ==> self.input_buffer@[i]
                == self.sunk@[self.loaded() + i - self.input_index]
    }

    /// The bits of the token that is being read.
    spec fn partial(&self) -> Seq<bool> {
        match self.state {
            HSDstate::TagBit | HSDstate::YieldBackref => Seq::empty(),
            HSDstate::YieldLiteral => seq![true],
            HSDstate::BackrefIndexMsb | HSDstate::BackrefIndexLsb => seq![false],
            HSDstate::BackrefCountLsb => seq![false] + low_bits((self.output_index - 1) as u8, 8),
        }
    }

    /// Number of bytes of the backreference being copied that are still owed.
    spec fn owed(&self) -> nat {
        if self.state == HSDstate::YieldBackref {
            self.output_count as nat
        } else {
            0
        }
    }

    /// What has been read so far is a run of whole tokens followed by the
    /// beginning of one more, and what has been handed out is what those
    /// tokens stand for, less what is still owed.
    spec fn parser_wf(&self) -> bool {
        let start = self.position() - self.partial().len();
        &&& all_valid(self.tokens@)
        &&& start >= 0
        &&& tokens_bits(self.tokens@) + self.partial() == bits_of_bytes(self.sunk@).take(
            self.position(),
        )
        &&& copy_back(self.emitted@, self.output_index as nat, self.owed()) == expand(self.tokens@)
        &&& match self.state {
            HSDstate::YieldBackref => {
                &&& 1 <= self.output_count <= 16
                &&& 1 <= self.output_index <= 256
                &&& self.tokens@.len() > 0
                &&& self.tokens@.last() is Backref
                &&& self.output_count <= self.tokens@.last()->length
                &&& self.output_index == self.tokens@.last()->distance
            },
            HSDstate::BackrefCountLsb => self.output_count == 0 && 1 <= self.output_index <= 256,
            HSDstate::BackrefIndexLsb => self.output_index == 0,
            _ => true,
        }
    }

    /// Whether a window and a head agree with the bytes handed out: the
    /// window holds the latest of them, each at its place modulo the size
    /// of the window, and the head counts them, exactly up to 255 and
    /// modulo 256 from there on.
    spec fn window_holds(window: Seq<u8>, head_index: usize, emitted: Seq<u8>) -> bool {
        let n = emitted.len();
        &&& head_index as nat % 256 == n % 256
        &&& (head_index < 256 ==> head_index == n)
        &&& (head_index >= 256 ==> n >= 256)
        &&& forall|i: int| 0 <= i < n && n - i <= 256 ==> window[i % 256] == emitted[i]
    }

    /// The window and the head agree with the bytes handed out.
    spec fn window_wf(&self) -> bool {
        Self::window_holds(self.output_buffer@, self.head_index, self.emitted@)
    }

    /// The invariant of the machine, in whatever state it is.
    #[verifier::opaque]
    spec fn inv(&self) -> bool {
        &&& self.reader_wf()
        &&& self.parser_wf()
        &&& self.window_wf()
    }

    /// The invariant that every operation keeps.
    pub closed spec fn wf(&self) -> bool {
        &&& self.inv()
        &&& self.state != HSDstate::BackrefIndexMsb
    }

    /// A decoder that has seen no input.
    pub closed spec fn fresh() -> Self {
        HeatshrinkDecoder {
            input_size: 0,
            input_index: 0,
            output_count: 0,
            output_index: 0,
            head_index: 0,
            current_byte: 0,
            bit_index: 0,
            state: HSDstate::TagBit,
            input_buffer: [0;HEATSHRINK_INPUT_BUFFER_SIZE],
            output_buffer: [0;HEATSHRINK_WINDOW_SIZE],
            sunk: Ghost(Seq::empty()),
            emitted: Ghost(Seq::empty()),
            tokens: Ghost(Seq::empty()),
        }
    }

    /// A fresh decoder is well formed and has neither taken nor given a byte.
    pub proof fn lemma_fresh()
        ensures
            Self::fresh().wf(),
            Self::fresh().sunk() == Seq::<u8>::empty(),
            Self::fresh().emitted() == Seq::<u8>::empty(),
            Self::fresh().staged() == 0,
            Self::fresh().consumed() == 0,
    {
        reveal(HeatshrinkDecoder::inv);
        let d = Self::fresh();
        assert(tokens_bits(d.tokens@) + d.partial() =~= bits_of_bytes(d.sunk@).take(0));
    }

    /// Create a new decoder instance.
    pub fn new() -> (r: Self)
        ensures
            r == Self::fresh(),
            r.wf(),
            r.sunk() == Seq::<u8>::empty(),
            r.emitted() == Seq::<u8>::empty(),
            r.staged() == 0,
            r.consumed() == 0,
    {
        proof {
            reveal(HeatshrinkDecoder::inv);
            Self::lemma_fresh();
        }
        HeatshrinkDecoder {
            input_size: 0,
            input_index: 0,
            output_count: 0,
            output_index: 0,
            head_index: 0,
            current_byte: 0,
            bit_index: 0,
            state: HSDstate::TagBit,
            input_buffer: [0;HEATSHRINK_INPUT_BUFFER_SIZE],
            output_buffer: [0;HEATSHRINK_WINDOW_SIZE],
            sunk: Ghost(Seq::empty()),
            emitted: Ghost(Seq::empty()),
            tokens: Ghost(Seq::empty()),
        }
    }

    /// Reset the decoder to the state of a new instance.
    pub fn reset(&mut self)
        ensures
            *final(self) == Self::fresh(),
            final(self).wf(),
            final(self).sunk() == Seq::<u8>::empty(),
            final(self).emitted() == Seq::<u8>::empty(),
            final(self).staged() == 0,
            final(self).consumed() == 0,
    {
        proof {
            reveal(HeatshrinkDecoder::inv);
        }
        let mut i: usize = 0;
        while i < HEATSHRINK_INPUT_BUFFER_SIZE
            invariant
                i <= HEATSHRINK_INPUT_BUFFER_SIZE,
                forall|j: int| 0 <= j < i ==> self.input_buffer@[j] == 0,
            decreases HEATSHRINK_INPUT_BUFFER_SIZE - i,
        {
            self.input_buffer[i] = 0;
            i += 1;
        }
        let mut k: usize = 0;
        while k < HEATSHRINK_WINDOW_SIZE
            invariant
                k <= HEATSHRINK_WINDOW_SIZE,
                forall|j: int| 0 <= j < k ==> self.output_buffer@[j] == 0,
                forall|j: int| 0 <= j < 32 ==> self.input_buffer@[j] == 0,
            decreases HEATSHRINK_WINDOW_SIZE - k,
        {
            self.output_buffer[k] = 0;
            k += 1;
        }
        self.input_size = 0;
        self.input_index = 0;
        self.output_count = 0;
        self.output_index = 0;
        self.head_index = 0;
        self.current_byte = 0;
        self.bit_index = 0;
        self.state = HSDstate::TagBit;
        self.sunk = Ghost(Seq::empty());
        self.emitted = Ghost(Seq::empty());
        self.tokens = Ghost(Seq::empty());
        proof {
            Self::lemma_fresh();
            assert(self.input_buffer =~= Self::fresh().input_buffer);
            assert(self.output_buffer =~= Self::fresh().output_buffer);
        }
    }

    /// Whether `self` and `other` differ in nothing but the staging buffer
    /// and the bit cursor.
    spec fn same_but_reader(&self, other: &Self) -> bool {
        &&& self.output_index == other.output_index
        &&& self.head_index == other.head_index
        &&& self.output_count == other.output_count
        &&& self.state == other.state
        &&& self.output_buffer == other.output_buffer
        &&& self.input_buffer == other.input_buffer
        &&& self.sunk == other.sunk
        &&& self.emitted == other.emitted
        &&& self.tokens == other.tokens
    }

    /// The `count` bits that follow bit `from` of the sunk stream.
    spec fn field(&self, from: int, count: int) -> Seq<bool> {
        bits_of_bytes(self.sunk@).subrange(from, from + count)
    }

    /// Get the next `count` bits of the input, or `None`, with nothing
    /// changed, if fewer than that have been sunk.
    fn get_bits(&mut self, count: u8) -> (r: Option<u8>)
        requires
            old(self).reader_wf(),
            count <= 8,
        ensures
            final(self).reader_wf(),
            final(self).same_but_reader(old(self)),
            final(self).input_size == 0 || final(self).input_size == old(self).input_size,
            r is Some ==> (final(self).input_size == 0 <==> final(self).position() + 8 >= 8
                * final(self).sunk@.len()),
            old(self).available() < count ==> r is None && *final(self) == *old(self),
            old(self).available() >= count ==> r == Some(
                bits_value(old(self).field(old(self).position(), count as int)) as u8,
            ) && final(self).position() == old(self).position() + count,
    {
        // Suspend at once when fewer than `count` bits are there: how many
        // bits of a field have been gathered is not kept across calls.
        if (((self.input_size - self.input_index) * 8) + self.bit_index as usize) < count as usize {
            return None;
        }
        let ghost before = *self;
        let ghost next: u8 = if self.input_index < self.input_size {
            self.input_buffer@[self.input_index as int]
        } else {
            0
        };
        proof {
            lemma_extract_fits(self.current_byte, next, self.bit_index, count);
        }
        // Start from the current byte, less the bits already consumed.
        let mut accumulator: u16 = self.current_byte as u16;
        accumulator = accumulator % (1u16 << self.bit_index);

        if count < self.bit_index {
            // Enough bits are left in the current byte.
            accumulator = accumulator >> (self.bit_index - count);
            self.bit_index -= count;
        } else if count == self.bit_index {
            // Exactly the bits left in the current byte are consumed.
            assert(accumulator >> 0u8 == accumulator) by (bit_vector);
            if self.input_size == self.input_index {
                // Nothing to load; the next sink loads the byte.
                self.bit_index = 0;
            } else {
                self.current_byte = self.input_buffer[self.input_index];
                self.input_index += 1;
                self.bit_index = 8;
            }
        } else {
            // Some bits come from the next byte.
            accumulator = accumulator << 8u8;
            self.current_byte = self.input_buffer[self.input_index];
            self.input_index += 1;
            accumulator += self.current_byte as u16;
            self.bit_index += 8 - count;
            accumulator = accumulator >> self.bit_index;
        }

        // Once the staging buffer is used up, make room for the next sink.
        if self.input_index == self.input_size {
            self.input_index = 0;
            self.input_size = 0;
        }
        proof {
            let v: u8 = accumulator as u8;
            assert(accumulator == extract(before.current_byte, next, before.bit_index, count));
            let bits = before.field(before.position(), count as int);
            assert forall|i: int| 0 <= i < count implies bits[i] == low_bits(v, count as nat)[i] by {
                lemma_extract_bit(before.current_byte, next, before.bit_index, count, i as u8);
                let at = before.position() + i;
                if i < before.bit_index {
                    assert(at == 8 * (before.loaded() - 1) + (8 - before.bit_index + i));
                    assert(at / 8 == before.loaded() - 1);
                    assert(at % 8 == 8 - before.bit_index + i);
                } else {
                    assert(at == 8 * before.loaded() + (i - before.bit_index));
                    assert(at / 8 == before.loaded());
                    assert(at % 8 == i - before.bit_index);
                }
            }
            assert(bits =~= low_bits(v, count as nat));
            lemma_low_bits_value(v, count as nat);
        }
        Some(accumulator as u8)
    }

    /// Add input to be decoded. Takes as many bytes as the staging buffer has
    /// room for and says how many that was.
    pub fn sink(&mut self, input_buffer: &[u8]) -> (r: (HSsinkRes, usize))
        requires
            old(self).wf(),
        ensures
            final(self).wf(),
            final(self).emitted() == old(self).emitted(),
            final(self).consumed() == old(self).consumed(),
            old(self).staged() >= HEATSHRINK_INPUT_BUFFER_SIZE ==> r == (HSsinkRes::SinkFull, 0usize)
                && *final(self) == *old(self),
            old(self).staged() < HEATSHRINK_INPUT_BUFFER_SIZE ==> {
                &&& r.0 == HSsinkRes::SinkOK
                &&& r.1 == if HEATSHRINK_INPUT_BUFFER_SIZE - old(self).staged() < input_buffer@.len() {
                    HEATSHRINK_INPUT_BUFFER_SIZE - old(self).staged()
                } else {
                    input_buffer@.len() as int
                }
                &&& final(self).sunk() == old(self).sunk() + input_buffer@.take(r.1 as int)
                &&& final(self).staged() == old(self).staged() + r.1
            },
    {
        proof {
            reveal(HeatshrinkDecoder::inv);
        }
        let remaining_size: usize = HEATSHRINK_INPUT_BUFFER_SIZE - self.input_size;

        if remaining_size == 0 {
            return (HSsinkRes::SinkFull, 0);
        }
        let copy_size: usize = if remaining_size < input_buffer.len() {
            remaining_size
        } else {
            input_buffer.len()
        };

        let ghost before = *self;
        let mut i: usize = 0;
        while i < copy_size
            invariant
                i <= copy_size,
                copy_size <= input_buffer@.len(),
                before.input_size + copy_size <= HEATSHRINK_INPUT_BUFFER_SIZE,
                *self == (HeatshrinkDecoder { input_buffer: self.input_buffer, ..before }),
                forall|j: int| 0 <= j < before.input_size ==> self.input_buffer@[j] == before.input_buffer@[j],
                forall|j: int| 0 <= j < i ==> self.input_buffer@[before.input_size + j] == input_buffer@[j],
            decreases copy_size - i,
        {
            self.input_buffer[self.input_size + i] = input_buffer[i];
            i += 1;
        }
        self.input_size += copy_size;
        proof {
            self.sunk@ = self.sunk@ + input_buffer@.take(copy_size as int);
        }

        // With no bits at hand, take the first staged byte as the current one.
        if self.bit_index == 0 && copy_size > 0 {
            self.current_byte = self.input_buffer[self.input_index];
            self.input_index += 1;
            self.bit_index = 8;
        }
        proof {
            lemma_bits_of_bytes_concat(before.sunk@, input_buffer@.take(copy_size as int));
            assert(self.position() == before.position());
            assert(bits_of_bytes(self.sunk@).take(self.position()) =~= bits_of_bytes(
                before.sunk@,
            ).take(before.position()));
            assert(self.partial() == before.partial());
            assert(self.owed() == before.owed());
            assert(self.parser_wf());
            assert(self.window_wf());
            assert forall|i: int| self.input_index <= i < self.input_size implies self.input_buffer@[i]
                == self.sunk@[self.loaded() + i - self.input_index] by {
                let at = self.loaded() + i - self.input_index;
                assert(at == before.loaded() + i - before.input_index);
                if i >= before.input_size {
                    let j = i - before.input_size;
                    assert(self.input_buffer@[before.input_size + j] == input_buffer@[j]);
                    assert(at == before.sunk@.len() + j);
                    assert(self.sunk@[at] == input_buffer@.take(copy_size as int)[j]);
                } else {
                    assert(self.input_buffer@[i] == before.input_buffer@[i]);
                    assert(before.input_index <= i);
                    assert(self.sunk@[at] == before.sunk@[at]);
                }
            }
            assert(self.reader_wf());
        }
        (HSsinkRes::SinkOK, copy_size)
    }

    /// `self` in another state.
    spec fn with_state(&self, state: HSDstate) -> Self {
        HeatshrinkDecoder { state, ..*self }
    }

    /// Everything that the sunk input stands for has been handed out, and
    /// the staging buffer is empty.
    spec fn drained(&self) -> bool {
        &&& self.emitted@ == decode_spec(self.sunk@)
        &&& self.input_size == 0
    }

    /// A number that every change of state lowers.
    spec fn measure(&self) -> int {
        2 * self.available() + if self.state == HSDstate::YieldBackref || self.state
            == HSDstate::BackrefIndexMsb {
            1int
        } else {
            0int
        }
    }

    /// What one step of the machine may do: it hands out some bytes, keeps
    /// the invariant, and either changes state, or has stopped for want of
    /// input or, where `room` is false, of room.
    spec fn step(&self, next: &Self, room: bool) -> bool {
        &&& next.inv()
        &&& next.state != HSDstate::BackrefIndexMsb
        &&& next.sunk@ == self.sunk@
        &&& is_prefix(self.emitted@, next.emitted@)
        &&& (next.input_size == 0 || next.input_size == self.input_size)
        &&& next.position() >= self.position()
        &&& (next.position() > self.position() ==> (next.input_size == 0 <==> next.position() + 8
            >= 8 * self.sunk@.len()))
        &&& (next.position() == self.position() && self.state != HSDstate::BackrefIndexMsb
            ==> next.input_size == self.input_size)
        &&& (next.state == self.state && room ==> next.drained())
        &&& (next.state == self.state ==> next.settled())
        &&& (next.state != self.state ==> next.measure() < self.measure())
    }

    /// Whether the machine has read as far as it can without handing out
    /// more.
    spec fn settled(&self) -> bool {
        match self.state {
            HSDstate::TagBit => self.available() < 1,
            HSDstate::YieldLiteral | HSDstate::YieldBackref => true,
            HSDstate::BackrefIndexMsb => false,
            HSDstate::BackrefIndexLsb => self.available() < 8,
            HSDstate::BackrefCountLsb => self.available() < 4,
        }
    }

    /// What has been handed out is the beginning of what the sunk input
    /// stands for.
    pub proof fn lemma_emitted_is_prefix(&self)
        requires
            self.wf(),
        ensures
            is_prefix(self.emitted(), decode_spec(self.sunk())),
    {
        reveal(HeatshrinkDecoder::inv);
        let bits = bits_of_bytes(self.sunk@);
        let rest = self.partial() + bits.skip(self.position());
        assert(bits =~= bits.take(self.position()) + bits.skip(self.position()));
        assert(bits =~= tokens_bits(self.tokens@) + rest);
        lemma_parse_tokens_bits(self.tokens@, rest);
        lemma_expand_concat(self.tokens@, parse_tokens(rest));
        lemma_copy_back_extends(self.emitted@, self.output_index as nat, self.owed());
        lemma_prefix_trans(self.emitted@, expand(self.tokens@), decode_spec(self.sunk@));
    }

    /// Two decoders that were given the same stream, in whatever pieces,
    /// and were polled with whatever room, have handed out the same bytes,
    /// as far as both have got.
    pub proof fn lemma_pieces_do_not_matter(&self, other: &Self, whole: Seq<u8>)
        requires
            self.wf(),
            other.wf(),
            is_prefix(self.sunk(), whole),
            is_prefix(other.sunk(), whole),
            self.emitted().len() <= other.emitted().len(),
        ensures
            is_prefix(self.emitted(), other.emitted()),
            is_prefix(other.emitted(), decode_spec(whole)),
    {
        reveal(HeatshrinkDecoder::inv);
        self.lemma_emitted_is_prefix();
        other.lemma_emitted_is_prefix();
        assert(whole =~= self.sunk() + whole.skip(self.sunk().len() as int));
        assert(whole =~= other.sunk() + whole.skip(other.sunk().len() as int));
        lemma_decode_extend(self.sunk(), whole.skip(self.sunk().len() as int));
        lemma_decode_extend(other.sunk(), whole.skip(other.sunk().len() as int));
        let all = decode_spec(whole);
        lemma_prefix_trans(self.emitted(), decode_spec(self.sunk()), all);
        lemma_prefix_trans(other.emitted(), decode_spec(other.sunk()), all);
        lemma_prefix_of_common(self.emitted(), other.emitted(), all);
    }

    /// A machine that has read as far as it can is where the bits sunk and
    /// the bytes handed out say it is.
    proof fn lemma_settled_position(&self)
        requires
            self.inv(),
            self.settled(),
        ensures
            self.position() == position_after(bits_of_bytes(self.sunk@), self.emitted@.len() as int),
    {
        reveal(HeatshrinkDecoder::inv);
        reveal(position_after);
        let bits = bits_of_bytes(self.sunk@);
        let read = self.tokens@;
        let rest = self.partial() + bits.skip(self.position());
        assert(bits =~= bits.take(self.position()) + bits.skip(self.position()));
        assert(bits =~= tokens_bits(read) + rest);
        lemma_parse_tokens_bits(read, rest);
        lemma_parse_tokens_valid(bits);
        let all = parse_tokens(bits);
        let count = self.emitted@.len() as int;
        assert(all.take(read.len() as int) =~= read);
        lemma_copy_back_extends(self.emitted@, self.output_index as nat, self.owed());
        if self.state == HSDstate::YieldBackref {
            let i = read.len() - 1;
            let last = read.last();
            assert(all.take(i) =~= read.drop_last());
            lemma_copy_back_extends(expand(read.drop_last()), last->distance, last->length);
            lemma_whole_tokens(all, count, i);
            lemma_tokens_bits_push(read.drop_last(), last);
            assert(read.drop_last().push(last) =~= read);
            let start = tokens_bits(read.drop_last()).len() as int;
            assert(bits[start] == (tokens_bits(read.drop_last()) + last.bits())[start]);
        } else {
            let i = read.len() as int;
            if i < all.len() {
                assert(all.take(i + 1) =~= read.push(all[i]));
                lemma_expand_push(read, all[i]);
                crate::format::lemma_apply_token_extends(expand(read), all[i]);
                assert(all[i].valid());
            }
            lemma_whole_tokens(all, count, i);
            let start = tokens_bits(read).len() as int;
            if self.partial().len() > 0 {
                assert(bits[start] == (tokens_bits(read) + self.partial())[start]);
            }
        }
    }

    /// A machine that waits for more bits than are there has handed out
    /// everything.
    proof fn lemma_starved(&self, wanted: int)
        requires
            self.inv(),
            self.available() < wanted,
            match self.state {
                HSDstate::TagBit => wanted == 1,
                HSDstate::YieldLiteral | HSDstate::BackrefIndexLsb => wanted == 8,
                HSDstate::BackrefCountLsb => wanted == 4,
                _ => false,
            },
        ensures
            self.drained(),
    {
        reveal(HeatshrinkDecoder::inv);
        let bits = bits_of_bytes(self.sunk@);
        let rest = self.partial() + bits.skip(self.position());
        assert(bits =~= bits.take(self.position()) + bits.skip(self.position()));
        assert(bits =~= tokens_bits(self.tokens@) + rest);
        lemma_parse_tokens_bits(self.tokens@, rest);
        assert(parse_token(rest) is None);
        assert(self.tokens@ + parse_tokens(rest) =~= self.tokens@);
    }

    /// The head after one more byte: one more, or, where that would
    /// overflow, a small number that names the same place in the window.
    spec fn next_head(head_index: usize) -> usize {
        if head_index == usize::MAX {
            (HEATSHRINK_WINDOW_SIZE + head_index % HEATSHRINK_WINDOW_SIZE + 1) as usize
        } else {
            (head_index + 1) as usize
        }
    }

    /// The head after `count` more bytes.
    spec fn head_after(head_index: usize, count: nat) -> usize
        decreases count,
    {
        if count == 0 {
            head_index
        } else {
            Self::next_head(Self::head_after(head_index, (count - 1) as nat))
        }
    }

    /// Move the head past one more byte. The head counts the bytes handed
    /// out; before it would overflow it is folded back to a small number
    /// that names the same place in the window.
    fn advance_head(head_index: usize) -> (r: usize)
        ensures
            r == Self::next_head(head_index),
            r as nat % 256 == (head_index as nat + 1) % 256,
            head_index < 256 ==> r == head_index + 1,
            r >= 256 <==> head_index >= 255,
    {
        if head_index == usize::MAX {
            HEATSHRINK_WINDOW_SIZE + head_index % HEATSHRINK_WINDOW_SIZE + 1
        } else {
            head_index + 1
        }
    }

    /// Writing a byte at the head keeps the window in step.
    proof fn lemma_window_push(
        window: Seq<u8>,
        head_index: usize,
        emitted: Seq<u8>,
        next: usize,
        byte: u8,
    )
        requires
            window.len() == 256,
            Self::window_holds(window, head_index, emitted),
            next as nat % 256 == (head_index as nat + 1) % 256,
            head_index < 256 ==> next == head_index + 1,
            next >= 256 <==> head_index >= 255,
        ensures
            Self::window_holds(window.update(head_index as int % 256, byte), next, emitted.push(byte)),
    {
        let n = emitted.len() as int;
        let after = window.update(head_index as int % 256, byte);
        assert forall|i: int| 0 <= i < n + 1 && n + 1 - i <= 256 implies after[i % 256]
            == emitted.push(byte)[i] by {
            if i < n {
                assert(i % 256 != n % 256);
            }
        }
    }

    /// Read a tag bit and branch on it.
    fn st_tag_bit(&mut self) -> (r: HSDstate)
        requires
            old(self).inv(),
            old(self).state == HSDstate::TagBit,
        ensures
            final(self).state == old(self).state,
            final(self).emitted@ == old(self).emitted@,
            old(self).step(&final(self).with_state(r), true),
    {
        proof {
            reveal(HeatshrinkDecoder::inv);
        }
        let ghost before = *self;
        proof {
            lemma_prefix_refl(self.emitted@);
        }
        match self.get_bits(1) {
            None => {
                proof {
                    self.lemma_starved(1);
                }
                HSDstate::TagBit
            },
            Some(tag) => {
                proof {
                    before.lemma_field_split(1);
                    let field = before.field(before.position(), 1);
                    assert(field.drop_last() =~= Seq::<bool>::empty());
                    assert(bits_value(field.drop_last()) == 0);
                    assert(bits_value(field) == if field[0] { 1nat } else { 0nat });
                }
                if tag == 0 {
                    self.output_index = 0;
                    proof {
                        let next = self.with_state(HSDstate::BackrefIndexLsb);
                        assert(next.partial() =~= before.field(before.position(), 1));
                        assert(tokens_bits(next.tokens@) + next.partial() =~= tokens_bits(
                            before.tokens@,
                        ) + before.partial() + before.field(before.position(), 1));
                        assert(copy_back(before.emitted@, before.output_index as nat, 0)
                            == before.emitted@);
                        assert(copy_back(next.emitted@, next.output_index as nat, 0)
                            == next.emitted@);
                    }
                    HSDstate::BackrefIndexLsb
                } else {
                    proof {
                        let next = self.with_state(HSDstate::YieldLiteral);
                        assert(next.partial() =~= before.field(before.position(), 1));
                        assert(tokens_bits(next.tokens@) + next.partial() =~= tokens_bits(
                            before.tokens@,
                        ) + before.partial() + before.field(before.position(), 1));
                    }
                    HSDstate::YieldLiteral
                }
            },
        }
    }

    /// Read a literal byte and hand it out.
    fn st_yield_literal(&mut self, output_info: &mut OutputInfo) -> (r: HSDstate)
        requires
            old(self).inv(),
            old(self).state == HSDstate::YieldLiteral,
            old(output_info).wf(),
        ensures
            final(self).state == old(self).state,
            old(self).step(
                &final(self).with_state(r),
                final(output_info).count() < final(output_info).data().len(),
            ),
            OutputInfo::grown(
                old(output_info).data(),
                old(output_info).count(),
                final(output_info).data(),
                final(output_info).count(),
                final(self).emitted@.skip(old(self).emitted@.len() as int),
            ),
            final(final(output_info).output_buffer)@ == final(old(output_info).output_buffer)@,
            *final(final(output_info).output_size) == *final(old(output_info).output_size),
    {
        proof {
            reveal(HeatshrinkDecoder::inv);
        }
        let ghost before = *self;
        proof {
            lemma_prefix_refl(self.emitted@);
        }
        let ghost d0 = output_info.data();
        proof {
            assert(d0 =~= d0.take(output_info.count() as int) + Seq::<u8>::empty() + d0.skip(
                output_info.count() as int,
            ));
            assert(before.emitted@.skip(before.emitted@.len() as int) =~= Seq::<u8>::empty());
        }
        if output_info.can_take_byte() {
            match self.get_bits(8) {
                None => {
                    proof {
                        self.lemma_starved(8);
                    }
                    HSDstate::YieldLiteral
                },
                Some(x) => {
                    let c: u8 = x;
                    let next_head = Self::advance_head(self.head_index);
                    proof {
                        Self::lemma_window_push(
                            self.output_buffer@,
                            self.head_index,
                            self.emitted@,
                            next_head,
                            c,
                        );
                    }
                    self.output_buffer[self.head_index % HEATSHRINK_WINDOW_SIZE] = c;
                    self.head_index = next_head;
                    output_info.push_byte(c);
                    proof {
                        let token = Token::Literal { byte: c };
                        before.lemma_field_split(8);
                        let field = before.field(before.position(), 8);
                        lemma_value_low_bits(field);
                        lemma_tokens_bits_push(before.tokens@, token);
                        lemma_expand_push(before.tokens@, token);
                        self.tokens@ = before.tokens@.push(token);
                        self.emitted@ = before.emitted@.push(c);
                        let next = self.with_state(HSDstate::TagBit);
                        assert(tokens_bits(next.tokens@) + next.partial() =~= tokens_bits(
                            before.tokens@,
                        ) + before.partial() + field);
                        assert(copy_back(before.emitted@, before.output_index as nat, 0)
                            == before.emitted@);
                        assert(copy_back(next.emitted@, next.output_index as nat, 0)
                            == next.emitted@);
                        assert(next.emitted@.take(before.emitted@.len() as int)
                            =~= before.emitted@);
                        assert(next.emitted@.skip(before.emitted@.len() as int) =~= seq![c]);
                        assert(output_info.data() =~= d0.take(old(output_info).count() as int)
                            + seq![c] + d0.skip(output_info.count() as int));
                    }
                    HSDstate::TagBit
                },
            }
        } else {
            HSDstate::YieldLiteral
        }
    }

    /// Read the high bits of a distance. With a window of 256 bytes the
    /// distance has none, so this reads nothing.
    fn st_backref_index_msb(&mut self) -> (r: HSDstate)
        requires
            old(self).inv(),
            old(self).state == HSDstate::BackrefIndexMsb,
        ensures
            final(self).state == old(self).state,
            final(self).emitted@ == old(self).emitted@,
            old(self).step(&final(self).with_state(r), true),
    {
        proof {
            reveal(HeatshrinkDecoder::inv);
        }
        let ghost before = *self;
        proof {
            lemma_prefix_refl(self.emitted@);
        }
        match self.get_bits(HEATSHRINK_WINDOWS_BITS - 8) {
            None => HSDstate::BackrefIndexMsb,
            Some(x) => {
                proof {
                    let field = before.field(before.position(), 0);
                    assert(bits_value(field) == 0);
                    lemma_shift_zero();
                }
                self.output_index = (x as usize) << 8u8;
                proof {
                    let next = self.with_state(HSDstate::BackrefIndexLsb);
                    assert(copy_back(before.emitted@, before.output_index as nat, 0)
                        == before.emitted@);
                    assert(copy_back(next.emitted@, next.output_index as nat, 0)
                        == next.emitted@);
                }
                HSDstate::BackrefIndexLsb
            },
        }
    }

    /// Read the low eight bits of a distance.
    fn st_backref_index_lsb(&mut self) -> (r: HSDstate)
        requires
            old(self).inv(),
            old(self).state == HSDstate::BackrefIndexLsb,
        ensures
            final(self).state == old(self).state,
            final(self).emitted@ == old(self).emitted@,
            old(self).step(&final(self).with_state(r), true),
    {
        proof {
            reveal(HeatshrinkDecoder::inv);
        }
        let ghost before = *self;
        proof {
            lemma_prefix_refl(self.emitted@);
        }
        match self.get_bits(8) {
            None => {
                proof {
                    self.lemma_starved(8);
                }
                HSDstate::BackrefIndexLsb
            },
            Some(x) => {
                proof {
                    lemma_or_zero(x);
                }
                self.output_index |= x as usize;
                self.output_index += 1;
                self.output_count = 0;
                proof {
                    before.lemma_field_split(8);
                    let field = before.field(before.position(), 8);
                    lemma_value_low_bits(field);
                    let next = self.with_state(HSDstate::BackrefCountLsb);
                    assert(next.partial() =~= before.partial() + field);
                    assert(tokens_bits(next.tokens@) + next.partial() =~= tokens_bits(
                        before.tokens@,
                    ) + before.partial() + field);
                    assert(copy_back(before.emitted@, before.output_index as nat, 0)
                        == before.emitted@);
                    assert(copy_back(next.emitted@, next.output_index as nat, 0)
                        == next.emitted@);
                }
                HSDstate::BackrefCountLsb
            },
        }
    }

    /// Read the bits of a length.
    fn st_backref_count_lsb(&mut self) -> (r: HSDstate)
        requires
            old(self).inv(),
            old(self).state == HSDstate::BackrefCountLsb,
        ensures
            final(self).state == old(self).state,
            final(self).emitted@ == old(self).emitted@,
            old(self).step(&final(self).with_state(r), true),
    {
        proof {
            reveal(HeatshrinkDecoder::inv);
        }
        let ghost before = *self;
        proof {
            lemma_prefix_refl(self.emitted@);
        }
        match self.get_bits(HEATSHRINK_LOOKAHEAD_BITS) {
            None => {
                proof {
                    self.lemma_starved(4);
                }
                HSDstate::BackrefCountLsb
            },
            Some(x) => {
                proof {
                    lemma_or_zero(x);
                    before.lemma_field_split(4);
                    lemma_bits_value_small(before.field(before.position(), 4));
                }
                self.output_count |= x as u16;
                self.output_count += 1;
                proof {
                    let field = before.field(before.position(), 4);
                    lemma_value_low_bits(field);
                    let token = Token::Backref {
                        distance: before.output_index as nat,
                        length: self.output_count as nat,
                    };
                    lemma_tokens_bits_push(before.tokens@, token);
                    lemma_expand_push(before.tokens@, token);
                    self.tokens@ = before.tokens@.push(token);
                    let next = self.with_state(HSDstate::YieldBackref);
                    assert(tokens_bits(next.tokens@) + next.partial() =~= tokens_bits(
                        before.tokens@,
                    ) + before.partial() + field);
                    assert(copy_back(before.emitted@, before.output_index as nat, 0)
                        == before.emitted@);
                }
                HSDstate::YieldBackref
            },
        }
    }

    /// Copy out as much of the pending backreference as there is room for.
    /// Each byte is read from the window and written back to it at the
    /// head, so that a copy may run over what it has itself written. A
    /// distance that reaches back before the first byte reads zero.
    #[verifier::rlimit(40)]
    fn st_yield_backref(&mut self, output_info: &mut OutputInfo) -> (r: HSDstate)
        requires
            old(self).inv(),
            old(self).state == HSDstate::YieldBackref,
            old(output_info).wf(),
        ensures
            final(self).state == old(self).state,
            old(self).step(
                &final(self).with_state(r),
                final(output_info).count() < final(output_info).data().len(),
            ),
            OutputInfo::grown(
                old(output_info).data(),
                old(output_info).count(),
                final(output_info).data(),
                final(output_info).count(),
                final(self).emitted@.skip(old(self).emitted@.len() as int),
            ),
            final(final(output_info).output_buffer)@ == final(old(output_info).output_buffer)@,
            *final(final(output_info).output_size) == *final(old(output_info).output_size),
            ({
                let room = old(output_info).data().len() - old(output_info).count();
                let n = if room < old(self).output_count {
                    room as nat
                } else {
                    old(self).output_count as nat
                };
                &&& final(self).emitted@ == copy_back(
                    old(self).emitted@,
                    old(self).output_index as nat,
                    n,
                )
                &&& final(self).output_count == old(self).output_count - n
                &&& final(self).head_index == Self::head_after(old(self).head_index, n)
                &&& *final(self) == (HeatshrinkDecoder {
                    output_buffer: final(self).output_buffer,
                    emitted: final(self).emitted,
                    head_index: final(self).head_index,
                    output_count: final(self).output_count,
                    ..*old(self)
                })
                &&& r == if final(self).output_count == 0 {
                    HSDstate::TagBit
                } else {
                    HSDstate::YieldBackref
                }
            }),
    {
        proof {
            reveal(HeatshrinkDecoder::inv);
        }
        let ghost before = *self;
        let ghost d0 = output_info.data();
        let ghost c0 = output_info.count();
        proof {
            lemma_prefix_refl(self.emitted@);
            assert(d0 =~= d0.take(c0 as int) + Seq::<u8>::empty() + d0.skip(c0 as int));
            assert(before.emitted@.skip(before.emitted@.len() as int) =~= Seq::<u8>::empty());
        }
        if output_info.can_take_byte() {
            let mut i: usize = 0;
            let mut head_index: usize = self.head_index;
            let output_index: usize = self.output_index;

            let count: usize = if output_info.remaining_free_size() > self.output_count as usize {
                self.output_count as usize
            } else {
                output_info.remaining_free_size()
            };

            while i < count
                invariant
                    i <= count <= before.output_count,
                    c0 + count <= d0.len(),
                    1 <= output_index <= 256,
                    output_index == before.output_index,
                    *self == (HeatshrinkDecoder {
                        output_buffer: self.output_buffer,
                        emitted: self.emitted,
                        ..before
                    }),
                    Self::window_holds(self.output_buffer@, head_index, self.emitted@),
                    head_index == Self::head_after(before.head_index, i as nat),
                    self.emitted@ == copy_back(before.emitted@, output_index as nat, i as nat),
                    copy_back(self.emitted@, output_index as nat, (before.output_count - i) as nat)
                        == expand(before.tokens@),
                    self.emitted@.len() == before.emitted@.len() + i,
                    is_prefix(before.emitted@, self.emitted@),
                    OutputInfo::grown(
                        d0,
                        c0,
                        output_info.data(),
                        output_info.count(),
                        self.emitted@.skip(before.emitted@.len() as int),
                    ),
                    final(output_info.output_buffer)@ == final(old(output_info).output_buffer)@,
                    *final(output_info.output_size) == *final(old(output_info).output_size),
                decreases count - i,
            {
                let ghost emitted = self.emitted@;
                let ghost data = output_info.data();
                let c: u8 = if output_index > head_index {
                    0
                } else {
                    self.output_buffer[(head_index - output_index) % HEATSHRINK_WINDOW_SIZE]
                };
                proof {
                    if output_index <= head_index {
                        let at = emitted.len() - output_index;
                        assert(self.output_buffer@[at % 256] == emitted[at]);
                        assert((head_index - output_index) % 256 == at % 256);
                    }
                    assert(c == look_back(emitted, output_index as nat));
                }
                output_info.push_byte(c);
                let next_head = Self::advance_head(head_index);
                proof {
                    Self::lemma_window_push(self.output_buffer@, head_index, emitted, next_head, c);
                }
                self.output_buffer[head_index % HEATSHRINK_WINDOW_SIZE] = c;
                head_index = next_head;
                i += 1;
                proof {
                    self.emitted@ = emitted.push(c);
                    lemma_copy_back_step(before.emitted@, output_index as nat, (i - 1) as nat);
                    assert(self.emitted@.take(before.emitted@.len() as int) =~= emitted.take(
                        before.emitted@.len() as int,
                    ));
                    assert(self.emitted@.skip(before.emitted@.len() as int) =~= emitted.skip(
                        before.emitted@.len() as int,
                    ).push(c));
                    assert(output_info.data() =~= d0.take(c0 as int) + self.emitted@.skip(
                        before.emitted@.len() as int,
                    ) + d0.skip(output_info.count() as int));
                }
            }

            self.head_index = head_index;
            self.output_count -= count as u16;

            if self.output_count == 0 {
                return HSDstate::TagBit;
            }
        }
        HSDstate::YieldBackref
    }

    /// Decode what has been sunk into `output_buffer`, as far as there is
    /// input to read and room to write.
    ///
    /// The decoder hands out the bytes that the whole tokens sunk so far
    /// stand for, from where it left off, until the output is full
    /// (`PollMore`) or nothing is left to hand out (`PollEmpty`). It reads
    /// ahead into the next token as far as it can. An `output_buffer`
    /// without room is a misuse.
    #[verifier::rlimit(80)]
    pub fn poll(&mut self, output_buffer: &mut [u8]) -> (r: (HSpollRes, usize))
        requires
            old(self).wf(),
        ensures
            final(self).wf(),
            final(self).sunk() == old(self).sunk(),
            final(output_buffer)@.len() == old(output_buffer)@.len(),
            final(self).consumed() >= old(self).consumed(),
            final(self).staged() == if old(self).consumed() < final(self).consumed() && 8 * old(
                self,
            ).sunk().len() <= final(self).consumed() + 8 {
                0
            } else {
                old(self).staged()
            },
            old(output_buffer)@.len() == 0 ==> r == (HSpollRes::PollErrorMisuse, 0usize)
                && *final(self) == *old(self),
            old(output_buffer)@.len() > 0 ==> {
                let all = decode_spec(old(self).sunk());
                let done = old(self).emitted().len();
                let room = old(output_buffer)@.len();
                let n = if all.len() - done < room {
                    all.len() - done
                } else {
                    room as int
                };
                &&& r.1 == n
                &&& r.0 == if n == room {
                    HSpollRes::PollMore
                } else {
                    HSpollRes::PollEmpty
                }
                &&& final(self).emitted() == all.take(done + n)
                &&& final(output_buffer)@ == all.subrange(done as int, done + n) + old(
                    output_buffer,
                )@.skip(n)
                &&& r.0 == HSpollRes::PollEmpty ==> final(self).staged() == 0
                &&& final(self).consumed() == position_after(
                    bits_of_bytes(old(self).sunk()),
                    done + n,
                )
            },
    {
        proof {
            reveal(HeatshrinkDecoder::inv);
        }
        if output_buffer.is_empty() {
            (HSpollRes::PollErrorMisuse, 0)
        } else {
            let mut output_size: usize = 0;
            let ghost before = *self;
            let ghost d0 = output_buffer@;
            proof {
                lemma_prefix_refl(self.emitted@);
                assert(d0 =~= d0.take(0) + Seq::<u8>::empty() + d0.skip(0));
                assert(before.emitted@.skip(before.emitted@.len() as int) =~= Seq::<u8>::empty());
            }

            let mut output_info = OutputInfo::new(output_buffer, &mut output_size);

            loop
                invariant
                    self.inv(),
                    self.state != HSDstate::BackrefIndexMsb,
                    before == *old(self),
                    d0 == old(output_buffer)@,
                    self.sunk@ == before.sunk@,
                    is_prefix(before.emitted@, self.emitted@),
                    self.input_size == 0 || self.input_size == before.input_size,
                    self.position() >= before.position(),
                    self.position() > before.position() ==> (self.input_size == 0
                        <==> self.position() + 8 >= 8 * self.sunk@.len()),
                    self.position() == before.position() ==> self.input_size
                        == before.input_size,
                    d0.len() > 0,
                    OutputInfo::grown(
                        d0,
                        0,
                        output_info.data(),
                        output_info.count(),
                        self.emitted@.skip(before.emitted@.len() as int),
                    ),
                    final(output_info.output_buffer)@ == after_borrow(output_buffer)@,
                    *final(output_info.output_size) == after_borrow(output_size),
                decreases self.measure(),
            {
                let in_state = self.state;
                let ghost prior = *self;
                let ghost d1 = output_info.data();
                let ghost c1 = output_info.count();
                proof {
                    reveal(HeatshrinkDecoder::inv);
                    assert(self.available() >= 0);
                }

                match in_state {
                    HSDstate::TagBit => {
                        self.state = self.st_tag_bit();
                    },
                    HSDstate::YieldLiteral => {
                        self.state = self.st_yield_literal(&mut output_info);
                    },
                    HSDstate::BackrefIndexMsb => {
                        self.state = self.st_backref_index_msb();
                    },
                    HSDstate::BackrefIndexLsb => {
                        self.state = self.st_backref_index_lsb();
                    },
                    HSDstate::BackrefCountLsb => {
                        self.state = self.st_backref_count_lsb();
                    },
                    HSDstate::YieldBackref => {
                        self.state = self.st_yield_backref(&mut output_info);
                    },
                }
                proof {
                    let step_out = self.emitted@.skip(prior.emitted@.len() as int);
                    assert(step_out =~= Seq::<u8>::empty() ==> OutputInfo::grown(
                        d1,
                        c1,
                        d1,
                        c1,
                        step_out,
                    )) by {
                        assert(d1 =~= d1.take(c1 as int) + Seq::<u8>::empty() + d1.skip(c1 as int));
                    }
                    if self.emitted@ == prior.emitted@ {
                        assert(step_out =~= Seq::<u8>::empty());
                    }
                    OutputInfo::lemma_grown_twice(
                        d0,
                        0,
                        d1,
                        c1,
                        output_info.data(),
                        output_info.count(),
                        prior.emitted@.skip(before.emitted@.len() as int),
                        step_out,
                    );
                    lemma_prefix_trans(before.emitted@, prior.emitted@, self.emitted@);
                    assert(prior.emitted@.skip(before.emitted@.len() as int) + step_out
                        =~= self.emitted@.skip(before.emitted@.len() as int));
                }

                // A state that did not change has stopped: for want of room
                // if the output is full, for want of input otherwise.
                if self.state == in_state {
                    proof {
                        self.lemma_settled_position();
                        self.lemma_emitted_is_prefix();
                        let all = decode_spec(self.sunk@);
                        let done = before.emitted@.len() as int;
                        let n = output_info.count() as int;
                        assert(self.emitted@ =~= all.take(done + n));
                        assert(self.emitted@.skip(done) =~= all.subrange(done, done + n));
                    }
                    if output_info.can_take_byte() {
                        return (HSpollRes::PollEmpty, output_size);
                    } else {
                        return (HSpollRes::PollMore, output_size);
                    }
                }
            }
        }
    }

    /// The bits read so far, with the `count` bits that follow them.
    proof fn lemma_field_split(&self, count: int)
        requires
            self.reader_wf(),
            0 <= count <= self.available(),
        ensures
            bits_of_bytes(self.sunk@).take(self.position() + count) =~= bits_of_bytes(
                self.sunk@,
            ).take(self.position()) + self.field(self.position(), count),
            self.field(self.position(), count).len() == count,
    {
    }

    /// Tell whether every staged byte has been taken up.
    pub fn finish(&self) -> (r: HSfinishRes)
        ensures
            r == if self.staged() == 0 {
                HSfinishRes::FinishDone
            } else {
                HSfinishRes::FinishMore
            },
    {
        if self.input_size == 0 {
            HSfinishRes::FinishDone
        } else {
            HSfinishRes::FinishMore
        }
    }
}

impl Default for HeatshrinkDecoder {
    fn default() -> (r: Self)
        ensures
            r == HeatshrinkDecoder::fresh(),
            r.wf(),
            r.sunk() == Seq::<u8>::empty(),
            r.emitted() == Seq::<u8>::empty(),
            r.staged() == 0,
            r.consumed() == 0,
    {
        proof {
            reveal(HeatshrinkDecoder::inv);
        }
        HeatshrinkDecoder::new()
    }
}

} // verus!
