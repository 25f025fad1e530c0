//! Streaming LZSS compression for memory-constrained targets.
//!
//! All working state lives in fixed-size buffers inside the encoder and the
//! decoder. Both are driven a few bytes at a time: `sink` takes input,
//! `poll` gives output, and `finish` says that the input has ended. Each
//! call returns when it runs out of input or of room and picks up where it
//! left off at the next call. `encode` and `decode` drive the two over
//! whole buffers.
//!
//! What the two machines compute is laid down apart from them:
//!
//! - `bits` relates bytes to the bits of the stream;
//! - `format` defines the tokens of the stream, how they are written, what
//!   a run of them stands for and what a stream decodes to;
//! - `lzss` defines which token the encoder writes for each position, and
//!   with that what a stream is compressed to;
//! - `demand` defines where the encoder asks for room in its output;
//! - `matcher` holds the two interchangeable ways of finding a match;
//! - `roundtrip` proves that decoding undoes encoding.
//!
//! The encoder and the decoder each keep, as ghost state, every byte they
//! were given and every byte they handed out. Their operations say how the
//! two grow, so that what a machine has handed out depends on what it was
//! given and on nothing else: not on the size of the pieces, nor on the
//! room it was polled with.

use vstd::prelude::*;

pub mod bits;
pub mod decoder;
pub mod demand;
pub mod encoder;
pub mod format;
pub mod lzss;
pub mod matcher;
pub mod roundtrip;

verus! {

/// Number of bits used to encode a backreference distance.
pub const HEATSHRINK_WINDOWS_BITS: u8 = 8;

/// Number of bits used to encode a backreference length.
pub const HEATSHRINK_LOOKAHEAD_BITS: u8 = 4;

/// Size in bytes of the decoder's staging buffer.
pub const HEATSHRINK_INPUT_BUFFER_SIZE: usize = 32;

/// Size in bytes of the window that backreferences reach into.
pub const HEATSHRINK_WINDOW_SIZE: usize = 256;

/// Size in bytes of the encoder's buffer: a window and as much again.
pub const HEATSHRINK_ENCODER_BUFFER_SIZE: usize = 512;

/// Longest run, in bytes, that one backreference copies.
pub const HEATSHRINK_LOOKAHEAD_SIZE: usize = 16;

/// Return code for a `sink` call.
#[derive(Debug, Clone, Copy, PartialEq, Eq, Structural)]
pub enum HSsinkRes {
    /// The instance is not in a state that accepts input.
    SinkErrorMisuse,
    /// The internal buffer is full; no data was added.
    SinkFull,
    /// Data was added to the internal buffer.
    SinkOK,
}

/// Return code for a `poll` call.
#[derive(Debug, Clone, Copy, PartialEq, Eq, Structural)]
pub enum HSpollRes {
    /// Error in the input parameters.
    PollErrorMisuse,
    /// More output is waiting; poll again with fresh capacity.
    PollMore,
    /// Nothing more can be produced without new input.
    PollEmpty,
}

/// Return code for a `finish` call.
#[derive(Debug, Clone, Copy, PartialEq, Eq, Structural)]
pub enum HSfinishRes {
    /// More work is pending; keep polling.
    FinishMore,
    /// The operation is done.
    FinishDone,
}

/// Error of the whole-buffer `encode` and `decode`.
#[derive(Debug, Clone, Copy, PartialEq, Eq, Structural)]
pub enum HSError {
    /// The output buffer was not large enough to hold the output.
    OutputFull,
    /// The codec was driven in a way its protocol forbids. `encode` and
    /// `decode` keep to the protocol and never give this.
    Internal,
}

/// A caller's output slice together with the count of bytes written to it.
pub struct OutputInfo<'a, 'b> {
    output_buffer: &'a mut [u8],
    output_size: &'b mut usize,
}

impl<'a, 'b> OutputInfo<'a, 'b> {
    /// Number of bytes written so far.
    spec fn count(&self) -> nat {
        *self.output_size as nat
    }

    /// Current content of the whole output slice.
    spec fn data(&self) -> Seq<u8> {
        self.output_buffer@
    }

    /// The count never passes the end of the slice.
    spec fn wf(&self) -> bool {
        self.count() <= self.data().len()
    }

    /// Whether an output that held `d0` with `c0` bytes written holds `d1`
    /// with `c1` bytes written once `out` has been appended to it.
    spec fn grown(d0: Seq<u8>, c0: nat, d1: Seq<u8>, c1: nat, out: Seq<u8>) -> bool {
        &&& c1 == c0 + out.len()
        &&& c1 <= d1.len()
        &&& d1.len() == d0.len()
        &&& d1 == d0.take(c0 as int) + out + d0.skip(c1 as int)
    }

    /// Appending in two steps is appending the concatenation.
    proof fn lemma_grown_twice(
        d0: Seq<u8>,
        c0: nat,
        d1: Seq<u8>,
        c1: nat,
        d2: Seq<u8>,
        c2: nat,
        first: Seq<u8>,
        second: Seq<u8>,
    )
        requires
            Self::grown(d0, c0, d1, c1, first),
            Self::grown(d1, c1, d2, c2, second),
        ensures
            Self::grown(d0, c0, d2, c2, first + second),
    {
        assert(d2 =~= d0.take(c0 as int) + (first + second) + d0.skip(c2 as int));
    }

    /// Wraps an output slice and its running count.
    fn new(output_buffer: &'a mut [u8], output_size: &'b mut usize) -> (r: Self)
        ensures
            r.data() == old(output_buffer)@,
            r.count() == *old(output_size),
            final(r.output_buffer)@ == final(output_buffer)@,
            *final(r.output_size) == *final(output_size),
    {
        OutputInfo { output_buffer, output_size }
    }

    /// Appends one byte.
    fn push_byte(&mut self, byte: u8)
        requires
            old(self).count() < old(self).data().len(),
        ensures
            final(self).count() == old(self).count() + 1,
            final(self).data() == old(self).data().update(old(self).count() as int, byte),
            final(final(self).output_buffer)@ == final(old(self).output_buffer)@,
            *final(final(self).output_size) == *final(old(self).output_size),
    {
        self.output_buffer[*self.output_size] = byte;
        *self.output_size += 1;
    }

    /// Whether there is room for one more byte.
    fn can_take_byte(&self) -> (r: bool)
        ensures
            r == (self.count() < self.data().len()),
    {
        *self.output_size < self.output_buffer.len()
    }

    /// Number of bytes that can still be written.
    fn remaining_free_size(&self) -> (r: usize)
        requires
            self.wf(),
        ensures
            r == self.data().len() - self.count(),
    {
        self.output_buffer.len() - *self.output_size
    }
}

} // verus!
