//! The encoder: a state machine that turns a stream of bytes into the
//! compressed stream.

use crate::bits::{
    bit, byte_at, fits, lemma_bit_ops, lemma_clear_chunk, lemma_pack_prefix, lemma_push, low_bits,
    pack, packed_len,
};
use crate::demand::{
    asks, asks_at, lemma_asks_after_backref, lemma_asks_at_end, lemma_no_ask_between,
    lemma_offset_grows, lemma_offset_next, offset,
};
use crate::format::{
    is_prefix, lemma_prefix_of_common, lemma_prefix_refl, lemma_prefix_trans,
    lemma_tokens_bits_concat, lemma_tokens_bits_one, lemma_tokens_bits_push, Token, tokens_bits,
};
use crate::lzss::{
    encode_spec, lemma_best_match, lemma_best_match_shift, lemma_next_token, lemma_scan_extend,
    lemma_scan_same, lemma_scan_split, longest_match, lookahead_at, next_position, next_token,
    scan_end, tokens_range, with_history,
};
use crate::matcher::{BruteForce, found, MatchFinder};
use crate::HSError;
use crate::HSfinishRes;
use crate::HSpollRes;
use crate::HSsinkRes;
use crate::OutputInfo;
use crate::HEATSHRINK_ENCODER_BUFFER_SIZE;
use crate::HEATSHRINK_LOOKAHEAD_BITS;
use crate::HEATSHRINK_LOOKAHEAD_SIZE;
use crate::HEATSHRINK_WINDOWS_BITS;
use crate::HEATSHRINK_WINDOW_SIZE;
use vstd::prelude::*;
use vstd::slice::slice_subrange;

verus! {

#[derive(Debug, Copy, Clone, PartialEq, Eq, Structural)]
enum HSEstate {
    /// The input buffer is not full enough.
    NotFull,
    /// The input buffer is full.
    Filled,
    /// Searching for a match.
    Search,
    /// Yielding the tag bit of a token.
    YieldTagBit,
    /// Yielding a literal byte.
    YieldLiteral,
    /// Yielding the distance of a backreference.
    YieldBrIndex,
    /// Yielding the length of a backreference.
    YieldBrLength,
    /// Moving what is left of the buffer down to make room.
    SaveBacklog,
    /// Flushing the last bits.
    FlushBits,
    /// Everything has been written.
    Done,
}

/// Compress the `src` buffer into the `dst` buffer and give the part of
/// `dst` that was written. Where what `src` is compressed to is longer than
/// `dst`, the result is `OutputFull`.
pub fn encode<'a>(src: &[u8], dst: &'a mut [u8]) -> (r: Result<&'a [u8], HSError>)
    ensures
        final(dst)@.len() == old(dst)@.len(),
        r is Ok ==> final(dst)@ == r->Ok_0@ + old(dst)@.skip(r->Ok_0@.len() as int),
        match r {
            Ok(out) => out@ == encode_spec(src@) && encode_spec(src@).len() <= old(dst)@.len(),
            Err(e) => e == HSError::OutputFull && encode_spec(src@).len() > old(dst)@.len(),
        },
{
    encode_with::<BruteForce>(src, dst)
}

/// Compress the `src` buffer into the `dst` buffer with the match finder
/// `M`, and give the part of `dst` that was written, as `encode` does. The
/// result does not depend on the finder.
pub fn encode_with<'a, M: MatchFinder>(src: &[u8], dst: &'a mut [u8]) -> (r: Result<
    &'a [u8],
    HSError,
>)
    ensures
        final(dst)@.len() == old(dst)@.len(),
        r is Ok ==> final(dst)@ == r->Ok_0@ + old(dst)@.skip(r->Ok_0@.len() as int),
        match r {
            Ok(out) => out@ == encode_spec(src@) && encode_spec(src@).len() <= old(dst)@.len(),
            Err(e) => e == HSError::OutputFull && encode_spec(src@).len() > old(dst)@.len(),
        },
{
    let mut total_input_size: usize = 0;
    let mut total_output_size: usize = 0;

    let mut enc: HeatshrinkEncoder<M> = Default::default();
    proof {
        assert(src@.take(0) =~= Seq::<u8>::empty());
        assert(dst@.take(0) =~= Seq::<u8>::empty());
    }

    while total_input_size < src.len()
        invariant
            enc.wf(),
            total_input_size <= src@.len(),
            enc.sunk() == src@.take(total_input_size as int),
            total_output_size == enc.emitted().len(),
            total_output_size <= dst@.len(),
            dst@.len() == old(dst)@.len(),
            dst@.take(total_output_size as int) == enc.emitted(),
            dst@.skip(total_output_size as int) == old(dst)@.skip(total_output_size as int),
            total_input_size < src@.len() || src@.len() == 0 ==> enc.accepting(),
            total_input_size == src@.len() && src@.len() > 0 ==> enc.done(),
        decreases src@.len() - total_input_size,
    {
        proof {
            enc.lemma_emitted();
        }
        // Fill the input buffer from what is left of `src`.
        match enc.sink(slice_subrange(src, total_input_size, src.len())) {
            (HSsinkRes::SinkOK, segment_input_size) => {
                total_input_size += segment_input_size;
            },
            (HSsinkRes::SinkFull, _) => {
                return Err(HSError::Internal);
            },
            (HSsinkRes::SinkErrorMisuse, _) => {
                return Err(HSError::Internal);
            },
        }
        proof {
            assert(enc.sunk() =~= src@.take(total_input_size as int));
        }

        // With all of `src` sunk, the stream is finished.
        if total_input_size == src.len() {
            match enc.finish() {
                HSfinishRes::FinishDone => {},
                HSfinishRes::FinishMore => {},
            }
            proof {
                assert(src@.take(total_input_size as int) =~= src@);
            }
        }
        proof {
            enc.lemma_emitted();
        }

        if total_output_size < dst.len() {
            // Compress what was sunk.
            let (_, rest) = dst.split_at_mut(total_output_size);
            match enc.poll(rest) {
                (HSpollRes::PollMore, segment_output_size) => {
                    total_output_size += segment_output_size;
                },
                (HSpollRes::PollEmpty, segment_output_size) => {
                    total_output_size += segment_output_size;
                },
                (HSpollRes::PollErrorMisuse, _) => {
                    return Err(HSError::Internal);
                },
            }
            proof {
                enc.lemma_emitted();
                assert(dst@.take(total_output_size as int) =~= enc.emitted());
                assert(dst@.skip(total_output_size as int) =~= old(dst)@.skip(
                    total_output_size as int,
                ));
            }
        }
        if total_output_size == dst.len() {
            // `dst` is full. Whatever the encoder still has to hand out
            // does not fit; see whether there is a byte of it.
            let mut spare: [u8; 1] = [0;1];
            match enc.poll(&mut spare) {
                (HSpollRes::PollMore, _) => {
                    proof {
                        enc.lemma_progress(src@);
                    }
                    return Err(HSError::OutputFull);
                },
                (HSpollRes::PollEmpty, segment_output_size) => {
                    if segment_output_size > 0 {
                        proof {
                            enc.lemma_progress(src@);
                        }
                        return Err(HSError::OutputFull);
                    }
                },
                (HSpollRes::PollErrorMisuse, _) => {
                    return Err(HSError::Internal);
                },
            }
            proof {
                enc.lemma_emitted();
            }
        }
    }
    proof {
        assert(src@.take(total_input_size as int) =~= src@);
        enc.lemma_progress(src@);
        if src@.len() == 0 {
            enc.lemma_emitted();
            assert(encode_spec(src@) =~= Seq::<u8>::empty());
        }
        assert(dst@ =~= dst@.take(total_output_size as int) + dst@.skip(
            total_output_size as int,
        ));
    }

    Ok(&dst[0..total_output_size])
}

/// The encoder instance. `M` is the way it finds matches.
pub struct HeatshrinkEncoder<M: MatchFinder = BruteForce> {
    input_size: usize,
    match_scan_index: usize,
    match_length: usize,
    match_pos: usize,
    outgoing_bits: u16,
    outgoing_bits_count: u8,
    flags: u8,
    current_byte: u8,
    bit_index: u8,
    state: HSEstate,
    finder: M,
    input_buffer: [u8; HEATSHRINK_ENCODER_BUFFER_SIZE],
    /// Every byte accepted by `sink` so far.
    sunk: Ghost<Seq<u8>>,
    /// The tokens written completely so far.
    tokens: Ghost<Seq<Token>>,
    /// Every bit written so far, whether handed out or held back.
    pushed: Ghost<Seq<bool>>,
    /// Every byte handed out by `poll` so far.
    emitted: Ghost<Seq<u8>>,
}

/// The flag that marks an encoder as finishing.
const FLAG_IS_FINISHING: u8 = 1;

/// Whether `a` is the beginning of `b`.
pub open spec fn is_bit_prefix(a: Seq<bool>, b: Seq<bool>) -> bool {
    a.len() <= b.len() && b.take(a.len() as int) == a
}

/// What an encoder is, seen from outside: what it has been given, what it
/// has written and given back, and what it is ready for.
pub struct EncoderView {
    /// Every byte accepted by `sink` since the instance was made or reset.
    pub sunk: Seq<u8>,
    /// Every bit written since the instance was made or reset. The whole
    /// bytes among them have been handed out; the rest is held back until
    /// the byte is complete or the stream is flushed.
    pub pushed: Seq<bool>,
    /// Every byte handed out by `poll` since the instance was made or reset.
    pub emitted: Seq<u8>,
    /// Number of bytes that the input buffer holds and that have not been
    /// moved into the window.
    pub staged: nat,
    /// Whether `finish` has been called.
    pub finishing: bool,
    /// Whether the encoder takes input.
    pub accepting: bool,
    /// Whether the input buffer has been filled, or the stream finished,
    /// and the encoder has not been polled since.
    pub filled: bool,
    /// Whether the encoder has written and flushed everything.
    pub done: bool,
}

impl<M: MatchFinder> View for HeatshrinkEncoder<M> {
    type V = EncoderView;

    closed spec fn view(&self) -> EncoderView {
        EncoderView {
            sunk: self.sunk@,
            pushed: self.pushed@,
            emitted: self.emitted@,
            staged: self.input_size as nat,
            finishing: self.flags == FLAG_IS_FINISHING,
            accepting: self.state == HSEstate::NotFull,
            filled: self.state == HSEstate::Filled,
            done: self.state == HSEstate::Done,
        }
    }
}

impl<M: MatchFinder> HeatshrinkEncoder<M> {
    /// Every byte accepted by `sink` since the instance was made or reset.
    pub open spec fn sunk(&self) -> Seq<u8> {
        self@.sunk
    }

    /// Every byte handed out by `poll` since the instance was made or reset.
    pub open spec fn emitted(&self) -> Seq<u8> {
        self@.emitted
    }

    /// Every bit written since the instance was made or reset.
    pub open spec fn pushed(&self) -> Seq<bool> {
        self@.pushed
    }

    /// Whether `finish` has been called.
    pub open spec fn finishing(&self) -> bool {
        self@.finishing
    }

    /// Whether the encoder takes input.
    pub open spec fn accepting(&self) -> bool {
        self@.accepting
    }

    /// Whether the input buffer has been filled, or the stream finished,
    /// and the encoder has not been polled since.
    pub open spec fn filled(&self) -> bool {
        self@.filled
    }

    /// Whether the encoder has written and flushed everything.
    pub open spec fn done(&self) -> bool {
        self@.done
    }

    /// Number of bytes that the input buffer holds and that have not been
    /// moved into the window.
    pub open spec fn staged(&self) -> nat {
        self@.staged
    }

    /// The position up to which the stream can be encoded with the input at
    /// hand: all of it once the encoder is finishing, and before that as
    /// far as sixteen bytes can be looked at.
    pub open spec fn limit(&self) -> int {
        if self.finishing() {
            self.sunk().len() as int
        } else if self.sunk().len() < 15 {
            0
        } else {
            self.sunk().len() - 15
        }
    }

    /// The tokens that the stream is encoded as up to the limit.
    #[verifier::opaque]
    pub open spec fn goal_tokens(&self) -> Seq<Token> {
        tokens_range(self.sunk(), 0, self.limit())
    }

    /// The bits that the encoder has written when it has done all it can
    /// with the input at hand.
    pub open spec fn goal(&self) -> Seq<bool> {
        if self.accepting() {
            self.pushed()
        } else {
            tokens_bits(self.goal_tokens())
        }
    }

    /// Whether the encoder asks for room in the output when it has written
    /// `c` bits: before and between the pieces of a token, after a
    /// backreference, and before it hands out a last byte of which only a
    /// part is written.
    #[verifier::opaque]
    pub open spec fn needs_room(&self, c: int) -> bool {
        let bits = tokens_bits(self.goal_tokens());
        asks(self.goal_tokens(), c) || (self.finishing() && c == bits.len() && bits.len() % 8
            != 0)
    }

    /// Whether the encoder, having written `end` bits since it was polled
    /// with room for `room` bytes, asks for room and has none left: as many
    /// whole bytes as there was room for have been written.
    #[verifier::opaque]
    pub open spec fn out_of_room(&self, end: int, room: nat) -> bool {
        self.needs_room(end) && end / 8 - self.pushed().len() / 8 >= room
    }

    /// Whether the encoder, polled with room for `room` bytes, writes on
    /// until it has written `end` bits: it has room wherever it asks for it
    /// before that, and then it either asks for room and has none, or has
    /// written all it can with the input at hand.
    #[verifier::opaque]
    pub open spec fn writes_until(&self, end: int, room: nat) -> bool {
        &&& self.pushed().len() <= end <= self.goal().len()
        &&& forall|c: int|
            self.needs_room(c) && self.pushed().len() <= c < end ==> !self.out_of_room(c, room)
        &&& (end == self.goal().len() || self.out_of_room(end, room))
    }

    /// Stream position of the first staged byte.
    spec fn base(&self) -> int {
        self.sunk@.len() - self.input_size
    }

    /// Whether a literal is being written.
    spec fn literal_in_flight(&self) -> bool {
        (self.state == HSEstate::YieldTagBit || self.state == HSEstate::YieldLiteral)
            && self.match_length == 0
    }

    /// Whether the backreference that was being written is complete.
    spec fn backref_complete(&self) -> bool {
        self.state == HSEstate::YieldBrLength && self.outgoing_bits_count == 0
    }

    /// Whether a token has been chosen and not yet written completely.
    spec fn in_flight(&self) -> bool {
        match self.state {
            HSEstate::YieldTagBit | HSEstate::YieldLiteral | HSEstate::YieldBrIndex => true,
            HSEstate::YieldBrLength => self.outgoing_bits_count != 0,
            _ => false,
        }
    }

    /// Stream position that follows the tokens written completely.
    spec fn position(&self) -> int {
        if self.literal_in_flight() {
            self.base() + self.match_scan_index - 1
        } else if self.backref_complete() {
            self.base() + self.match_scan_index + self.match_length
        } else {
            self.base() + self.match_scan_index
        }
    }

    /// The bits already written of the token that is being written.
    spec fn partial(&self) -> Seq<bool> {
        match self.state {
            HSEstate::YieldLiteral => seq![true],
            HSEstate::YieldBrIndex => if self.outgoing_bits_count == 0 {
                seq![false] + low_bits((self.match_pos - 1) as u8, 8)
            } else {
                seq![false]
            },
            HSEstate::YieldBrLength => if self.outgoing_bits_count == 0 {
                Seq::empty()
            } else {
                seq![false] + low_bits((self.match_pos - 1) as u8, 8)
            },
            _ => Seq::empty(),
        }
    }

    /// The bit accumulator agrees with the bits written: the whole bytes
    /// have been handed out and the current byte holds the rest.
    spec fn acc_wf(&self) -> bool {
        let k = self.pushed@;
        let whole = k.len() / 8;
        &&& 1 <= self.bit_index <= 8
        &&& self.bit_index == 8 - k.len() % 8
        &&& self.current_byte == byte_at(k, whole as int)
        &&& self.emitted@ == pack(k).take(
            if self.state == HSEstate::Done {
                packed_len(k.len()) as int
            } else {
                whole as int
            },
        )
    }

    /// The buffer holds the staged bytes and, before them, the window.
    spec fn buffer_wf(&self) -> bool {
        &&& self.input_size <= HEATSHRINK_WINDOW_SIZE
        &&& self.match_scan_index <= self.input_size
        &&& self.base() >= 0
        &&& self.flags <= 1
        &&& self.finder.wf()
        &&& forall|k: int|
            0 <= k < 256 + self.input_size ==> #[trigger] self.input_buffer@[k] == with_history(
                self.sunk@,
            )[self.base() + k]
    }

    /// The goal of the scan that gave the tokens written so far.
    spec fn reach(&self) -> int {
        if self.position() < self.limit() {
            self.position()
        } else {
            self.limit()
        }
    }

    /// The tokens written are those that the format calls for, and the
    /// fields of the machine describe the token being written.
    spec fn tokens_wf(&self) -> bool {
        let s = self.sunk@;
        let p = self.position();
        &&& 0 <= p <= s.len()
        &&& self.tokens@ == tokens_range(s, 0, self.reach())
        &&& scan_end(s, 0, self.reach()) == p
        &&& self.pushed@ == tokens_bits(self.tokens@) + self.partial()
        &&& (self.in_flight() ==> {
            &&& p < self.limit()
            &&& if self.match_length == 0 {
                &&& self.state == HSEstate::YieldTagBit || self.state == HSEstate::YieldLiteral
                &&& self.match_scan_index >= 1
                &&& next_token(s, p) == (Token::Literal { byte: s[p] })
            } else {
                &&& self.state != HSEstate::YieldLiteral
                &&& 1 <= self.match_pos <= 256
                &&& 2 <= self.match_length <= 16
                &&& self.match_scan_index + self.match_length <= self.input_size
                &&& next_token(s, p) == (Token::Backref {
                    distance: self.match_pos as nat,
                    length: self.match_length as nat,
                })
            }
        })
        &&& (self.backref_complete() ==> {
            &&& 2 <= self.match_length <= 16
            &&& self.match_scan_index + self.match_length <= self.input_size
            &&& self.tokens@.len() > 0
            &&& self.tokens@.last() is Backref
        })
    }

    /// Whether the encoder has left a backreference behind and written
    /// nothing since.
    spec fn after_backref(&self) -> bool {
        &&& self.tokens@.len() > 0
        &&& self.tokens@.last() is Backref
        &&& self.partial().len() == 0
        &&& !self.backref_complete()
    }

    /// How a step moves through the places at which room is asked for:
    /// either it writes nothing, and leaves a backreference behind only if
    /// there is room; or there is room and it writes one piece, from one
    /// such place to the next.
    spec fn hop(&self, next: &Self, room: bool) -> bool {
        ||| next.pushed@ == self.pushed@ && (next.after_backref() ==> self.after_backref() || room)
        ||| {
            &&& room
            &&& !next.after_backref()
            &&& self.needs_room(self.pushed@.len() as int)
            &&& forall|c: int|
                self.pushed@.len() < c < next.pushed@.len() ==> !self.needs_room(c)
        }
    }

    /// Whether there was room at every place at which the encoder asked for
    /// it since it had written `start` bits, with room for `room` bytes.
    spec fn passed(&self, origin: &Self, room: nat) -> bool {
        let start = origin.pushed@.len();
        &&& forall|c: int|
            origin.needs_room(c) && start <= c < self.pushed@.len() ==> c / 8 - start / 8 < room
        &&& self.after_backref() ==> self.pushed@.len() / 8 - start / 8 < room
    }

    /// The token being written is the next of the tokens up to the limit.
    proof fn lemma_in_flight_token(&self)
        requires
            self.inv(),
            self.position() < self.limit(),
            !self.backref_complete(),
        ensures
            self.tokens@.len() < self.goal_tokens().len(),
            self.goal_tokens().take(self.tokens@.len() as int) == self.tokens@,
            self.goal_tokens()[self.tokens@.len() as int] == next_token(
                self.sunk@,
                self.position(),
            ),
            offset(self.goal_tokens(), self.tokens@.len() as int) == tokens_bits(
                self.tokens@,
            ).len(),
            tokens_bits(self.tokens@).len() + next_token(self.sunk@, self.position()).bit_len()
                <= tokens_bits(self.goal_tokens()).len(),
    {
        reveal(HeatshrinkEncoder::inv);
        reveal(HeatshrinkEncoder::goal_tokens);
        let s = self.sunk@;
        let p = self.position();
        let l = self.limit();
        let goal = self.goal_tokens();
        lemma_scan_split(s, 0, self.reach(), l);
        lemma_next_token(s, p);
        let token = next_token(s, p);
        let after = if next_position(s, p) >= l {
            Seq::<Token>::empty()
        } else {
            tokens_range(s, next_position(s, p), l)
        };
        assert(tokens_range(s, p, l) =~= seq![token] + after);
        assert(goal =~= self.tokens@ + (seq![token] + after));
        assert(goal.take(self.tokens@.len() as int) =~= self.tokens@);
        let j = self.tokens@.len() as int;
        lemma_offset_next(goal, j);
        lemma_offset_grows(goal, j + 1, goal.len() as int);
        assert(goal.take(goal.len() as int) =~= goal);
    }

    /// A piece of the token being written goes from one place at which room
    /// is asked for to the next.
    proof fn lemma_piece(&self, next: &Self)
        requires
            self.inv(),
            self.in_flight(),
            next.sunk@ == self.sunk@,
            next.flags == self.flags,
            ({
                let here = self.partial().len();
                let step = next.pushed@.len() - self.pushed@.len();
                ||| here == 0 && step == 1
                ||| here == 1 && step == 8
                ||| here == 9 && step == 4 && self.match_length != 0
            }),
        ensures
            self.needs_room(self.pushed@.len() as int),
            forall|c: int| self.pushed@.len() < c < next.pushed@.len() ==> !self.needs_room(c),
    {
        reveal(HeatshrinkEncoder::inv);
        reveal(HeatshrinkEncoder::goal_tokens);
        reveal(HeatshrinkEncoder::needs_room);
        self.lemma_in_flight_token();
        let goal = self.goal_tokens();
        let j = self.tokens@.len() as int;
        lemma_no_ask_between(goal, j, self.pushed@.len() as int, next.pushed@.len() as int);
    }

    /// In a state that writes, the encoder is at a place at which it asks
    /// for room.
    proof fn lemma_asks_here(&self)
        requires
            self.inv(),
            self.state == HSEstate::YieldTagBit || self.state == HSEstate::YieldLiteral
                || self.state == HSEstate::YieldBrIndex || self.state == HSEstate::YieldBrLength,
        ensures
            self.needs_room(self.pushed@.len() as int),
    {
        reveal(HeatshrinkEncoder::inv);
        reveal(HeatshrinkEncoder::goal_tokens);
        reveal(HeatshrinkEncoder::needs_room);
        let goal = self.goal_tokens();
        if self.in_flight() {
            self.lemma_in_flight_token();
            assert(asks_at(goal, self.tokens@.len() as int, self.pushed@.len() as int));
        } else {
            let s = self.sunk@;
            lemma_scan_split(s, 0, self.reach(), self.limit());
            let rest = tokens_range(s, self.position(), self.limit());
            assert(goal.take(self.tokens@.len() as int) =~= self.tokens@);
            let j = self.tokens@.len() - 1;
            assert(goal[j] == self.tokens@[j]);
            lemma_asks_after_backref(goal, j);
        }
    }

    /// Where the tokens written are all the tokens up to the limit, room is
    /// asked for at the end only after a backreference or for the last
    /// byte.
    proof fn lemma_asks_at_goal(&self)
        requires
            self.inv(),
            !self.in_flight(),
            !self.backref_complete(),
            self.position() >= self.limit(),
            self.needs_room(self.pushed@.len() as int),
        ensures
            self.after_backref() || (self.finishing() && self.pushed@.len() % 8 != 0),
    {
        reveal(HeatshrinkEncoder::inv);
        reveal(HeatshrinkEncoder::goal_tokens);
        reveal(HeatshrinkEncoder::needs_room);
        self.lemma_within_goal();
        let goal = self.goal_tokens();
        let s = self.sunk@;
        lemma_scan_split(s, 0, self.reach(), self.limit());
        assert(tokens_range(s, self.position(), self.limit()) =~= Seq::<Token>::empty());
        assert(goal =~= self.tokens@);
        if asks(goal, self.pushed@.len() as int) {
            lemma_asks_at_end(goal, self.pushed@.len() as int);
        }
    }

    /// What each state asks of the fields.
    spec fn state_wf(&self) -> bool {
        match self.state {
            HSEstate::NotFull => !self.finishing() && self.match_scan_index == 0 && self.input_size
                < HEATSHRINK_WINDOW_SIZE,
            HSEstate::Filled => self.match_scan_index == 0 && (self.finishing() || self.input_size
                == HEATSHRINK_WINDOW_SIZE),
            HSEstate::Search | HSEstate::YieldTagBit | HSEstate::YieldLiteral => self.finder.covers(
                self.input_buffer@,
                256 + self.input_size,
            ),
            HSEstate::YieldBrIndex => {
                &&& self.finder.covers(self.input_buffer@, 256 + self.input_size)
                &&& self.outgoing_bits_count == 0 || self.outgoing_bits_count == 8
                &&& self.outgoing_bits == self.match_pos - 1
            },
            HSEstate::YieldBrLength => {
                &&& self.finder.covers(self.input_buffer@, 256 + self.input_size)
                &&& self.outgoing_bits_count == 0 || self.outgoing_bits_count == 4
                &&& self.outgoing_bits == self.match_length - 1
            },
            HSEstate::SaveBacklog => !self.finishing() && self.position() >= self.limit(),
            HSEstate::FlushBits | HSEstate::Done => self.finishing() && self.match_scan_index
                == self.input_size,
        }
    }

    /// The invariant of the machine, in whatever state it is.
    #[verifier::opaque]
    spec fn inv(&self) -> bool {
        &&& self.acc_wf()
        &&& self.buffer_wf()
        &&& self.tokens_wf()
        &&& self.state_wf()
    }

    /// The invariant that every operation keeps.
    pub closed spec fn wf(&self) -> bool {
        &&& self.inv()
        &&& self.state != HSEstate::SaveBacklog
    }

    /// `self` in another state.
    spec fn with_state(&self, state: HSEstate) -> Self {
        HeatshrinkEncoder { state, ..*self }
    }

    /// A number that every move of the machine lowers.
    spec fn measure(&self) -> int {
        16 * (self.sunk@.len() - self.position()) + match self.state {
            HSEstate::Filled => 12int,
            HSEstate::Search => 10,
            HSEstate::YieldTagBit => 9,
            HSEstate::YieldLiteral => 8,
            HSEstate::YieldBrIndex => if self.outgoing_bits_count == 0 {
                7
            } else {
                8
            },
            HSEstate::YieldBrLength => if self.outgoing_bits_count == 0 {
                11
            } else {
                6
            },
            HSEstate::SaveBacklog => 5,
            HSEstate::FlushBits => 4,
            HSEstate::NotFull | HSEstate::Done => 0,
        }
    }

    /// What one step of the machine may do: with room in the output it
    /// moves on, and without room it leaves everything as it is.
    spec fn step(&self, next: &Self, room: bool) -> bool {
        &&& next.inv()
        &&& next.sunk@ == self.sunk@
        &&& next.flags == self.flags
        &&& is_prefix(self.emitted@, next.emitted@)
        &&& is_bit_prefix(self.pushed@, next.pushed@)
        &&& (room ==> next.measure() < self.measure())
        &&& (!room ==> *next == *self)
        &&& (next.state != HSEstate::NotFull ==> next.input_size == self.input_size)
        &&& self.hop(next, room)
    }

    /// The bits that the tokens up to the limit are written as.
    spec fn goal_bits(&self) -> Seq<bool> {
        tokens_bits(tokens_range(self.sunk@, 0, self.limit()))
    }

    /// What has been written is the beginning of what the tokens up to the
    /// limit are written as, and all of it once the scan has reached the
    /// limit and no token is half written.
    proof fn lemma_within_goal(&self)
        requires
            self.inv(),
        ensures
            is_bit_prefix(self.pushed@, self.goal_bits()),
            self.in_flight() ==> self.pushed@.len() < self.goal_bits().len(),
            !self.in_flight() && self.position() >= self.limit() ==> self.pushed@
                == self.goal_bits(),
    {
        reveal(HeatshrinkEncoder::inv);
        reveal(HeatshrinkEncoder::goal_tokens);
        let s = self.sunk@;
        let p = self.position();
        let q = self.reach();
        let l = self.limit();
        lemma_scan_split(s, 0, q, l);
        let rest = tokens_range(s, p, l);
        lemma_tokens_bits_concat(self.tokens@, rest);
        let goal = self.goal_bits();
        assert(goal == tokens_bits(self.tokens@) + tokens_bits(rest));
        if self.in_flight() {
            let token = next_token(s, p);
            lemma_next_token(s, p);
            let after = if next_position(s, p) >= l {
                Seq::<Token>::empty()
            } else {
                tokens_range(s, next_position(s, p), l)
            };
            assert(rest =~= seq![token] + after);
            lemma_tokens_bits_concat(seq![token], after);
            lemma_tokens_bits_one(token);
            assert(token.bits().take(self.partial().len() as int) =~= self.partial());
            assert(goal.take(self.pushed@.len() as int) =~= self.pushed@);
        } else {
            assert(self.partial() =~= Seq::<bool>::empty());
            assert(self.pushed@ =~= tokens_bits(self.tokens@));
            assert(goal.take(self.pushed@.len() as int) =~= self.pushed@);
            if p >= l {
                assert(rest =~= Seq::<Token>::empty());
                assert(goal =~= self.pushed@);
            }
        }
    }

    /// An encoder that has seen no input.
    pub closed spec fn fresh() -> Self {
        HeatshrinkEncoder {
            input_size: 0,
            match_scan_index: 0,
            match_length: 0,
            match_pos: 0,
            outgoing_bits: 0,
            outgoing_bits_count: 0,
            flags: 0,
            current_byte: 0,
            bit_index: 8,
            state: HSEstate::NotFull,
            finder: M::fresh(),
            input_buffer: [0;HEATSHRINK_ENCODER_BUFFER_SIZE],
            sunk: Ghost(Seq::empty()),
            tokens: Ghost(Seq::empty()),
            pushed: Ghost(Seq::empty()),
            emitted: Ghost(Seq::empty()),
        }
    }

    /// A fresh encoder is well formed, if its finder is.
    proof fn lemma_fresh_wf(e: Self)
        requires
            e == Self::fresh(),
            e.finder.wf(),
        ensures
            e.wf(),
    {
        reveal(HeatshrinkEncoder::inv);
        assert(with_history(e.sunk@) =~= Seq::new(256, |i: int| 0u8));
        lemma_clear_chunk(e.pushed@, 0);
        assert(e.emitted@ =~= pack(e.pushed@).take(0));
        assert(e.pushed@ =~= tokens_bits(e.tokens@) + e.partial());
    }

    /// Create a new encoder instance.
    pub fn new() -> (r: Self)
        ensures
            r == Self::fresh(),
            r.wf(),
            r.sunk() == Seq::<u8>::empty(),
            r.emitted() == Seq::<u8>::empty(),
            r.pushed() == Seq::<bool>::empty(),
            r.staged() == 0,
            r.accepting(),
            !r.filled(),
            !r.finishing(),
            !r.done(),
    {
        proof {
            reveal(HeatshrinkEncoder::inv);
        }
        let r = HeatshrinkEncoder {
            input_size: 0,
            match_scan_index: 0,
            match_length: 0,
            match_pos: 0,
            outgoing_bits: 0,
            outgoing_bits_count: 0,
            flags: 0,
            current_byte: 0,
            bit_index: 8,
            state: HSEstate::NotFull,
            finder: M::new(),
            input_buffer: [0;HEATSHRINK_ENCODER_BUFFER_SIZE],
            sunk: Ghost(Seq::empty()),
            tokens: Ghost(Seq::empty()),
            pushed: Ghost(Seq::empty()),
            emitted: Ghost(Seq::empty()),
        };
        proof {
            Self::lemma_fresh_wf(r);
        }
        r
    }

    /// Reset the encoder to the state of a new instance.
    pub fn reset(&mut self)
        ensures
            *final(self) == Self::fresh(),
            final(self).wf(),
            final(self).sunk() == Seq::<u8>::empty(),
            final(self).emitted() == Seq::<u8>::empty(),
            final(self).pushed() == Seq::<bool>::empty(),
            final(self).staged() == 0,
            final(self).accepting(),
            !final(self).filled(),
            !final(self).finishing(),
            !final(self).done(),
    {
        proof {
            reveal(HeatshrinkEncoder::inv);
        }
        let mut i: usize = 0;
        while i < HEATSHRINK_ENCODER_BUFFER_SIZE
            invariant
                i <= HEATSHRINK_ENCODER_BUFFER_SIZE,
                forall|j: int| 0 <= j < i ==> self.input_buffer@[j] == 0,
            decreases HEATSHRINK_ENCODER_BUFFER_SIZE - i,
        {
            self.input_buffer[i] = 0;
            i += 1;
        }
        self.finder.reset();
        self.input_size = 0;
        self.match_scan_index = 0;
        self.match_length = 0;
        self.match_pos = 0;
        self.outgoing_bits = 0;
        self.outgoing_bits_count = 0;
        self.flags = 0;
        self.current_byte = 0;
        self.bit_index = 8;
        self.state = HSEstate::NotFull;
        self.sunk = Ghost(Seq::empty());
        self.tokens = Ghost(Seq::empty());
        self.pushed = Ghost(Seq::empty());
        self.emitted = Ghost(Seq::empty());
        proof {
            assert(self.input_buffer =~= Self::fresh().input_buffer);
            Self::lemma_fresh_wf(*self);
        }
    }

    /// Whether `self` and `other` differ in nothing but the bit accumulator
    /// and what has been written.
    spec fn same_but_acc(&self, other: &Self) -> bool {
        &&& self.input_size == other.input_size
        &&& self.match_scan_index == other.match_scan_index
        &&& self.match_length == other.match_length
        &&& self.match_pos == other.match_pos
        &&& self.outgoing_bits == other.outgoing_bits
        &&& self.outgoing_bits_count == other.outgoing_bits_count
        &&& self.flags == other.flags
        &&& self.state == other.state
        &&& self.finder == other.finder
        &&& self.input_buffer == other.input_buffer
        &&& self.sunk == other.sunk
        &&& self.tokens == other.tokens
    }

    /// Push `count` (at most 8) bits to the output, which has room. Bytes
    /// are filled from the highest bit down.
    fn push_bits(&mut self, count: u8, bits: u8, output_info: &mut OutputInfo)
        requires
            old(self).acc_wf(),
            old(self).state != HSEstate::Done,
            0 < count <= 8,
            fits(bits, count as nat),
            old(output_info).count() < old(output_info).data().len(),
        ensures
            final(self).acc_wf(),
            final(self).same_but_acc(old(self)),
            final(self).pushed@ == old(self).pushed@ + low_bits(bits, count as nat),
            is_prefix(old(self).emitted@, final(self).emitted@),
            OutputInfo::grown(
                old(output_info).data(),
                old(output_info).count(),
                final(output_info).data(),
                final(output_info).count(),
                final(self).emitted@.skip(old(self).emitted@.len() as int),
            ),
            final(final(output_info).output_buffer)@ == final(old(output_info).output_buffer)@,
            *final(final(output_info).output_size) == *final(old(output_info).output_size),
    {
        let ghost before = *self;
        let ghost d0 = output_info.data();
        let ghost c0 = output_info.count();
        proof {
            lemma_push(self.pushed@, self.current_byte, self.bit_index, count, bits);
            lemma_prefix_refl(self.emitted@);
            assert(d0 =~= d0.take(c0 as int) + Seq::<u8>::empty() + d0.skip(c0 as int));
            assert(before.emitted@.skip(before.emitted@.len() as int) =~= Seq::<u8>::empty());
            self.pushed@ = self.pushed@ + low_bits(bits, count as nat);
        }
        if count >= self.bit_index {
            let mut shift: u8 = count - self.bit_index;
            let tmp_byte: u8 = self.current_byte | bits >> shift;
            output_info.push_byte(tmp_byte);
            if shift == 0 {
                self.bit_index = 8;
                self.current_byte = 0;
            } else {
                shift = 8 - shift;
                self.bit_index = shift;
                self.current_byte = bits << shift;
            }
            proof {
                let m = (before.pushed@.len() / 8) as int;
                self.emitted@ = before.emitted@.push(tmp_byte);
                assert(self.emitted@ =~= pack(self.pushed@).take(m + 1));
                assert(self.emitted@.take(before.emitted@.len() as int) =~= before.emitted@);
                assert(self.emitted@.skip(before.emitted@.len() as int) =~= seq![tmp_byte]);
                assert(output_info.data() =~= d0.take(c0 as int) + seq![tmp_byte] + d0.skip(
                    c0 as int + 1,
                ));
            }
        } else {
            self.bit_index -= count;
            self.current_byte |= bits << self.bit_index;
        }
    }

    /// Push the tag bit of a token.
    fn add_tag_bit(&mut self, output_info: &mut OutputInfo, tag: u8)
        requires
            old(self).acc_wf(),
            old(self).state != HSEstate::Done,
            tag <= 1,
            old(output_info).count() < old(output_info).data().len(),
        ensures
            final(self).acc_wf(),
            final(self).same_but_acc(old(self)),
            final(self).pushed@ == old(self).pushed@.push(tag == 1),
            is_prefix(old(self).emitted@, final(self).emitted@),
            OutputInfo::grown(
                old(output_info).data(),
                old(output_info).count(),
                final(output_info).data(),
                final(output_info).count(),
                final(self).emitted@.skip(old(self).emitted@.len() as int),
            ),
            final(final(output_info).output_buffer)@ == final(old(output_info).output_buffer)@,
            *final(final(output_info).output_size) == *final(old(output_info).output_size),
    {
        proof {
            lemma_tag(tag);
            assert(low_bits(tag, 1) =~= seq![tag == 1]);
        }
        self.push_bits(1, tag, output_info);
        proof {
            assert(old(self).pushed@ + seq![tag == 1] =~= old(self).pushed@.push(tag == 1));
        }
    }

    /// Push what is left of the field that is being written, eight bits at
    /// most, and say how many bits that was.
    fn push_outgoing_bits(&mut self, output_info: &mut OutputInfo) -> (count: u8)
        requires
            old(self).acc_wf(),
            old(self).state != HSEstate::Done,
            old(self).outgoing_bits_count <= 8,
            old(self).outgoing_bits < 256,
            old(self).outgoing_bits_count > 0 ==> fits(
                old(self).outgoing_bits as u8,
                old(self).outgoing_bits_count as nat,
            ),
            old(output_info).count() < old(output_info).data().len(),
        ensures
            final(self).acc_wf(),
            count == old(self).outgoing_bits_count,
            final(self).outgoing_bits_count == 0,
            final(self).same_but_acc(
                &(HeatshrinkEncoder { outgoing_bits_count: 0, ..*old(self) }),
            ),
            final(self).pushed@ == old(self).pushed@ + low_bits(
                old(self).outgoing_bits as u8,
                count as nat,
            ),
            is_prefix(old(self).emitted@, final(self).emitted@),
            OutputInfo::grown(
                old(output_info).data(),
                old(output_info).count(),
                final(output_info).data(),
                final(output_info).count(),
                final(self).emitted@.skip(old(self).emitted@.len() as int),
            ),
            final(final(output_info).output_buffer)@ == final(old(output_info).output_buffer)@,
            *final(final(output_info).output_size) == *final(old(output_info).output_size),
    {
        let count: u8;
        let bits: u8;

        if self.outgoing_bits_count > 8 {
            count = 8;
            bits = (self.outgoing_bits >> (self.outgoing_bits_count - 8)) as u8;
        } else {
            count = self.outgoing_bits_count;
            bits = self.outgoing_bits as u8;
        }

        if count > 0 {
            self.push_bits(count, bits, output_info);
            self.outgoing_bits_count -= count;
        } else {
            proof {
                let d0 = output_info.data();
                let c0 = output_info.count();
                lemma_prefix_refl(self.emitted@);
                assert(d0 =~= d0.take(c0 as int) + Seq::<u8>::empty() + d0.skip(c0 as int));
                assert(self.emitted@.skip(self.emitted@.len() as int) =~= Seq::<u8>::empty());
                assert(self.pushed@ + low_bits(bits, 0) =~= self.pushed@);
            }
        }

        count
    }

    /// Prepare the finder for the searches of this round: for every
    /// position of the window and of the staged bytes.
    fn do_indexing(&mut self)
        requires
            old(self).buffer_wf(),
        ensures
            *final(self) == (HeatshrinkEncoder { finder: final(self).finder, ..*old(self) }),
            final(self).finder.wf(),
            final(self).finder.covers(final(self).input_buffer@, 256 + final(self).input_size),
    {
        proof {
            reveal(HeatshrinkEncoder::inv);
        }
        let end: usize = self.get_input_offset() + self.input_size;
        self.finder.do_indexing(&self.input_buffer, end);
    }

    /// Return the longest match for the bytes at `end` between `start` and
    /// `end - 1`, as a distance back from `end` and a length.
    fn find_longest_match(&self, start: usize, end: usize, maxlen: usize) -> (r: Option<
        (usize, usize),
    >)
        requires
            self.finder.wf(),
            start <= end,
            1 <= end,
            1 <= maxlen,
            end + maxlen <= HEATSHRINK_ENCODER_BUFFER_SIZE,
            maxlen > 1 ==> self.finder.covers(self.input_buffer@, end + 1),
        ensures
            found(r, self.input_buffer@, start as int, end as int, maxlen as nat),
    {
        proof {
            reveal(HeatshrinkEncoder::inv);
        }
        self.finder.find_longest_match(&self.input_buffer, start, end, maxlen)
    }

    /// The tokens written stay the ones that the format calls for when
    /// input is added or the stream is declared finished.
    proof fn lemma_tokens_stay(&self, next: &Self)
        requires
            self.inv(),
            next.sunk@.len() >= self.sunk@.len(),
            next.sunk@.take(self.sunk@.len() as int) == self.sunk@,
            next.finishing() || !self.finishing(),
            next.finishing() ==> next.sunk@ == self.sunk@,
            next.position() == self.position(),
            next.tokens@ == self.tokens@,
            !next.in_flight() || next.sunk@ == self.sunk@,
        ensures
            next.tokens@ == tokens_range(next.sunk@, 0, next.reach()),
            scan_end(next.sunk@, 0, next.reach()) == next.position(),
    {
        reveal(HeatshrinkEncoder::inv);
        let s = self.sunk@;
        let more = next.sunk@.skip(s.len() as int);
        assert(next.sunk@ =~= s + more);
        let q = self.reach();
        if !self.finishing() {
            lemma_scan_extend(s, more, 0, q);
        } else {
            assert(more =~= Seq::<u8>::empty());
            assert(s + more =~= s);
        }
        lemma_scan_same(next.sunk@, 0, q, next.reach());
    }

    /// Add input to be compressed. Takes as many bytes as the input buffer
    /// has room for and says how many that was. A full buffer that waits to
    /// be polled takes nothing and answers `SinkFull`; an encoder that is
    /// finishing, or in the middle of a round, answers `SinkErrorMisuse`.
    pub fn sink(&mut self, input_buffer: &[u8]) -> (r: (HSsinkRes, usize))
        requires
            old(self).wf(),
        ensures
            final(self).wf(),
            final(self).emitted() == old(self).emitted(),
            final(self).pushed() == old(self).pushed(),
            final(self).finishing() == old(self).finishing(),
            final(self).done() == old(self).done(),
            !old(self).accepting() ==> *final(self) == *old(self) && r == (
                if !old(self).finishing() && old(self).filled() {
                    HSsinkRes::SinkFull
                } else {
                    HSsinkRes::SinkErrorMisuse
                },
                0usize,
            ),
            old(self).accepting() ==> {
                &&& r.0 == HSsinkRes::SinkOK
                &&& r.1 == if HEATSHRINK_WINDOW_SIZE - old(self).staged() < input_buffer@.len() {
                    HEATSHRINK_WINDOW_SIZE - old(self).staged()
                } else {
                    input_buffer@.len() as int
                }
                &&& final(self).sunk() == old(self).sunk() + input_buffer@.take(r.1 as int)
                &&& final(self).staged() == old(self).staged() + r.1
                &&& final(self).accepting() == (final(self).staged() < HEATSHRINK_WINDOW_SIZE)
                &&& final(self).filled() == !final(self).accepting()
                &&& (!final(self).accepting() ==> final(self).pushed().len() + 9
                    <= final(self).goal().len())
            },
    {
        proof {
            reveal(HeatshrinkEncoder::inv);
            reveal(HeatshrinkEncoder::goal_tokens);
        }
        // Sinking more content after saying the content is done.
        if self.is_finishing() {
            return (HSsinkRes::SinkErrorMisuse, 0);
        }
        let remaining_size: usize = self.get_input_buffer_size() - self.input_size;

        // The buffer is full and waits to be polled.
        if self.state == HSEstate::Filled && remaining_size == 0 {
            return (HSsinkRes::SinkFull, 0);
        }
        // Sinking more content before processing is done.
        if self.state != HSEstate::NotFull {
            return (HSsinkRes::SinkErrorMisuse, 0);
        }
        let copy_size: usize = if remaining_size < input_buffer.len() {
            remaining_size
        } else {
            input_buffer.len()
        };

        let write_offset: usize = self.get_input_offset() + self.input_size;

        let ghost before = *self;
        let mut i: usize = 0;
        while i < copy_size
            invariant
                i <= copy_size,
                copy_size <= input_buffer@.len(),
                write_offset == 256 + before.input_size,
                before.input_size + copy_size <= HEATSHRINK_WINDOW_SIZE,
                *self == (HeatshrinkEncoder { input_buffer: self.input_buffer, ..before }),
                forall|j: int|
                    0 <= j < write_offset ==> self.input_buffer@[j] == before.input_buffer@[j],
                forall|j: int|
                    0 <= j < i ==> self.input_buffer@[write_offset + j] == input_buffer@[j],
            decreases copy_size - i,
        {
            self.input_buffer[write_offset + i] = input_buffer[i];
            i += 1;
        }
        self.input_size += copy_size;
        proof {
            self.sunk@ = self.sunk@ + input_buffer@.take(copy_size as int);
        }

        if self.input_size == self.get_input_buffer_size() {
            self.state = HSEstate::Filled;
        }
        proof {
            assert(self.sunk@.take(before.sunk@.len() as int) =~= before.sunk@);
            assert(self.base() == before.base());
            before.lemma_tokens_stay(self);
            assert forall|k: int| 0 <= k < 256 + self.input_size implies #[trigger] self.input_buffer@[k]
                == with_history(self.sunk@)[self.base() + k] by {
                if k < write_offset {
                    assert(before.input_buffer@[k] == with_history(before.sunk@)[before.base()
                        + k]);
                } else {
                    assert(self.input_buffer@[write_offset + (k - write_offset)] == input_buffer@[k
                        - write_offset]);
                }
            }
            assert(self.partial() =~= before.partial());
            if self.state != HSEstate::NotFull {
                self.lemma_in_flight_token();
            }
        }

        (HSsinkRes::SinkOK, copy_size)
    }

    /// Declare the stream finished. The rest is written by polling until
    /// `finish` says that the encoder is done.
    pub fn finish(&mut self) -> (r: HSfinishRes)
        requires
            old(self).wf(),
        ensures
            final(self).wf(),
            final(self).finishing(),
            !final(self).accepting(),
            final(self).filled() == (old(self).accepting() || old(self).filled()),
            final(self).done() == old(self).done(),
            final(self).sunk() == old(self).sunk(),
            final(self).emitted() == old(self).emitted(),
            final(self).pushed() == old(self).pushed(),
            final(self).staged() == old(self).staged(),
            old(self).accepting() && old(self).staged() > 0 ==> final(self).pushed().len() + 9
                <= final(self).goal().len(),
            !old(self).accepting() ==> old(self).goal().len() <= final(self).goal().len(),
            r == if old(self).done() {
                HSfinishRes::FinishDone
            } else {
                HSfinishRes::FinishMore
            },
    {
        proof {
            reveal(HeatshrinkEncoder::inv);
            reveal(HeatshrinkEncoder::goal_tokens);
        }
        let ghost before = *self;
        proof {
            lemma_bit_ops(0, 0, 0, 0);
        }
        self.flags |= FLAG_IS_FINISHING;

        if self.state == HSEstate::NotFull {
            self.state = HSEstate::Filled;
        }
        proof {
            assert(self.sunk@.take(before.sunk@.len() as int) =~= before.sunk@);
            before.lemma_tokens_stay(self);
            assert(self.partial() =~= before.partial());
            if before.state == HSEstate::NotFull && before.input_size > 0 {
                self.lemma_in_flight_token();
            }
            if before.state != HSEstate::NotFull {
                let s = self.sunk@;
                lemma_scan_split(s, 0, before.limit(), self.limit());
                lemma_tokens_bits_concat(
                    tokens_range(s, 0, before.limit()),
                    tokens_range(s, scan_end(s, 0, before.limit()), self.limit()),
                );
            }
        }

        if self.state == HSEstate::Done {
            HSfinishRes::FinishDone
        } else {
            HSfinishRes::FinishMore
        }
    }

    /// Move what has not been scanned, and the window before it, down to
    /// the start of the buffer, so that it can serve for later matches.
    fn save_backlog(&mut self)
        requires
            old(self).inv(),
            old(self).state == HSEstate::SaveBacklog,
        ensures
            final(self).with_state(HSEstate::NotFull).inv(),
            *final(self) == (HeatshrinkEncoder {
                input_buffer: final(self).input_buffer,
                match_scan_index: 0,
                input_size: final(self).input_size,
                ..*old(self)
            }),
            final(self).input_size == old(self).input_size - old(self).match_scan_index,
            forall|i: int|
                0 <= i < HEATSHRINK_ENCODER_BUFFER_SIZE - old(self).match_scan_index
                    ==> final(self).input_buffer@[i] == old(self).input_buffer@[i + old(
                    self,
                ).match_scan_index],
            forall|i: int|
                HEATSHRINK_ENCODER_BUFFER_SIZE - old(self).match_scan_index <= i
                    < HEATSHRINK_ENCODER_BUFFER_SIZE
                    ==> final(self).input_buffer@[i] == old(self).input_buffer@[i],
    {
        proof {
            reveal(HeatshrinkEncoder::inv);
        }
        let ghost before = *self;
        let remaining_size: usize = self.get_input_buffer_size() - self.match_scan_index;
        let shift_size: usize = self.get_input_buffer_size() + remaining_size;
        let from: usize = self.match_scan_index;
        let mut k: usize = 0;
        while k < shift_size
            invariant
                k <= shift_size,
                shift_size + from == HEATSHRINK_ENCODER_BUFFER_SIZE,
                *self == (HeatshrinkEncoder { input_buffer: self.input_buffer, ..before }),
                forall|j: int| 0 <= j < k ==> self.input_buffer@[j] == before.input_buffer@[j + from],
                forall|j: int|
                    k <= j < HEATSHRINK_ENCODER_BUFFER_SIZE ==> self.input_buffer@[j]
                        == before.input_buffer@[j],
            decreases shift_size - k,
        {
            self.input_buffer[k] = self.input_buffer[k + from];
            k += 1;
        }
        self.match_scan_index = 0;
        self.input_size -= self.get_input_buffer_size() - remaining_size;
        proof {
            let next = self.with_state(HSEstate::NotFull);
            assert(next.base() == before.base() + from);
            assert(next.position() == before.position());
            assert forall|j: int| 0 <= j < 256 + next.input_size implies #[trigger] next.input_buffer@[j]
                == with_history(next.sunk@)[next.base() + j] by {
                assert(before.input_buffer@[j + from] == with_history(before.sunk@)[before.base()
                    + (j + from)]);
            }
            assert(next.partial() =~= before.partial());
        }
    }

    /// The bytes handed out are the whole bytes of the bits written, and
    /// the byte held back as well once the encoder is done.
    pub proof fn lemma_emitted(&self)
        requires
            self.wf(),
        ensures
            self.emitted() == pack(self.pushed()).take(
                if self.done() {
                    packed_len(self.pushed().len()) as int
                } else {
                    (self.pushed().len() / 8) as int
                },
            ),
            self.accepting() ==> !self.finishing(),
            self.done() ==> self.finishing(),
            self.done() ==> self.pushed() == self.goal(),
            is_bit_prefix(self.pushed(), self.goal()),
            self.staged() <= HEATSHRINK_WINDOW_SIZE,
            self.accepting() ==> self.staged() < HEATSHRINK_WINDOW_SIZE,
    {
        reveal(HeatshrinkEncoder::inv);
        reveal(HeatshrinkEncoder::goal_tokens);
        self.lemma_within_goal();
        assert(self.pushed@.take(self.pushed@.len() as int) =~= self.pushed@);
    }

    /// Whatever the encoder has handed out is the beginning of what the
    /// whole stream is compressed to, and all of it once the encoder is
    /// done.
    pub proof fn lemma_progress(&self, whole: Seq<u8>)
        requires
            self.wf(),
            self.sunk().len() <= whole.len(),
            whole.take(self.sunk().len() as int) == self.sunk(),
            self.finishing() ==> self.sunk() == whole,
        ensures
            is_prefix(self.emitted(), encode_spec(whole)),
            self.done() ==> self.emitted() == encode_spec(whole),
    {
        reveal(HeatshrinkEncoder::inv);
        reveal(HeatshrinkEncoder::goal_tokens);
        let s = self.sunk@;
        let l = self.limit();
        let more = whole.skip(s.len() as int);
        assert(whole =~= s + more);
        self.lemma_within_goal();
        if !self.finishing() {
            lemma_scan_extend(s, more, 0, l);
        }
        lemma_scan_split(whole, 0, l, whole.len() as int);
        let rest = tokens_range(whole, scan_end(whole, 0, l), whole.len() as int);
        lemma_tokens_bits_concat(tokens_range(whole, 0, l), rest);
        let all = tokens_bits(crate::lzss::encode_tokens(whole));
        assert(all.take(self.goal_bits().len() as int) =~= self.goal_bits());
        assert(all.take(self.pushed@.len() as int) =~= all.take(
            self.goal_bits().len() as int,
        ).take(self.pushed@.len() as int));
        lemma_pack_prefix(self.pushed@, all);
        if self.state == HSEstate::Done {
            assert(rest =~= Seq::<Token>::empty());
            assert(all =~= self.pushed@);
            lemma_prefix_refl(self.emitted@);
        } else {
            let w = (self.pushed@.len() / 8) as int;
            assert(pack(all).take(w).len() == w);
            assert(encode_spec(whole).take(self.emitted@.len() as int) =~= self.emitted@);
        }
    }

    /// Two encoders that were given the same stream, in whatever pieces,
    /// were polled with whatever room and find their matches in whatever
    /// way, have handed out the same bytes, as far as both have got; and
    /// once both are done, both have handed out what the stream is
    /// compressed to.
    pub proof fn lemma_pieces_do_not_matter<N: MatchFinder>(
        &self,
        other: &HeatshrinkEncoder<N>,
        whole: Seq<u8>,
    )
        requires
            self.wf(),
            other.wf(),
            is_prefix(self.sunk(), whole),
            is_prefix(other.sunk(), whole),
            self.finishing() ==> self.sunk() == whole,
            other.finishing() ==> other.sunk() == whole,
            self.emitted().len() <= other.emitted().len(),
        ensures
            is_prefix(self.emitted(), other.emitted()),
            is_prefix(other.emitted(), encode_spec(whole)),
            self.done() && other.done() ==> self.emitted() == encode_spec(whole)
                && other.emitted() == encode_spec(whole),
    {
        reveal(HeatshrinkEncoder::inv);
        self.lemma_progress(whole);
        other.lemma_progress(whole);
        let all = encode_spec(whole);
        lemma_prefix_of_common(self.emitted(), other.emitted(), all);
    }

    /// Compress what has been sunk into `output_buffer`, as far as there is
    /// input to work on and room to write.
    ///
    /// An encoder that takes input, or is done, has nothing to write. Any
    /// other writes the tokens up to its limit, piece by piece, and hands
    /// out each byte that gets full. It stops with `PollMore` at the first
    /// place where it asks for room and the output is full, and with
    /// `PollEmpty` when all is written; once it is finishing, that includes
    /// the last byte, padded with clear bits. An `output_buffer` without
    /// room is a misuse.
    #[verifier::rlimit(100)]
    pub fn poll(&mut self, output_buffer: &mut [u8]) -> (r: (HSpollRes, usize))
        requires
            old(self).wf(),
        ensures
            final(self).wf(),
            final(self).sunk() == old(self).sunk(),
            final(self).finishing() == old(self).finishing(),
            final(output_buffer)@.len() == old(output_buffer)@.len(),
            old(output_buffer)@.len() == 0 ==> r == (HSpollRes::PollErrorMisuse, 0usize)
                && *final(self) == *old(self),
            old(output_buffer)@.len() > 0 ==> {
                &&& r.0 != HSpollRes::PollErrorMisuse
                &&& is_bit_prefix(old(self).pushed(), final(self).pushed())
                &&& is_bit_prefix(final(self).pushed(), old(self).goal())
                &&& is_prefix(old(self).emitted(), final(self).emitted())
                &&& r.1 == final(self).emitted().len() - old(self).emitted().len()
                &&& final(output_buffer)@ == final(self).emitted().skip(
                    old(self).emitted().len() as int,
                ) + old(output_buffer)@.skip(r.1 as int)
                &&& old(self).writes_until(
                    final(self).pushed().len() as int,
                    old(output_buffer)@.len(),
                )
                &&& r.0 == if old(self).out_of_room(
                    final(self).pushed().len() as int,
                    old(output_buffer)@.len(),
                ) {
                    HSpollRes::PollMore
                } else {
                    HSpollRes::PollEmpty
                }
                &&& (r.0 == HSpollRes::PollEmpty <==> (final(self).accepting()
                    || final(self).done()))
                &&& !final(self).filled()
                &&& (r.0 == HSpollRes::PollMore ==> r.1 == old(output_buffer)@.len())
                &&& (r.0 == HSpollRes::PollEmpty ==> final(self).pushed() == old(self).goal())
                &&& (old(self).accepting() ==> *final(self) == *old(self))
                &&& final(self).staged() == if final(self).accepting() && !old(self).accepting() {
                    old(self).sunk().len() - scan_end(old(self).sunk(), 0, old(self).limit())
                } else {
                    old(self).staged() as int
                }
            },
    {
        proof {
            reveal(HeatshrinkEncoder::inv);
            reveal(HeatshrinkEncoder::goal_tokens);
        }
        if output_buffer.is_empty() {
            (HSpollRes::PollErrorMisuse, 0)
        } else {
            let mut output_size: usize = 0;
            let ghost before = *self;
            let ghost d0 = output_buffer@;
            proof {
                self.lemma_no_output(d0, 0);
            }
            let mut output_info = OutputInfo::new(output_buffer, &mut output_size);

            loop
                invariant
                    self.inv(),
                    before == *old(self),
                    before.wf(),
                    d0 == old(output_buffer)@,
                    d0.len() > 0,
                    self.sunk@ == before.sunk@,
                    self.flags == before.flags,
                    is_prefix(before.emitted@, self.emitted@),
                    is_bit_prefix(before.pushed@, self.pushed@),
                    self.state == HSEstate::NotFull ==> (before.state == HSEstate::NotFull
                        && *self == before) || (before.state != HSEstate::NotFull && self.pushed@
                        == before.goal_bits() && self.input_size == before.sunk@.len() - scan_end(
                        before.sunk@,
                        0,
                        before.limit(),
                    )),
                    self.state != HSEstate::NotFull ==> self.input_size == before.input_size
                        && before.state != HSEstate::NotFull,
                    self.state == HSEstate::NotFull && before.state != HSEstate::NotFull
                        ==> self.position() >= self.limit(),
                    self.state == HSEstate::Done ==> self.pushed@ == before.pushed@,
                    self.passed(&before, d0.len()),
                    self.state != HSEstate::Done ==> output_info.count() == self.pushed@.len() / 8
                        - before.pushed@.len() / 8,
                    OutputInfo::grown(
                        d0,
                        0,
                        output_info.data(),
                        output_info.count(),
                        self.emitted@.skip(before.emitted@.len() as int),
                    ),
                    final(output_info.output_buffer)@ == after_borrow(output_buffer)@,
                    *final(output_info.output_size) == after_borrow(output_size),
                decreases self.measure(),
            {
                let in_state = self.state;
                let ghost prior = *self;
                let ghost d1 = output_info.data();
                let ghost c1 = output_info.count();
                proof {
                    reveal(HeatshrinkEncoder::inv);
                    reveal(HeatshrinkEncoder::goal_tokens);
                    reveal(HeatshrinkEncoder::needs_room);
                    reveal(HeatshrinkEncoder::out_of_room);
                    reveal(HeatshrinkEncoder::writes_until);
                    self.lemma_within_goal();
                    self.lemma_no_output(d1, c1);
                }

                match in_state {
                    HSEstate::NotFull => {
                        proof {
                            if before.state != HSEstate::NotFull && self.needs_room(
                                self.pushed@.len() as int,
                            ) {
                                self.lemma_asks_at_goal();
                            }
                        }
                        return (HSpollRes::PollEmpty, output_size);
                    },
                    HSEstate::Filled => {
                        self.do_indexing();
                        self.state = HSEstate::Search;
                        proof {
                            assert(self.partial() =~= prior.partial());
                            assert(prior.hop(self, false));
                        }
                    },
                    HSEstate::Search => {
                        self.state = self.st_step_search();
                    },
                    HSEstate::YieldTagBit => {
                        self.state = self.st_yield_tag_bit(&mut output_info);
                    },
                    HSEstate::YieldLiteral => {
                        self.state = self.st_yield_literal(&mut output_info);
                    },
                    HSEstate::YieldBrIndex => {
                        self.state = self.st_yield_br_index(&mut output_info);
                    },
                    HSEstate::YieldBrLength => {
                        self.state = self.st_yield_br_length(&mut output_info);
                    },
                    HSEstate::SaveBacklog => {
                        self.state = self.st_save_backlog();
                    },
                    HSEstate::FlushBits => {
                        self.state = self.st_flush_bit_buffer(&mut output_info);
                        proof {
                            self.lemma_joined(&before, &prior, d0, d1, c1, output_info.data(),
                                output_info.count());
                            prior.lemma_passed_step(self, &before, d0.len(), false);
                        }
                        // With the last byte handed out the encoder is
                        // done; without room for it, it is not.
                        if self.state == HSEstate::Done {
                            return (HSpollRes::PollEmpty, output_size);
                        } else {
                            return (HSpollRes::PollMore, output_size);
                        }
                    },
                    HSEstate::Done => {
                        return (HSpollRes::PollEmpty, output_size);
                    },
                }
                proof {
                    self.lemma_joined(&before, &prior, d0, d1, c1, output_info.data(),
                        output_info.count());
                    self.lemma_within_goal();
                    prior.lemma_passed_step(self, &before, d0.len(), c1 < d0.len());
                }

                // A state that cannot advance with the output full waits
                // for room.
                if self.state == in_state && !output_info.can_take_byte() {
                    proof {
                        self.lemma_asks_here();
                    }
                    return (HSpollRes::PollMore, output_size);
                }
            }
        }
    }

    /// A step that had room wherever it asked for it keeps the record of
    /// the places passed.
    proof fn lemma_passed_step(&self, next: &Self, origin: &Self, room: nat, had_room: bool)
        requires
            self.passed(origin, room),
            self.hop(next, had_room) || (next.pushed@ == self.pushed@ && next.tokens@
                == self.tokens@ && next.partial() == self.partial() && (next.backref_complete()
                || !self.backref_complete())),
            next.sunk@ == self.sunk@,
            next.flags == self.flags,
            origin.sunk@ == self.sunk@,
            origin.flags == self.flags,
            origin.pushed@.len() <= self.pushed@.len() <= next.pushed@.len(),
            had_room ==> self.pushed@.len() / 8 - origin.pushed@.len() / 8 < room,
        ensures
            next.passed(origin, room),
    {
        reveal(HeatshrinkEncoder::goal_tokens);
        reveal(HeatshrinkEncoder::needs_room);
        let start = origin.pushed@.len();
        assert forall|c: int| origin.needs_room(c) && start <= c < next.pushed@.len() implies c
            / 8 - start / 8 < room by {
            assert(self.needs_room(c));
        }
    }

    /// What a step hands out joins what the steps before it handed out.
    proof fn lemma_joined(
        &self,
        before: &Self,
        prior: &Self,
        d0: Seq<u8>,
        d1: Seq<u8>,
        c1: nat,
        d2: Seq<u8>,
        c2: nat,
    )
        requires
            is_prefix(before.emitted@, prior.emitted@),
            is_prefix(prior.emitted@, self.emitted@),
            is_bit_prefix(before.pushed@, prior.pushed@),
            is_bit_prefix(prior.pushed@, self.pushed@),
            OutputInfo::grown(d0, 0, d1, c1, prior.emitted@.skip(before.emitted@.len() as int)),
            OutputInfo::grown(d1, c1, d2, c2, self.emitted@.skip(prior.emitted@.len() as int)),
        ensures
            is_prefix(before.emitted@, self.emitted@),
            is_bit_prefix(before.pushed@, self.pushed@),
            OutputInfo::grown(d0, 0, d2, c2, self.emitted@.skip(before.emitted@.len() as int)),
    {
        lemma_prefix_trans(before.emitted@, prior.emitted@, self.emitted@);
        assert(self.pushed@.take(before.pushed@.len() as int) =~= self.pushed@.take(
            prior.pushed@.len() as int,
        ).take(before.pushed@.len() as int));
        OutputInfo::lemma_grown_twice(
            d0,
            0,
            d1,
            c1,
            d2,
            c2,
            prior.emitted@.skip(before.emitted@.len() as int),
            self.emitted@.skip(prior.emitted@.len() as int),
        );
        assert(prior.emitted@.skip(before.emitted@.len() as int) + self.emitted@.skip(
            prior.emitted@.len() as int,
        ) =~= self.emitted@.skip(before.emitted@.len() as int));
    }

    /// Look for a match at the scan position, or end the round if too
    /// little of the input is left to look at.
    #[verifier::rlimit(30)]
    fn st_step_search(&mut self) -> (r: HSEstate)
        requires
            old(self).inv(),
            old(self).state == HSEstate::Search,
        ensures
            final(self).state == old(self).state,
            r != HSEstate::NotFull,
            r != HSEstate::Done,
            r != HSEstate::Search,
            final(self).emitted@ == old(self).emitted@,
            old(self).step(&final(self).with_state(r), true),
            old(self).hop(&final(self).with_state(r), false),
            ({
                let before = *old(self);
                let need = if before.finishing() {
                    1int
                } else {
                    16int
                };
                let end = 256 + before.match_scan_index;
                let maxlen = if before.input_size - before.match_scan_index < 16 {
                    (before.input_size - before.match_scan_index) as nat
                } else {
                    16nat
                };
                if before.match_scan_index + need > before.input_size {
                    &&& *final(self) == before
                    &&& r == if before.finishing() {
                        HSEstate::FlushBits
                    } else {
                        HSEstate::SaveBacklog
                    }
                } else {
                    &&& r == HSEstate::YieldTagBit
                    &&& match longest_match(before.input_buffer@, end - 256, end, maxlen) {
                        None => *final(self) == (HeatshrinkEncoder {
                            match_length: 0,
                            match_scan_index: (before.match_scan_index + 1) as usize,
                            ..before
                        }),
                        Some((distance, length)) => *final(self) == (HeatshrinkEncoder {
                            match_pos: distance as usize,
                            match_length: length as usize,
                            ..before
                        }),
                    }
                }
            }),
    {
        proof {
            reveal(HeatshrinkEncoder::inv);
        }
        let ghost before = *self;
        proof {
            lemma_prefix_refl(self.emitted@);
            assert(self.pushed@.take(self.pushed@.len() as int) =~= self.pushed@);
        }
        let lookahead: usize = if self.is_finishing() {
            1
        } else {
            self.get_lookahead_size()
        };
        if self.match_scan_index + lookahead > self.input_size {
            if self.is_finishing() {
                proof {
                    let next = self.with_state(HSEstate::FlushBits);
                    assert(next.partial() =~= before.partial());
                }
                HSEstate::FlushBits
            } else {
                proof {
                    let next = self.with_state(HSEstate::SaveBacklog);
                    assert(next.partial() =~= before.partial());
                }
                HSEstate::SaveBacklog
            }
        } else {
            let end: usize = self.get_input_offset() + self.match_scan_index;
            let start: usize = end - self.get_input_buffer_size();
            let mut max_possible: usize = self.get_lookahead_size();
            if (self.input_size - self.match_scan_index) < max_possible {
                max_possible = self.input_size - self.match_scan_index;
            }
            proof {
                if max_possible > 1 {
                    self.finder.lemma_covers_less(
                        self.input_buffer@,
                        256 + self.input_size,
                        end + 1,
                    );
                }
                let s = self.sunk@;
                let p = self.position();
                assert(max_possible == lookahead_at(s, p));
                lemma_best_match_shift(
                    self.input_buffer@,
                    with_history(s),
                    self.base(),
                    start as int,
                    end as int,
                    max_possible as nat,
                );
                lemma_best_match(with_history(s), p, p + 256, max_possible as nat);
                lemma_next_token(s, p);
                assert(self.input_buffer@[end as int] == with_history(s)[self.base() + end]);
            }
            match self.find_longest_match(start, end, max_possible) {
                None => {
                    self.match_scan_index += 1;
                    self.match_length = 0;
                },
                Some(match_pos) => {
                    self.match_pos = match_pos.0;
                    self.match_length = match_pos.1;
                    assert(self.match_pos <= 1usize << HEATSHRINK_WINDOWS_BITS) by {
                        lemma_one_shl_eight();
                    }
                },
            }
            proof {
                let next = self.with_state(HSEstate::YieldTagBit);
                assert(next.position() == before.position());
                assert(next.partial() =~= before.partial());
            }
            HSEstate::YieldTagBit
        }
    }

    /// Write the tag bit: set for a literal, clear for a backreference.
    fn st_yield_tag_bit(&mut self, output_info: &mut OutputInfo) -> (r: HSEstate)
        requires
            old(self).inv(),
            old(self).state == HSEstate::YieldTagBit,
            old(output_info).wf(),
        ensures
            final(self).state == old(self).state,
            r != HSEstate::NotFull,
            r != HSEstate::Done,
            old(self).step(
                &final(self).with_state(r),
                old(output_info).count() < old(output_info).data().len(),
            ),
            OutputInfo::grown(
                old(output_info).data(),
                old(output_info).count(),
                final(output_info).data(),
                final(output_info).count(),
                final(self).emitted@.skip(old(self).emitted@.len() as int),
            ),
            final(final(output_info).output_buffer)@ == final(old(output_info).output_buffer)@,
            *final(final(output_info).output_size) == *final(old(output_info).output_size),
    {
        proof {
            reveal(HeatshrinkEncoder::inv);
        }
        let ghost before = *self;
        proof {
            self.lemma_no_output(output_info.data(), output_info.count());
        }
        if output_info.can_take_byte() {
            if self.match_length == 0 {
                self.add_tag_bit(output_info, 0x1);
                proof {
                    let next = self.with_state(HSEstate::YieldLiteral);
                    assert(next.pushed@ =~= tokens_bits(next.tokens@) + next.partial());
                    assert(next.pushed@.take(before.pushed@.len() as int) =~= before.pushed@);
                    before.lemma_piece(&next);
                }
                HSEstate::YieldLiteral
            } else {
                self.add_tag_bit(output_info, 0);
                self.outgoing_bits = self.match_pos as u16 - 1;
                self.outgoing_bits_count = 8;
                proof {
                    let next = self.with_state(HSEstate::YieldBrIndex);
                    assert(next.pushed@ =~= tokens_bits(next.tokens@) + next.partial());
                    assert(next.pushed@.take(before.pushed@.len() as int) =~= before.pushed@);
                    before.lemma_piece(&next);
                }
                HSEstate::YieldBrIndex
            }
        } else {
            HSEstate::YieldTagBit
        }
    }

    /// Write the literal byte at the scan position.
    fn st_yield_literal(&mut self, output_info: &mut OutputInfo) -> (r: HSEstate)
        requires
            old(self).inv(),
            old(self).state == HSEstate::YieldLiteral,
            old(output_info).wf(),
        ensures
            final(self).state == old(self).state,
            r != HSEstate::NotFull,
            r != HSEstate::Done,
            old(self).step(
                &final(self).with_state(r),
                old(output_info).count() < old(output_info).data().len(),
            ),
            OutputInfo::grown(
                old(output_info).data(),
                old(output_info).count(),
                final(output_info).data(),
                final(output_info).count(),
                final(self).emitted@.skip(old(self).emitted@.len() as int),
            ),
            final(final(output_info).output_buffer)@ == final(old(output_info).output_buffer)@,
            *final(final(output_info).output_size) == *final(old(output_info).output_size),
    {
        proof {
            reveal(HeatshrinkEncoder::inv);
        }
        let ghost before = *self;
        proof {
            self.lemma_no_output(output_info.data(), output_info.count());
        }
        if output_info.can_take_byte() {
            self.push_literal_byte(output_info);
            proof {
                let s = self.sunk@;
                let p = before.position();
                let token = next_token(s, p);
                lemma_next_token(s, p);
                self.tokens@ = before.tokens@.push(token);
                let next = self.with_state(HSEstate::Search);
                lemma_tokens_bits_push(before.tokens@, token);
                assert(next.pushed@ =~= tokens_bits(next.tokens@) + next.partial());
                assert(next.pushed@.take(before.pushed@.len() as int) =~= before.pushed@);
                before.lemma_token_done(&next, token);
                before.lemma_piece(&next);
            }
            HSEstate::Search
        } else {
            HSEstate::YieldLiteral
        }
    }

    /// Write the distance of the backreference.
    fn st_yield_br_index(&mut self, output_info: &mut OutputInfo) -> (r: HSEstate)
        requires
            old(self).inv(),
            old(self).state == HSEstate::YieldBrIndex,
            old(output_info).wf(),
        ensures
            final(self).state == old(self).state,
            r != HSEstate::NotFull,
            r != HSEstate::Done,
            old(self).step(
                &final(self).with_state(r),
                old(output_info).count() < old(output_info).data().len(),
            ),
            OutputInfo::grown(
                old(output_info).data(),
                old(output_info).count(),
                final(output_info).data(),
                final(output_info).count(),
                final(self).emitted@.skip(old(self).emitted@.len() as int),
            ),
            final(final(output_info).output_buffer)@ == final(old(output_info).output_buffer)@,
            *final(final(output_info).output_size) == *final(old(output_info).output_size),
    {
        proof {
            reveal(HeatshrinkEncoder::inv);
        }
        let ghost before = *self;
        proof {
            self.lemma_no_output(output_info.data(), output_info.count());
        }
        if output_info.can_take_byte() {
            if self.push_outgoing_bits(output_info) > 0 {
                proof {
                    let next = self.with_state(HSEstate::YieldBrIndex);
                    assert(next.pushed@ =~= tokens_bits(next.tokens@) + next.partial());
                    assert(next.pushed@.take(before.pushed@.len() as int) =~= before.pushed@);
                    before.lemma_piece(&next);
                }
                HSEstate::YieldBrIndex
            } else {
                self.outgoing_bits = self.match_length as u16 - 1;
                self.outgoing_bits_count = 4;
                proof {
                    let next = self.with_state(HSEstate::YieldBrLength);
                    assert(next.partial() =~= before.partial());
                    assert(next.pushed@.take(before.pushed@.len() as int) =~= before.pushed@);
                }
                HSEstate::YieldBrLength
            }
        } else {
            HSEstate::YieldBrIndex
        }
    }

    /// Write the length of the backreference, and with it the
    /// backreference; then move the scan past what it stands for.
    fn st_yield_br_length(&mut self, output_info: &mut OutputInfo) -> (r: HSEstate)
        requires
            old(self).inv(),
            old(self).state == HSEstate::YieldBrLength,
            old(output_info).wf(),
        ensures
            final(self).state == old(self).state,
            r != HSEstate::NotFull,
            r != HSEstate::Done,
            old(self).step(
                &final(self).with_state(r),
                old(output_info).count() < old(output_info).data().len(),
            ),
            OutputInfo::grown(
                old(output_info).data(),
                old(output_info).count(),
                final(output_info).data(),
                final(output_info).count(),
                final(self).emitted@.skip(old(self).emitted@.len() as int),
            ),
            final(final(output_info).output_buffer)@ == final(old(output_info).output_buffer)@,
            *final(final(output_info).output_size) == *final(old(output_info).output_size),
    {
        proof {
            reveal(HeatshrinkEncoder::inv);
        }
        let ghost before = *self;
        proof {
            self.lemma_no_output(output_info.data(), output_info.count());
            if self.outgoing_bits_count == 4 {
                lemma_length_fits(self.outgoing_bits as u8);
            }
        }
        if output_info.can_take_byte() {
            if self.push_outgoing_bits(output_info) > 0 {
                proof {
                    let s = self.sunk@;
                    let p = before.position();
                    let token = next_token(s, p);
                    lemma_next_token(s, p);
                    self.tokens@ = before.tokens@.push(token);
                    let next = self.with_state(HSEstate::YieldBrLength);
                    lemma_tokens_bits_push(before.tokens@, token);
                    assert(next.pushed@ =~= tokens_bits(next.tokens@) + next.partial());
                    assert(next.pushed@.take(before.pushed@.len() as int) =~= before.pushed@);
                    before.lemma_token_done(&next, token);
                    before.lemma_piece(&next);
                }
                HSEstate::YieldBrLength
            } else {
                self.match_scan_index += self.match_length;
                self.match_length = 0;
                proof {
                    let next = self.with_state(HSEstate::Search);
                    assert(next.partial() =~= before.partial());
                    assert(next.pushed@.take(before.pushed@.len() as int) =~= before.pushed@);
                }
                HSEstate::Search
            }
        } else {
            HSEstate::YieldBrLength
        }
    }

    /// End the round: keep the window and what is left of the input.
    fn st_save_backlog(&mut self) -> (r: HSEstate)
        requires
            old(self).inv(),
            old(self).state == HSEstate::SaveBacklog,
        ensures
            final(self).state == old(self).state,
            final(self).emitted@ == old(self).emitted@,
            r == HSEstate::NotFull,
            old(self).step(&final(self).with_state(r), true),
            old(self).hop(&final(self).with_state(r), false),
            final(self).pushed@ == old(self).goal_bits(),
            final(self).with_state(r).position() >= old(self).limit(),
            final(self).input_size == old(self).sunk@.len() - scan_end(
                old(self).sunk@,
                0,
                old(self).limit(),
            ),
    {
        proof {
            reveal(HeatshrinkEncoder::inv);
            reveal(HeatshrinkEncoder::goal_tokens);
            lemma_prefix_refl(self.emitted@);
            assert(self.pushed@.take(self.pushed@.len() as int) =~= self.pushed@);
            self.lemma_within_goal();
        }
        self.save_backlog();
        HSEstate::NotFull
    }

    /// Hand out the last byte, if bits are held back in it.
    fn st_flush_bit_buffer(&mut self, output_info: &mut OutputInfo) -> (r: HSEstate)
        requires
            old(self).inv(),
            old(self).state == HSEstate::FlushBits,
            old(output_info).wf(),
        ensures
            final(self).state == old(self).state,
            r == HSEstate::Done || r == HSEstate::FlushBits,
            r == HSEstate::FlushBits ==> old(output_info).count() >= old(output_info).data().len()
                && old(self).needs_room(old(self).pushed@.len() as int),
            r == HSEstate::Done && old(self).needs_room(old(self).pushed@.len() as int) ==> old(
                self,
            ).after_backref() || old(output_info).count() < old(output_info).data().len(),
            old(self).step(
                &final(self).with_state(r),
                r == HSEstate::Done,
            ),
            final(self).pushed@ == old(self).pushed@,
            final(self).tokens@ == old(self).tokens@,
            OutputInfo::grown(
                old(output_info).data(),
                old(output_info).count(),
                final(output_info).data(),
                final(output_info).count(),
                final(self).emitted@.skip(old(self).emitted@.len() as int),
            ),
            final(final(output_info).output_buffer)@ == final(old(output_info).output_buffer)@,
            *final(final(output_info).output_size) == *final(old(output_info).output_size),
    {
        proof {
            reveal(HeatshrinkEncoder::inv);
            reveal(HeatshrinkEncoder::goal_tokens);
        }
        let ghost before = *self;
        let ghost d0 = output_info.data();
        let ghost c0 = output_info.count();
        proof {
            reveal(HeatshrinkEncoder::needs_room);
            self.lemma_no_output(output_info.data(), output_info.count());
            assert(self.pushed@.take(self.pushed@.len() as int) =~= self.pushed@);
            self.lemma_within_goal();
            if self.needs_room(self.pushed@.len() as int) {
                self.lemma_asks_at_goal();
            }
        }
        if self.bit_index == 8 {
            proof {
                let next = self.with_state(HSEstate::Done);
                assert(next.partial() =~= before.partial());
            }
            HSEstate::Done
        } else if output_info.can_take_byte() {
            output_info.push_byte(self.current_byte);
            proof {
                self.emitted@ = before.emitted@.push(self.current_byte);
                let next = self.with_state(HSEstate::Done);
                assert(next.partial() =~= before.partial());
                assert(next.emitted@ =~= pack(next.pushed@).take(
                    packed_len(next.pushed@.len()) as int,
                ));
                assert(self.emitted@.take(before.emitted@.len() as int) =~= before.emitted@);
                assert(self.emitted@.skip(before.emitted@.len() as int) =~= seq![
                    self.current_byte,
                ]);
                assert(output_info.data() =~= d0.take(c0 as int) + seq![self.current_byte]
                    + d0.skip(c0 as int + 1));
            }
            HSEstate::Done
        } else {
            HSEstate::FlushBits
        }
    }

    /// Push the byte at the scan position as a literal.
    fn push_literal_byte(&mut self, output_info: &mut OutputInfo)
        requires
            old(self).inv(),
            old(self).state == HSEstate::YieldLiteral,
            old(output_info).count() < old(output_info).data().len(),
        ensures
            final(self).acc_wf(),
            final(self).same_but_acc(old(self)),
            final(self).pushed@ == old(self).pushed@ + low_bits(
                old(self).sunk@[old(self).position()],
                8,
            ),
            is_prefix(old(self).emitted@, final(self).emitted@),
            OutputInfo::grown(
                old(output_info).data(),
                old(output_info).count(),
                final(output_info).data(),
                final(output_info).count(),
                final(self).emitted@.skip(old(self).emitted@.len() as int),
            ),
            final(final(output_info).output_buffer)@ == final(old(output_info).output_buffer)@,
            *final(final(output_info).output_size) == *final(old(output_info).output_size),
    {
        proof {
            reveal(HeatshrinkEncoder::inv);
        }
        let input_offset: usize = self.match_scan_index - 1;
        let c: u8 = self.input_buffer[self.get_input_offset() + input_offset];
        proof {
            assert(self.input_buffer@[256 + input_offset] == with_history(self.sunk@)[self.base()
                + (256 + input_offset)]);
        }
        self.push_bits(8, c, output_info);
    }

    /// A step that is held up leaves the output as it is.
    proof fn lemma_no_output(&self, data: Seq<u8>, count: nat)
        requires
            count <= data.len(),
        ensures
            is_prefix(self.emitted@, self.emitted@),
            is_bit_prefix(self.pushed@, self.pushed@),
            OutputInfo::grown(
                data,
                count,
                data,
                count,
                self.emitted@.skip(self.emitted@.len() as int),
            ),
    {
        let emitted = self.emitted@;
        assert(self.pushed@.take(self.pushed@.len() as int) =~= self.pushed@);
        lemma_prefix_refl(emitted);
        assert(data =~= data.take(count as int) + Seq::<u8>::empty() + data.skip(count as int));
        assert(emitted.skip(emitted.len() as int) =~= Seq::<u8>::empty());
    }

    /// With a token written completely, the tokens written are still the
    /// ones that the format calls for.
    proof fn lemma_token_done(&self, next: &Self, token: Token)
        requires
            self.inv(),
            self.in_flight(),
            token == next_token(self.sunk@, self.position()),
            next.sunk@ == self.sunk@,
            next.flags == self.flags,
            next.tokens@ == self.tokens@.push(token),
            next.position() == self.position() + token.span(),
        ensures
            next.tokens@ == tokens_range(next.sunk@, 0, next.reach()),
            scan_end(next.sunk@, 0, next.reach()) == next.position(),
    {
        reveal(HeatshrinkEncoder::inv);
        let s = self.sunk@;
        let p = self.position();
        let q = self.reach();
        lemma_next_token(s, p);
        lemma_scan_same(s, 0, q, p);
        lemma_scan_split(s, 0, p, p + 1);
        assert(tokens_range(s, p, p + 1) =~= seq![token]);
        assert(self.tokens@ + seq![token] =~= self.tokens@.push(token));
        lemma_scan_same(s, 0, p + 1, next.reach());
    }

    /// Index in the buffer of the first staged byte.
    fn get_input_offset(&self) -> (r: usize)
        ensures
            r == HEATSHRINK_WINDOW_SIZE,
    {
        self.get_input_buffer_size()
    }

    /// Number of bytes that can be staged: half of the buffer.
    fn get_input_buffer_size(&self) -> (r: usize)
        ensures
            r == HEATSHRINK_WINDOW_SIZE,
    {
        self.input_buffer.len() / 2
    }

    /// Longest match that can be written.
    fn get_lookahead_size(&self) -> (r: usize)
        ensures
            r == HEATSHRINK_LOOKAHEAD_SIZE,
    {
        proof {
            lemma_one_shl_four();
        }
        1 << HEATSHRINK_LOOKAHEAD_BITS
    }

    /// Whether `finish` has been called.
    fn is_finishing(&self) -> (r: bool)
        requires
            self.flags <= 1,
        ensures
            r == self.finishing(),
    {
        proof {
            lemma_bit_ops(0, 0, 0, 0);
        }
        (self.flags & FLAG_IS_FINISHING) == FLAG_IS_FINISHING
    }
}

impl<M: MatchFinder> Default for HeatshrinkEncoder<M> {
    fn default() -> (r: Self)
        ensures
            r == HeatshrinkEncoder::<M>::fresh(),
            r.wf(),
            r.sunk() == Seq::<u8>::empty(),
            r.emitted() == Seq::<u8>::empty(),
            r.pushed() == Seq::<bool>::empty(),
            r.staged() == 0,
            r.accepting(),
            !r.filled(),
            !r.finishing(),
            !r.done(),
    {
        proof {
            reveal(HeatshrinkEncoder::inv);
        }
        HeatshrinkEncoder::new()
    }
}

/// The one bit of a tag.
proof fn lemma_tag(tag: u8)
    by (bit_vector)
    requires
        tag <= 1,
    ensures
        tag >> 1u8 == 0,
        ((tag >> 0u8) & 1 == 1) == (tag == 1),
{
}

/// A length field fits four bits.
proof fn lemma_length_fits(v: u8)
    by (bit_vector)
    requires
        v < 16,
    ensures
        v >> 4u8 == 0,
{
}

/// The size of the window.
proof fn lemma_one_shl_eight()
    by (bit_vector)
    ensures
        1usize << 8u8 == 256usize,
{
}

/// The longest match.
proof fn lemma_one_shl_four()
    by (bit_vector)
    ensures
        1usize << 4u8 == 16usize,
{
}

} // verus!
