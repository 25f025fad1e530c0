//! The two ways of finding the longest match: a plain scan of the window,
//! and a scan along an index that links each position to the one before it
//! that holds the same byte. Both find the same match.

use crate::lzss::{
    best_match, lemma_best_match, lemma_best_match_full, lemma_best_match_skip, lemma_match_len,
    lemma_match_len_is, longest_match, match_len,
};
use crate::HEATSHRINK_ENCODER_BUFFER_SIZE;
use crate::HEATSHRINK_LOOKAHEAD_BITS;
use crate::HEATSHRINK_WINDOWS_BITS;
use vstd::prelude::*;

verus! {

/// Whether a search gave the match that the format calls for.
pub open spec fn found(r: Option<(usize, usize)>, buf: Seq<u8>, start: int, end: int, maxlen: nat)
    -> bool {
    match longest_match(buf, start, end, maxlen) {
        Some((distance, length)) => r == Some((distance as usize, length as usize)),
        None => r is None,
    }
}

/// A way of finding the longest match in the encoder's buffer.
pub trait MatchFinder: Sized {
    /// The invariant of the finder.
    spec fn wf(&self) -> bool;

    /// Whether the finder is prepared for searches in `buf` that end before
    /// `end`.
    spec fn covers(&self, buf: Seq<u8>, end: int) -> bool;

    /// A finder that is prepared for nothing.
    spec fn fresh() -> Self;

    /// What is prepared for a range is prepared for each shorter range.
    proof fn lemma_covers_less(&self, buf: Seq<u8>, end: int, less: int)
        requires
            self.covers(buf, end),
            less <= end,
        ensures
            self.covers(buf, less),
    ;

    /// Makes a finder.
    fn new() -> (r: Self)
        ensures
            r == Self::fresh(),
            r.wf(),
    ;

    /// Brings the finder back to what `new` gives.
    fn reset(&mut self)
        ensures
            *final(self) == Self::fresh(),
            final(self).wf(),
    ;

    /// Prepares the finder for searches in `buf` that end before `end`.
    fn do_indexing(&mut self, buf: &[u8; HEATSHRINK_ENCODER_BUFFER_SIZE], end: usize)
        requires
            old(self).wf(),
            end <= HEATSHRINK_ENCODER_BUFFER_SIZE,
        ensures
            final(self).wf(),
            final(self).covers(buf@, end as int),
    ;

    /// Finds the longest match for the `maxlen` bytes at `end` among the
    /// positions `start .. end`, as a distance back from `end` and a
    /// length.
    fn find_longest_match(
        &self,
        buf: &[u8; HEATSHRINK_ENCODER_BUFFER_SIZE],
        start: usize,
        end: usize,
        maxlen: usize,
    ) -> (r: Option<(usize, usize)>)
        requires
            self.wf(),
            start <= end,
            1 <= end,
            1 <= maxlen,
            end + maxlen <= HEATSHRINK_ENCODER_BUFFER_SIZE,
            maxlen > 1 ==> self.covers(buf@, end + 1),
        ensures
            found(r, buf@, start as int, end as int, maxlen as nat),
    ;
}

/// The finder that scans the window position by position.
#[derive(Debug)]
pub struct BruteForce {}

impl MatchFinder for BruteForce {
    open spec fn wf(&self) -> bool {
        true
    }

    open spec fn covers(&self, buf: Seq<u8>, end: int) -> bool {
        true
    }

    open spec fn fresh() -> Self {
        BruteForce {  }
    }

    proof fn lemma_covers_less(&self, buf: Seq<u8>, end: int, less: int) {
    }

    fn new() -> (r: Self) {
        BruteForce {  }
    }

    fn reset(&mut self) {
    }

    fn do_indexing(&mut self, buf: &[u8; HEATSHRINK_ENCODER_BUFFER_SIZE], end: usize) {
    }

    fn find_longest_match(
        &self,
        buf: &[u8; HEATSHRINK_ENCODER_BUFFER_SIZE],
        start: usize,
        end: usize,
        maxlen: usize,
    ) -> (r: Option<(usize, usize)>) {
        let mut match_maxlen: usize = 0;
        let mut match_index: usize = 0;
        let mut pos: usize = end - 1;

        while pos >= start
            invariant_except_break
                start <= pos + 1,
                pos < end,
                (match_index as int, match_maxlen as nat) == best_match(
                    buf@,
                    pos + 1,
                    end as int,
                    maxlen as nat,
                ),
                match_maxlen < maxlen,
            invariant
                start <= end,
                1 <= maxlen,
                end + maxlen <= HEATSHRINK_ENCODER_BUFFER_SIZE,
            ensures
                (match_index as int, match_maxlen as nat) == best_match(
                    buf@,
                    start as int,
                    end as int,
                    maxlen as nat,
                ),
            decreases pos,
        {
            proof {
                lemma_match_len(buf@, pos as int, end as int, maxlen as nat);
                lemma_best_match(buf@, pos + 1, end as int, maxlen as nat);
            }
            // A candidate must agree on the first byte, and on the byte
            // that would make it longer than the best so far.
            if (buf[pos] == buf[end]) && (buf[pos + match_maxlen] == buf[end + match_maxlen]) {
                let mut len: usize = 1;
                proof {
                    if maxlen == 1 {
                        lemma_match_len_is(buf@, pos as int, end as int, 1, 1);
                    }
                }
                while len < maxlen
                    invariant_except_break
                        crate::lzss::agree(buf@, pos as int, end as int, len as int),
                        len == maxlen ==> len as nat == match_len(
                            buf@,
                            pos as int,
                            end as int,
                            maxlen as nat,
                        ),
                    invariant
                        1 <= len <= maxlen,
                        pos < end,
                        end + maxlen <= HEATSHRINK_ENCODER_BUFFER_SIZE,
                    ensures
                        len as nat == match_len(buf@, pos as int, end as int, maxlen as nat),
                    decreases maxlen - len,
                {
                    if buf[pos + len] != buf[end + len] {
                        proof {
                            lemma_match_len_is(
                                buf@,
                                pos as int,
                                end as int,
                                maxlen as nat,
                                len as nat,
                            );
                        }
                        break ;
                    }
                    len += 1;
                    proof {
                        if len == maxlen {
                            lemma_match_len_is(
                                buf@,
                                pos as int,
                                end as int,
                                maxlen as nat,
                                len as nat,
                            );
                        }
                    }
                }
                if len > match_maxlen {
                    match_maxlen = len;
                    match_index = pos;
                    if len == maxlen {
                        // A match cannot be longer: stop searching.
                        proof {
                            lemma_best_match_full(
                                buf@,
                                start as int,
                                pos as int,
                                end as int,
                                maxlen as nat,
                            );
                        }
                        break ;
                    }
                }
            } else {
                proof {
                    let here = match_len(buf@, pos as int, end as int, maxlen as nat);
                    if here > match_maxlen {
                        assert(buf@[pos + match_maxlen] == buf@[pos + match_maxlen - pos + end]);
                    }
                }
            }

            if pos == 0 {
                break ;
            } else {
                pos -= 1;
            }
        }

        proof {
            lemma_best_match(buf@, start as int, end as int, maxlen as nat);
        }
        let break_even_point: usize = ((1 + HEATSHRINK_WINDOWS_BITS
            + HEATSHRINK_LOOKAHEAD_BITS) as usize) / 8;

        // A match is taken only if it is longer than the bytes that a
        // backreference takes to write.
        if match_maxlen > break_even_point {
            Some((end - match_index, match_maxlen))
        } else {
            None
        }
    }
}

/// The finder that follows an index. For each position of the buffer the
/// index holds the nearest position before it with the same byte.
#[derive(Debug)]
pub struct Indexed {
    search_index: [Option<usize>; HEATSHRINK_ENCODER_BUFFER_SIZE],
}

impl View for Indexed {
    type V = Seq<Option<usize>>;

    /// The index: for each position of the buffer, the entry that links it
    /// to an earlier position.
    closed spec fn view(&self) -> Seq<Option<usize>> {
        self.search_index@
    }
}

impl Indexed {
    /// Whether the entry for position `i` names the nearest position before
    /// `i` that holds the same byte as `i`, or none where there is none.
    pub open spec fn linked(&self, buf: Seq<u8>, i: int) -> bool {
        match self@[i] {
            Some(j) => j < i && buf[j as int] == buf[i] && forall|k: int|
                j < k < i ==> #[trigger] buf[k] != buf[i],
            None => forall|k: int| 0 <= k < i ==> #[trigger] buf[k] != buf[i],
        }
    }
}

impl MatchFinder for Indexed {
    /// Every entry names an earlier position, whatever the buffer holds.
    open spec fn wf(&self) -> bool {
        &&& self@.len() == HEATSHRINK_ENCODER_BUFFER_SIZE
        &&& forall|i: int|
            0 <= i < HEATSHRINK_ENCODER_BUFFER_SIZE ==> match #[trigger] self@[i] {
                Some(j) => j < i,
                None => true,
            }
    }

    /// The entries for the positions before `end` link the buffer as it is.
    open spec fn covers(&self, buf: Seq<u8>, end: int) -> bool {
        forall|i: int| 0 <= i < end ==> #[trigger] self.linked(buf, i)
    }

    closed spec fn fresh() -> Self {
        Indexed { search_index: [None;HEATSHRINK_ENCODER_BUFFER_SIZE] }
    }

    proof fn lemma_covers_less(&self, buf: Seq<u8>, end: int, less: int) {
    }

    fn new() -> (r: Self) {
        Indexed { search_index: [None;HEATSHRINK_ENCODER_BUFFER_SIZE] }
    }

    fn reset(&mut self) {
        let mut i: usize = 0;
        while i < HEATSHRINK_ENCODER_BUFFER_SIZE
            invariant
                i <= HEATSHRINK_ENCODER_BUFFER_SIZE,
                forall|j: int| 0 <= j < i ==> self.search_index@[j] == None::<usize>,
            decreases HEATSHRINK_ENCODER_BUFFER_SIZE - i,
        {
            self.search_index[i] = None;
            i += 1;
        }
        proof {
            assert(self.search_index =~= Self::fresh().search_index);
        }
    }

    /// Builds the index: a flattened linked list, for each byte value, of
    /// the positions that hold it.
    fn do_indexing(&mut self, buf: &[u8; HEATSHRINK_ENCODER_BUFFER_SIZE], end: usize) {
        let mut last: [Option<usize>; 256] = [None;256];
        let mut i: usize = 0;
        while i < end
            invariant
                i <= end <= HEATSHRINK_ENCODER_BUFFER_SIZE,
                self.wf(),
                forall|k: int| 0 <= k < i ==> #[trigger] self.linked(buf@, k),
                forall|v: int|
                    0 <= v < 256 ==> match #[trigger] last@[v] {
                        Some(j) => j < i && buf@[j as int] == v && forall|k: int|
                            j < k < i ==> #[trigger] buf@[k] != v,
                        None => forall|k: int| 0 <= k < i ==> #[trigger] buf@[k] != v,
                    },
            decreases end - i,
        {
            let v: usize = buf[i] as usize;
            let ghost before = *self;
            assert(last@[v as int] is Some ==> last@[v as int]->Some_0 < i);
            self.search_index[i] = last[v];
            last[v] = Some(i);
            proof {
                assert forall|k: int| 0 <= k < i + 1 implies #[trigger] self.linked(buf@, k) by {
                    if k < i {
                        assert(before.linked(buf@, k));
                        assert(self.search_index@[k] == before.search_index@[k]);
                    }
                }
            }
            i += 1;
        }
    }

    fn find_longest_match(
        &self,
        buf: &[u8; HEATSHRINK_ENCODER_BUFFER_SIZE],
        start: usize,
        end: usize,
        maxlen: usize,
    ) -> (r: Option<(usize, usize)>) {
        let mut match_maxlen: usize = 0;
        let mut match_index: usize = 0;
        let mut pos: usize = end;
        let ghost exact = self.covers(buf@, end + 1);

        loop
            invariant_except_break
                start <= pos <= end,
                pos == end || buf@[pos as int] == buf@[end as int] || !exact,
                match_maxlen < maxlen,
                exact ==> (match_index as int, match_maxlen as nat) == best_match(
                    buf@,
                    pos as int,
                    end as int,
                    maxlen as nat,
                ),
            invariant
                self.wf(),
                exact == self.covers(buf@, end + 1),
                start <= end,
                1 <= maxlen,
                end + maxlen <= HEATSHRINK_ENCODER_BUFFER_SIZE,
                match_maxlen <= maxlen,
            ensures
                exact ==> (match_index as int, match_maxlen as nat) == best_match(
                    buf@,
                    start as int,
                    end as int,
                    maxlen as nat,
                ),
            decreases pos,
        {
            proof {
                if exact {
                    assert(self.linked(buf@, pos as int));
                }
            }
            match self.search_index[pos] {
                None => {
                    proof {
                        if exact {
                            assert forall|at: int| start <= at < pos implies match_len(
                                buf@,
                                at,
                                end as int,
                                maxlen as nat,
                            ) <= match_maxlen by {
                                assert(buf@[at] != buf@[pos as int]);
                            }
                            lemma_best_match_skip(
                                buf@,
                                start as int,
                                pos as int,
                                end as int,
                                maxlen as nat,
                            );
                        }
                    }
                    break ;
                },
                Some(x) => {
                    let ghost from = pos;
                    proof {
                        if exact {
                            // Nothing between the two links holds the byte.
                            assert forall|at: int| x < at < from implies match_len(
                                buf@,
                                at,
                                end as int,
                                maxlen as nat,
                            ) <= match_maxlen by {
                                assert(buf@[at] != buf@[from as int]);
                            }
                            if x >= start {
                                lemma_best_match_skip(
                                    buf@,
                                    x + 1,
                                    from as int,
                                    end as int,
                                    maxlen as nat,
                                );
                            } else {
                                lemma_best_match_skip(
                                    buf@,
                                    start as int,
                                    from as int,
                                    end as int,
                                    maxlen as nat,
                                );
                            }
                        }
                    }
                    pos = x;

                    if pos < start {
                        break ;
                    }
                    proof {
                        lemma_match_len(buf@, pos as int, end as int, maxlen as nat);
                        lemma_best_match(buf@, pos + 1, end as int, maxlen as nat);
                    }

                    // A candidate must agree on the byte that would make it
                    // longer than the best so far.
                    if buf[pos + match_maxlen] == buf[end + match_maxlen] {
                        let mut len: usize = 1;
                        proof {
                            if exact && maxlen == 1 {
                                lemma_match_len_is(buf@, pos as int, end as int, 1, 1);
                            }
                        }
                        while len < maxlen
                            invariant_except_break
                                exact ==> crate::lzss::agree(
                                    buf@,
                                    pos as int,
                                    end as int,
                                    len as int,
                                ),
                                exact && len == maxlen ==> len as nat == match_len(
                                    buf@,
                                    pos as int,
                                    end as int,
                                    maxlen as nat,
                                ),
                            invariant
                                1 <= len <= maxlen,
                                pos < end,
                                end + maxlen <= HEATSHRINK_ENCODER_BUFFER_SIZE,
                            ensures
                                1 <= len <= maxlen,
                                exact ==> len as nat == match_len(
                                    buf@,
                                    pos as int,
                                    end as int,
                                    maxlen as nat,
                                ),
                            decreases maxlen - len,
                        {
                            if buf[pos + len] != buf[end + len] {
                                proof {
                                    if exact {
                                        lemma_match_len_is(
                                            buf@,
                                            pos as int,
                                            end as int,
                                            maxlen as nat,
                                            len as nat,
                                        );
                                    }
                                }
                                break ;
                            }
                            len += 1;
                            proof {
                                if exact && len == maxlen {
                                    lemma_match_len_is(
                                        buf@,
                                        pos as int,
                                        end as int,
                                        maxlen as nat,
                                        len as nat,
                                    );
                                }
                            }
                        }

                        if len > match_maxlen {
                            match_maxlen = len;
                            match_index = pos;
                            if len == maxlen {
                                // A match cannot be longer: stop searching.
                                proof {
                                    if exact {
                                        lemma_best_match_full(
                                            buf@,
                                            start as int,
                                            pos as int,
                                            end as int,
                                            maxlen as nat,
                                        );
                                    }
                                }
                                break ;
                            }
                        }
                    } else {
                        proof {
                            let here = match_len(buf@, pos as int, end as int, maxlen as nat);
                            if here > match_maxlen {
                                assert(buf@[pos + match_maxlen] == buf@[pos + match_maxlen - pos
                                    + end]);
                            }
                        }
                    }
                },
            }
        }

        proof {
            lemma_best_match(buf@, start as int, end as int, maxlen as nat);
        }
        let break_even_point: usize = ((1 + HEATSHRINK_WINDOWS_BITS
            + HEATSHRINK_LOOKAHEAD_BITS) as usize) / 8;

        if match_maxlen > break_even_point {
            Some((end - match_index, match_maxlen))
        } else {
            None
        }
    }
}

/// The two finders find the same: asked for the longest match in one
/// buffer, within the same bounds, with the index built for that buffer,
/// the finder that follows the index answers what the finder that scans
/// the window answers.
pub proof fn lemma_finders_agree(
    brute: &BruteForce,
    indexed: &Indexed,
    buf: &[u8; HEATSHRINK_ENCODER_BUFFER_SIZE],
    start: usize,
    end: usize,
    maxlen: usize,
    first: Option<(usize, usize)>,
    second: Option<(usize, usize)>,
)
    requires
        start <= end,
        1 <= end,
        1 <= maxlen,
        end + maxlen <= HEATSHRINK_ENCODER_BUFFER_SIZE,
        indexed.wf(),
        indexed.covers(buf@, end + 1),
        call_ensures(BruteForce::find_longest_match, (brute, buf, start, end, maxlen), first),
        call_ensures(Indexed::find_longest_match, (indexed, buf, start, end, maxlen), second),
    ensures
        first == second,
        call_requires(BruteForce::find_longest_match, (brute, buf, start, end, maxlen)),
        call_requires(Indexed::find_longest_match, (indexed, buf, start, end, maxlen)),
{
}

} // verus!
