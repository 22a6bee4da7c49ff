//! The decoder: a two-state machine that turns compressed bytes back into
//! the raw stream, one byte at a time.
//!
//! [`DecoderState`] is the machine as a mathematical object, with its
//! transition function; [`Decoder`] is the executable machine, and each of
//! its methods is specified by the matching function of the model.

use crate::wire::{
    decoded, decoded_within, expansion, lemma_prepend_twice, prepend, run, MARKER,
};
use vstd::prelude::*;

verus! {

/// Why a compressed stream could not be decoded.
#[derive(Debug, Clone, Copy, PartialEq, Eq)]
pub enum DecodeError {
    /// The stream ended right after a marker byte, before its count byte.
    UnexpectedEOF,
    /// A marker byte was followed by the count 0, which stands for nothing.
    ReservedSequence,
    /// The decoded output would have grown past the caller's ceiling.
    LimitExceeded,
}

/// The state of a decoder: the raw bytes recovered so far, and whether the
/// last byte consumed was a marker whose count byte has not come yet.
pub struct DecoderState {
    pub output: Seq<u8>,
    pub awaiting_count: bool,
}

impl DecoderState {
    /// The state of a fresh decoder.
    pub open spec fn initial() -> DecoderState {
        DecoderState { output: Seq::empty(), awaiting_count: false }
    }

    /// The compressed bytes consumed but not yet reflected in the output:
    /// a lone marker while its count is awaited, nothing otherwise.
    pub open spec fn pending(self) -> Seq<u8> {
        if self.awaiting_count {
            seq![MARKER]
        } else {
            Seq::empty()
        }
    }

    /// The state after consuming `byte`, or the fault that `byte` raises.
    pub open spec fn feed(self, byte: u8) -> Result<DecoderState, DecodeError> {
        if self.awaiting_count {
            if byte == 0 {
                Err(DecodeError::ReservedSequence)
            } else {
                Ok(DecoderState { output: self.output + expansion(byte), awaiting_count: false })
            }
        } else if byte == MARKER {
            Ok(DecoderState { output: self.output, awaiting_count: true })
        } else {
            Ok(DecoderState { output: self.output.push(byte), awaiting_count: false })
        }
    }

    /// The result of ending the stream in this state.
    pub open spec fn finish(self) -> Result<Seq<u8>, DecodeError> {
        if self.awaiting_count {
            Err(DecodeError::UnexpectedEOF)
        } else {
            Ok(self.output)
        }
    }

    /// The result of consuming all of `rest`, one byte after the other,
    /// and then ending the stream. The first fault ends the run.
    pub open spec fn finish_after(self, rest: Seq<u8>) -> Result<Seq<u8>, DecodeError>
        decreases rest.len(),
    {
        if rest.len() == 0 {
            self.finish()
        } else {
            match self.feed(rest[0]) {
                Ok(next) => next.finish_after(rest.skip(1)),
                Err(e) => Err(e),
            }
        }
    }

    /// As `finish_after`, with the size of the output checked against
    /// `limit` after every byte consumed.
    pub open spec fn finish_after_within(self, rest: Seq<u8>, limit: nat) -> Result<
        Seq<u8>,
        DecodeError,
    >
        decreases rest.len(),
    {
        if rest.len() == 0 {
            self.finish()
        } else {
            match self.feed(rest[0]) {
                Ok(next) => if next.output.len() > limit {
                    Err(DecodeError::LimitExceeded)
                } else {
                    next.finish_after_within(rest.skip(1), limit)
                },
                Err(e) => Err(e),
            }
        }
    }
}

impl DecoderState {
    /// The machine computes the reading: run over `rest` and ended, it
    /// gives what it had recovered, followed by the reading of the pending
    /// marker, if any, and `rest`; or the fault of that reading.
    pub proof fn lemma_finish_after(self, rest: Seq<u8>)
        ensures
            self.finish_after(rest) == prepend(self.output, decoded(self.pending() + rest)),
        decreases rest.len(),
    {
        let wire = self.pending() + rest;
        if rest.len() == 0 {
            // nothing is left to consume: the pending marker, if any, is the fault
        } else if let Ok(next) = self.feed(rest[0]) {
            let tail = rest.skip(1);
            next.lemma_finish_after(tail);
            if self.awaiting_count {
                assert(wire.skip(2) =~= next.pending() + tail);
                lemma_prepend_twice(self.output, expansion(rest[0]), decoded(wire.skip(2)));
            } else if rest[0] == MARKER {
                assert(wire =~= next.pending() + tail);
            } else {
                lemma_prepend_twice(self.output, seq![rest[0]], decoded(wire.skip(1)));
                assert(self.output.push(rest[0]) =~= self.output + seq![rest[0]]);
            }
        }
    }

    /// The machine, watched by a ceiling on its output, computes the
    /// bounded reading: started with its output within `limit`, run over
    /// `rest` and ended, it gives what it had recovered, followed by the
    /// reading of the pending marker and `rest` within the room that is
    /// left; or the fault of that reading.
    pub proof fn lemma_finish_after_within(self, rest: Seq<u8>, limit: nat)
        requires
            self.output.len() <= limit,
        ensures
            self.finish_after_within(rest, limit) == prepend(
                self.output,
                decoded_within(self.pending() + rest, (limit - self.output.len()) as nat),
            ),
        decreases rest.len(),
    {
        let wire = self.pending() + rest;
        if rest.len() == 0 {
            // nothing is left to consume: the pending marker, if any, is the fault
        } else if let Ok(next) = self.feed(rest[0]) {
            let tail = rest.skip(1);
            if next.output.len() <= limit {
                next.lemma_finish_after_within(tail, limit);
                let next_room = (limit - next.output.len()) as nat;
                if self.awaiting_count {
                    assert(wire.skip(2) =~= next.pending() + tail);
                    lemma_prepend_twice(
                        self.output,
                        expansion(rest[0]),
                        decoded_within(wire.skip(2), next_room),
                    );
                } else if rest[0] == MARKER {
                    assert(wire =~= next.pending() + tail);
                } else {
                    lemma_prepend_twice(
                        self.output,
                        seq![rest[0]],
                        decoded_within(wire.skip(1), next_room),
                    );
                    assert(self.output.push(rest[0]) =~= self.output + seq![rest[0]]);
                }
            }
        }
    }
}

/// A streaming decoder. Feed it the compressed bytes in order, then take
/// the raw bytes with [`Decoder::output`].
pub struct Decoder {
    out: Vec<u8>,
    waiting_follow_up: bool,
}

impl View for Decoder {
    type V = DecoderState;

    closed spec fn view(&self) -> DecoderState {
        DecoderState { output: self.out@, awaiting_count: self.waiting_follow_up }
    }
}

impl Decoder {
    /// A decoder that has consumed nothing.
    pub fn new() -> (decoder: Self)
        ensures
            decoder@ == DecoderState::initial(),
    {
        Self { out: Vec::new(), waiting_follow_up: false }
    }

    /// Consumes one compressed byte. Fails, leaving the decoder as it was,
    /// exactly when `input` is the count 0 after a marker.
    pub fn feed(&mut self, input: u8) -> (result: Result<(), DecodeError>)
        ensures
            match result {
                Ok(()) => old(self)@.feed(input) == Ok::<DecoderState, DecodeError>(final(self)@),
                Err(e) => old(self)@.feed(input) == Err::<DecoderState, DecodeError>(e)
                    && final(self)@ == old(self)@,
            },
    {
        if self.waiting_follow_up {
            match input {
                0x00 => {
                    return Err(DecodeError::ReservedSequence);
                },
                0x01 => {
                    self.waiting_follow_up = false;
                    self.out.push(MARKER);
                    assert(self.out@ =~= old(self).out@ + run(MARKER, 1));
                },
                0x02 => {
                    self.waiting_follow_up = false;
                    self.out.push(MARKER);
                    self.out.push(MARKER);
                    assert(self.out@ =~= old(self).out@ + run(MARKER, 2));
                },
                _ => {
                    self.waiting_follow_up = false;
                    for i in 0..input
                        invariant
                            !self.waiting_follow_up,
                            self.out@ =~= old(self).out@ + run(0, i as nat),
                    {
                        self.out.push(0x00);
                    }
                },
            }
        } else {
            match input {
                0xFF => {
                    self.waiting_follow_up = true;
                },
                _ => {
                    self.out.push(input);
                },
            }
        }
        Ok(())
    }

    /// Ends the stream. Fails exactly when a marker is still waiting for
    /// its count byte; otherwise hands out the raw bytes.
    pub fn output(self) -> (result: Result<Vec<u8>, DecodeError>)
        ensures
            match result {
                Ok(bytes) => self@.finish() == Ok::<Seq<u8>, DecodeError>(bytes@),
                Err(e) => self@.finish() == Err::<Seq<u8>, DecodeError>(e),
            },
    {
        if self.waiting_follow_up {
            return Err(DecodeError::UnexpectedEOF);
        }
        Ok(self.out)
    }

    /// The number of raw bytes recovered so far.
    pub fn len(&self) -> (n: usize)
        ensures
            n == self@.output.len(),
    {
        self.out.len()
    }
}

} // verus!
