//! The encoder: a machine that consumes raw bytes one at a time and emits
//! the compressed stream, holding back an unfinished run until it is known
//! how long the run is.
//!
//! [`EncoderState`] is the machine as a mathematical object, with its
//! transition function; [`Encoder`] is the executable machine, and each of
//! its methods is specified by the matching function of the model.

use crate::wire::{
    encoded, lemma_encoded_literal, lemma_encoded_marker_run, lemma_encoded_zero_run,
    marker_token, run, zero_token, MARKER, MAX_MARKER_RUN, MAX_ZERO_RUN,
};
use vstd::prelude::*;

verus! {

/// The state of an encoder: the compressed bytes emitted so far, and the
/// length of the run of zero bytes or of marker bytes that has been
/// consumed but not yet written.
pub struct EncoderState {
    pub zero_run: nat,
    pub ff_run: nat,
    pub output: Seq<u8>,
}

impl EncoderState {
    /// The state of a fresh encoder.
    pub open spec fn initial() -> EncoderState {
        EncoderState { zero_run: 0, ff_run: 0, output: Seq::empty() }
    }

    /// What holds of an encoder between any two calls: a run that has
    /// reached its full length was written at once, so a pending run is
    /// shorter than that, and at most one run is pending.
    pub open spec fn well_formed(self) -> bool {
        &&& self.zero_run < MAX_ZERO_RUN
        &&& self.ff_run < MAX_MARKER_RUN
        &&& (self.zero_run == 0 || self.ff_run == 0)
    }

    /// The raw bytes consumed but not yet written.
    pub open spec fn pending(self) -> Seq<u8> {
        run(0, self.zero_run) + run(MARKER, self.ff_run)
    }

    /// The state after consuming `byte`.
    ///
    /// A byte of another class than the pending run ends that run, which is
    /// written; a zero or marker byte then starts or lengthens a run, which
    /// is written at once if it has reached its full length; any other byte
    /// is written as it is.
    pub open spec fn feed(self, byte: u8) -> EncoderState {
        if byte == 0 {
            let closed = self.output + marker_token(self.ff_run);
            if self.zero_run + 1 == MAX_ZERO_RUN {
                EncoderState {
                    zero_run: 0,
                    ff_run: 0,
                    output: closed + zero_token(MAX_ZERO_RUN as nat),
                }
            } else {
                EncoderState { zero_run: self.zero_run + 1, ff_run: 0, output: closed }
            }
        } else if byte == MARKER {
            let closed = self.output + zero_token(self.zero_run);
            if self.ff_run + 1 == MAX_MARKER_RUN {
                EncoderState {
                    zero_run: 0,
                    ff_run: 0,
                    output: closed + marker_token(MAX_MARKER_RUN as nat),
                }
            } else {
                EncoderState { zero_run: 0, ff_run: self.ff_run + 1, output: closed }
            }
        } else {
            EncoderState { zero_run: 0, ff_run: 0, output: self.finish().push(byte) }
        }
    }

    /// The compressed stream if the raw stream ends here: what was emitted,
    /// then the pending run in its written form.
    pub open spec fn finish(self) -> Seq<u8> {
        self.output + zero_token(self.zero_run) + marker_token(self.ff_run)
    }

    /// The state after the pending run has been written.
    pub open spec fn flushed(self) -> EncoderState {
        EncoderState { zero_run: 0, ff_run: 0, output: self.finish() }
    }

    /// The compressed stream after consuming all of `rest`, one byte after
    /// the other, and then ending the raw stream.
    pub open spec fn finish_after(self, rest: Seq<u8>) -> Seq<u8>
        decreases rest.len(),
    {
        if rest.len() == 0 {
            self.finish()
        } else {
            self.feed(rest[0]).finish_after(rest.skip(1))
        }
    }
}

impl EncoderState {
    /// Ending the raw stream writes the pending bytes in their written
    /// form.
    pub proof fn lemma_finish(self)
        requires
            self.well_formed(),
        ensures
            self.finish() == self.output + encoded(self.pending()),
    {
        if self.zero_run > 0 {
            lemma_encoded_zero_run(self.zero_run, Seq::empty());
        } else if self.ff_run > 0 {
            lemma_encoded_marker_run(self.ff_run, Seq::empty());
        }
    }

    /// Consuming a byte keeps the state well formed, and moves the byte
    /// from the stream still to come into the state without changing the
    /// compressed stream that the whole stands for: what was emitted,
    /// followed by the written form of the pending bytes and of all that is
    /// still to come.
    pub proof fn lemma_feed(self, byte: u8, tail: Seq<u8>)
        requires
            self.well_formed(),
        ensures
            self.feed(byte).well_formed(),
            self.feed(byte).output + encoded(self.feed(byte).pending() + tail) == self.output
                + encoded(self.pending() + seq![byte] + tail),
    {
        let next = self.feed(byte);
        let rest = seq![byte] + tail;
        let before = self.pending() + seq![byte] + tail;
        let after = next.pending() + tail;
        if byte == 0 {
            if self.ff_run > 0 {
                // the byte ends a run of marker bytes and starts a run of its own
                lemma_encoded_marker_run(self.ff_run, rest);
                assert(before =~= run(MARKER, self.ff_run) + rest);
                assert(after =~= rest);
            } else if self.zero_run + 1 == MAX_ZERO_RUN {
                // the byte makes the run of zero bytes full
                lemma_encoded_zero_run(MAX_ZERO_RUN as nat, tail);
                assert(before =~= run(0, MAX_ZERO_RUN as nat) + tail);
            } else {
                // the byte lengthens the pending run, and nothing is written
                assert(after =~= before);
            }
        } else if byte == MARKER {
            if self.zero_run > 0 {
                // the byte ends a run of zero bytes and starts a run of its own
                lemma_encoded_zero_run(self.zero_run, rest);
                assert(before =~= run(0, self.zero_run) + rest);
                assert(after =~= rest);
            } else if self.ff_run + 1 == MAX_MARKER_RUN {
                // the byte makes the run of marker bytes full
                lemma_encoded_marker_run(MAX_MARKER_RUN as nat, tail);
                assert(before =~= run(MARKER, MAX_MARKER_RUN as nat) + tail);
            } else {
                // the byte starts a run, and nothing is written
                assert(after =~= before);
            }
        } else {
            // the byte ends whatever run is pending and is written itself
            lemma_encoded_literal(byte, tail);
            if self.zero_run > 0 {
                lemma_encoded_zero_run(self.zero_run, rest);
                assert(before =~= run(0, self.zero_run) + rest);
            } else if self.ff_run > 0 {
                lemma_encoded_marker_run(self.ff_run, rest);
                assert(before =~= run(MARKER, self.ff_run) + rest);
            }
        }
    }

    /// The machine computes the written form: run over `rest` and ended,
    /// it gives what it had emitted, followed by the written form of the
    /// pending bytes and `rest`.
    pub proof fn lemma_finish_after(self, rest: Seq<u8>)
        requires
            self.well_formed(),
        ensures
            self.finish_after(rest) == self.output + encoded(self.pending() + rest),
        decreases rest.len(),
    {
        if rest.len() == 0 {
            self.lemma_finish();
        } else {
            let tail = rest.skip(1);
            self.lemma_feed(rest[0], tail);
            self.feed(rest[0]).lemma_finish_after(tail);
            assert(self.pending() + seq![rest[0]] + tail =~= self.pending() + rest);
        }
    }

    /// Writing the pending run twice is writing it once: a flushed state
    /// has nothing pending, and flushing it again changes nothing.
    pub proof fn lemma_flushed_twice(self)
        ensures
            self.flushed().well_formed(),
            self.flushed().pending() == Seq::<u8>::empty(),
            self.flushed().flushed() == self.flushed(),
            self.flushed().finish() == self.finish(),
    {
        let once = self.flushed();
    }
}

/// A streaming encoder. Feed it the raw bytes in order, then take the
/// compressed bytes with [`Encoder::output`].
pub struct Encoder {
    zero_run: u8,
    ff_run: u8,
    out: Vec<u8>,
}

impl View for Encoder {
    type V = EncoderState;

    closed spec fn view(&self) -> EncoderState {
        EncoderState {
            zero_run: self.zero_run as nat,
            ff_run: self.ff_run as nat,
            output: self.out@,
        }
    }
}

impl Encoder {
    /// An encoder that has consumed nothing.
    pub fn new() -> (encoder: Self)
        ensures
            encoder@ == EncoderState::initial(),
            encoder@.well_formed(),
    {
        Encoder { zero_run: 0, ff_run: 0, out: Vec::new() }
    }

    /// Writes the pending run of zero bytes, if there is one.
    fn flush_zeroes(&mut self)
        ensures
            final(self)@ == (EncoderState {
                zero_run: 0,
                ff_run: old(self)@.ff_run,
                output: old(self)@.output + zero_token(old(self)@.zero_run),
            }),
    {
        match self.zero_run {
            0 => {
            },
            1 => {
                self.out.push(0);
                self.zero_run = 0;
                assert(self.out@ =~= old(self).out@ + zero_token(1));
            },
            2 => {
                self.out.push(0);
                self.out.push(0);
                self.zero_run = 0;
                assert(self.out@ =~= old(self).out@ + zero_token(2));
            },
            3..=255 => {
                self.out.push(MARKER);
                self.out.push(self.zero_run);
                self.zero_run = 0;
                assert(self.out@ =~= old(self).out@ + zero_token(old(self).zero_run as nat));
            },
        }
    }

    /// Writes the pending run of marker bytes, if there is one.
    fn flush_ff(&mut self)
        requires
            old(self)@.ff_run <= MAX_MARKER_RUN,
        ensures
            final(self)@ == (EncoderState {
                zero_run: old(self)@.zero_run,
                ff_run: 0,
                output: old(self)@.output + marker_token(old(self)@.ff_run),
            }),
    {
        if self.ff_run > 0 {
            self.out.push(MARKER);
            self.out.push(self.ff_run);
            self.ff_run = 0;
        }
        assert(self.out@ =~= old(self).out@ + marker_token(old(self).ff_run as nat));
    }

    /// Writes whatever run is pending.
    fn flush(&mut self)
        requires
            old(self)@.ff_run <= MAX_MARKER_RUN,
        ensures
            final(self)@ == old(self)@.flushed(),
    {
        self.flush_zeroes();
        self.flush_ff();
    }

    /// Consumes one zero byte.
    fn feed_zero(&mut self)
        requires
            old(self)@.well_formed(),
        ensures
            final(self)@ == old(self)@.feed(0),
    {
        self.flush_ff();
        self.zero_run += 1;
        if self.zero_run == MAX_ZERO_RUN {
            self.flush_zeroes();
        }
    }

    /// Consumes one marker byte.
    fn feed_ff(&mut self)
        requires
            old(self)@.well_formed(),
        ensures
            final(self)@ == old(self)@.feed(MARKER),
    {
        self.flush_zeroes();
        self.ff_run += 1;
        if self.ff_run == MAX_MARKER_RUN {
            self.flush_ff();
        }
    }

    /// Consumes one raw byte. Every byte is accepted.
    pub fn feed(&mut self, byte: u8)
        requires
            old(self)@.well_formed(),
        ensures
            final(self)@ == old(self)@.feed(byte),
            final(self)@.well_formed(),
    {
        if byte == 0 {
            self.feed_zero();
        } else if byte == MARKER {
            self.feed_ff();
        } else {
            self.flush();
            self.out.push(byte);
        }
    }

    /// Writes the pending run and returns all compressed bytes emitted so
    /// far. A second call right after returns the same bytes.
    pub fn output(&mut self) -> (bytes: Vec<u8>)
        requires
            old(self)@.well_formed(),
        ensures
            final(self)@ == old(self)@.flushed(),
            final(self)@.well_formed(),
            bytes@ == old(self)@.finish(),
    {
        self.flush();
        self.out.clone()
    }
}

} // verus!
