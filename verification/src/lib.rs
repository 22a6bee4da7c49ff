//! A lossless codec for byte streams dominated by long runs of zero.
//!
//! Runs of zero bytes are replaced by a two-byte escape sequence: the
//! marker byte `0xFF` followed by the length of the run. Literal marker
//! bytes are escaped the same way, with the counts 1 and 2 set aside for
//! them.
//!
//! [`wire`] defines the format as functions on byte sequences, and
//! [`theorems`] proves what holds of it: above all that reading undoes
//! writing. [`encoder`] and [`decoder`] hold the two byte-at-a-time state
//! machines, each proved to compute the format. The functions of this
//! module run the machines over a whole buffer.

pub mod decoder;
pub mod encoder;
pub mod theorems;
pub mod wire;

pub use crate::decoder::{DecodeError, Decoder};
pub use crate::encoder::Encoder;

use crate::decoder::DecoderState;
use crate::encoder::EncoderState;
use crate::theorems::{lemma_decoded_within, lemma_round_trip};
use crate::wire::{decoded, decoded_within, encoded, lemma_prepend_nothing};
use vstd::prelude::*;

verus! {

/// Compresses `input`. Every input has a compressed form.
pub fn encode(input: Vec<u8>) -> (output: Vec<u8>)
    ensures
        output@ == encoded(input@),
{
    let ghost raw = input@;
    let mut encoder = Encoder::new();
    assert(raw.skip(0) =~= raw);
    for byte in iter: input
        invariant
            iter.seq() == raw,
            encoder@.well_formed(),
            encoder@.finish_after(raw.skip(iter.index())) == EncoderState::initial().finish_after(
                raw,
            ),
    {
        assert(raw.skip(iter.index()).skip(1) =~= raw.skip(iter.index() + 1));
        encoder.feed(byte);
    }
    proof {
        EncoderState::initial().lemma_finish_after(raw);
    }
    encoder.output()
}

/// Decompresses `input`: gives back the raw stream that `input` is the
/// compressed form of, or the first fault met when reading `input`.
pub fn decode(input: Vec<u8>) -> (result: Result<Vec<u8>, DecodeError>)
    ensures
        match result {
            Ok(bytes) => decoded(input@) == Ok::<Seq<u8>, DecodeError>(bytes@),
            Err(e) => decoded(input@) == Err::<Seq<u8>, DecodeError>(e),
        },
{
    let ghost wire = input@;
    let mut decoder = Decoder::new();
    proof {
        DecoderState::initial().lemma_finish_after(wire);
        lemma_prepend_nothing(decoded(wire));
        assert(wire.skip(0) =~= wire);
    }
    for byte in iter: input
        invariant
            iter.seq() == wire,
            decoder@.finish_after(wire.skip(iter.index())) == decoded(wire),
    {
        assert(wire.skip(iter.index()).skip(1) =~= wire.skip(iter.index() + 1));
        if let Err(e) = decoder.feed(byte) {
            return Err(e);
        }
    }
    decoder.output()
}

/// Decompresses `input` as `decode` does, but lets the output hold at
/// most `limit` bytes: fails with `LimitExceeded` as soon as the output has
/// grown past `limit`, unless another fault comes first.
pub fn decode_with_limit(input: Vec<u8>, limit: usize) -> (result: Result<Vec<u8>, DecodeError>)
    ensures
        match result {
            Ok(bytes) => decoded_within(input@, limit as nat) == Ok::<Seq<u8>, DecodeError>(
                bytes@,
            ),
            Err(e) => decoded_within(input@, limit as nat) == Err::<Seq<u8>, DecodeError>(e),
        },
{
    let ghost wire = input@;
    let mut decoder = Decoder::new();
    proof {
        DecoderState::initial().lemma_finish_after_within(wire, limit as nat);
        lemma_prepend_nothing(decoded_within(wire, limit as nat));
        assert(wire.skip(0) =~= wire);
    }
    for byte in iter: input
        invariant
            iter.seq() == wire,
            decoder@.finish_after_within(wire.skip(iter.index()), limit as nat) == decoded_within(
                wire,
                limit as nat,
            ),
    {
        assert(wire.skip(iter.index()).skip(1) =~= wire.skip(iter.index() + 1));
        if let Err(e) = decoder.feed(byte) {
            return Err(e);
        }
        if decoder.len() > limit {
            return Err(DecodeError::LimitExceeded);
        }
    }
    decoder.output()
}

/// Round trip: whatever `encode` gives for a raw stream, `decode` gives
/// the raw stream back for it.
pub proof fn lemma_decode_encode(
    raw: Vec<u8>,
    written: Vec<u8>,
    result: Result<Vec<u8>, DecodeError>,
)
    requires
        call_ensures(encode, (raw,), written),
        call_ensures(decode, (written,), result),
    ensures
        result is Ok,
        result->Ok_0@ == raw@,
{
    lemma_round_trip(raw@);
}

/// Round trip under a ceiling: whatever `encode` gives for a raw stream,
/// `decode_with_limit` gives the raw stream back for it if the raw stream
/// fits under the ceiling, and fails with `LimitExceeded` if it does not.
pub proof fn lemma_decode_with_limit_encode(
    raw: Vec<u8>,
    written: Vec<u8>,
    limit: usize,
    result: Result<Vec<u8>, DecodeError>,
)
    requires
        call_ensures(encode, (raw,), written),
        call_ensures(decode_with_limit, (written, limit), result),
    ensures
        raw@.len() <= limit ==> result is Ok && result->Ok_0@ == raw@,
        raw@.len() > limit ==> result == Err::<Vec<u8>, DecodeError>(DecodeError::LimitExceeded),
{
    lemma_round_trip(raw@);
    lemma_decoded_within(written@, limit as nat);
}

/// `encode` is a function of its input: two calls on the same bytes give
/// the same bytes.
pub proof fn lemma_encode_deterministic(
    first_input: Vec<u8>,
    second_input: Vec<u8>,
    first: Vec<u8>,
    second: Vec<u8>,
)
    requires
        first_input@ == second_input@,
        call_ensures(encode, (first_input,), first),
        call_ensures(encode, (second_input,), second),
    ensures
        first@ == second@,
{
}

/// `decode` is a function of its input: two calls on the same bytes both
/// succeed with the same bytes, or both fail with the same fault.
pub proof fn lemma_decode_deterministic(
    first_input: Vec<u8>,
    second_input: Vec<u8>,
    first: Result<Vec<u8>, DecodeError>,
    second: Result<Vec<u8>, DecodeError>,
)
    requires
        first_input@ == second_input@,
        call_ensures(decode, (first_input,), first),
        call_ensures(decode, (second_input,), second),
    ensures
        match first {
            Ok(bytes) => second is Ok && second->Ok_0@ == bytes@,
            Err(e) => second == Err::<Vec<u8>, DecodeError>(e),
        },
{
}

/// `decode_with_limit` is a function of its input and its ceiling.
pub proof fn lemma_decode_with_limit_deterministic(
    first_input: Vec<u8>,
    second_input: Vec<u8>,
    limit: usize,
    first: Result<Vec<u8>, DecodeError>,
    second: Result<Vec<u8>, DecodeError>,
)
    requires
        first_input@ == second_input@,
        call_ensures(decode_with_limit, (first_input, limit), first),
        call_ensures(decode_with_limit, (second_input, limit), second),
    ensures
        match first {
            Ok(bytes) => second is Ok && second->Ok_0@ == bytes@,
            Err(e) => second == Err::<Vec<u8>, DecodeError>(e),
        },
{
}

} // verus!
