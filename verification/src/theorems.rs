//! What holds of the wire format as a whole: reading undoes writing, a
//! reading goes on from where an earlier one ended, the two faults of a
//! written stream are found wherever they stand, and the ceiling on the
//! output changes a reading only where the output would not fit.

use crate::decoder::DecodeError;
use crate::wire::{
    decoded, decoded_within, encoded, expansion, leading, lemma_leading, lemma_prepend_nothing,
    lemma_prepend_twice, marker_token, prepend, run, zero_token, MARKER, MAX_MARKER_RUN,
    MAX_ZERO_RUN,
};
use vstd::math::min;
use vstd::prelude::*;

verus! {

/// The written form of a run of zero bytes is read as that run.
pub proof fn lemma_decoded_zero_token(n: nat, tail: Seq<u8>)
    requires
        n <= MAX_ZERO_RUN,
    ensures
        decoded(zero_token(n) + tail) == prepend(run(0, n), decoded(tail)),
{
    let wire = zero_token(n) + tail;
    if n == 0 {
        lemma_prepend_nothing(decoded(tail));
    } else if n == 1 {
        assert(wire.skip(1) =~= tail);
        assert(run(0, 1) =~= seq![0u8]);
    } else if n == 2 {
        let second = wire.skip(1);
        assert(second.skip(1) =~= tail);
        assert(decoded(second) == prepend(seq![0u8], decoded(tail)));
        lemma_prepend_twice(seq![0u8], seq![0u8], decoded(tail));
        assert(run(0, 2) =~= seq![0u8] + seq![0u8]);
    } else {
        assert(wire.skip(2) =~= tail);
    }
}

/// The written form of a run of marker bytes is read as that run.
pub proof fn lemma_decoded_marker_token(n: nat, tail: Seq<u8>)
    requires
        n <= MAX_MARKER_RUN,
    ensures
        decoded(marker_token(n) + tail) == prepend(run(MARKER, n), decoded(tail)),
{
    let wire = marker_token(n) + tail;
    if n == 0 {
        lemma_prepend_nothing(decoded(tail));
    } else {
        assert(wire.skip(2) =~= tail);
    }
}

/// Reading undoes writing: every raw stream is read back from its written
/// form.
pub proof fn lemma_round_trip(raw: Seq<u8>)
    ensures
        decoded(encoded(raw)) == Ok::<Seq<u8>, DecodeError>(raw),
    decreases raw.len(),
{
    if raw.len() == 0 {
        assert(raw =~= Seq::<u8>::empty());
    } else if raw[0] == 0 || raw[0] == MARKER {
        let byte = raw[0];
        let cap = if byte == 0 {
            MAX_ZERO_RUN
        } else {
            MAX_MARKER_RUN
        };
        let n = min(leading(raw, byte) as int, cap as int);
        let tail = raw.skip(n);
        lemma_leading(raw, byte);
        lemma_round_trip(tail);
        if byte == 0 {
            lemma_decoded_zero_token(n as nat, encoded(tail));
        } else {
            lemma_decoded_marker_token(n as nat, encoded(tail));
        }
        assert(run(byte, n as nat) + tail =~= raw) by {
            let whole_run = raw.take(leading(raw, byte) as int);
            assert forall|i: int| 0 <= i < n implies raw[i] == byte by {
                assert(raw[i] == whole_run[i]);
            }
        }
    } else {
        let tail = raw.skip(1);
        lemma_round_trip(tail);
        assert(encoded(raw).skip(1) =~= encoded(tail));
        assert(seq![raw[0]] + tail =~= raw);
    }
}

/// A reading goes on from where an earlier one ended: if `head` reads
/// without fault, `head` followed by `tail` reads as the bytes of `head`
/// followed by the reading of `tail`.
pub proof fn lemma_decoded_concat(head: Seq<u8>, tail: Seq<u8>)
    requires
        decoded(head) is Ok,
    ensures
        decoded(head + tail) == prepend(decoded(head)->Ok_0, decoded(tail)),
    decreases head.len(),
{
    let wire = head + tail;
    if head.len() == 0 {
        lemma_prepend_nothing(decoded(tail));
    } else {
        let used: int = if head[0] != MARKER {
            1
        } else {
            2
        };
        let piece = if head[0] != MARKER {
            seq![head[0]]
        } else {
            expansion(head[1])
        };
        assert(wire.skip(used) =~= head.skip(used) + tail);
        lemma_decoded_concat(head.skip(used), tail);
        lemma_prepend_twice(piece, decoded(head.skip(used))->Ok_0, decoded(tail));
    }
}

/// A reserved sequence that was met stays met whatever follows it.
pub proof fn lemma_reserved_sequence_is_final(head: Seq<u8>, tail: Seq<u8>)
    requires
        decoded(head) == Err::<Seq<u8>, DecodeError>(DecodeError::ReservedSequence),
    ensures
        decoded(head + tail) == Err::<Seq<u8>, DecodeError>(DecodeError::ReservedSequence),
    decreases head.len(),
{
    let wire = head + tail;
    if head.len() > 0 && (head[0] != MARKER || head[1] != 0) {
        let used: int = if head[0] != MARKER {
            1
        } else {
            2
        };
        assert(wire.skip(used) =~= head.skip(used) + tail);
        lemma_reserved_sequence_is_final(head.skip(used), tail);
    }
}

/// A marker followed by the count 0 is a fault wherever it stands, as long
/// as the marker is not itself the count byte of a marker before it: after
/// any stream that does not end inside an escape sequence, and whatever
/// follows.
pub proof fn lemma_reserved_sequence(head: Seq<u8>, tail: Seq<u8>)
    requires
        decoded(head) != Err::<Seq<u8>, DecodeError>(DecodeError::UnexpectedEOF),
    ensures
        decoded(head + seq![MARKER, 0u8] + tail) == Err::<Seq<u8>, DecodeError>(
            DecodeError::ReservedSequence,
        ),
{
    let rest = seq![MARKER, 0u8] + tail;
    assert(head + seq![MARKER, 0u8] + tail =~= head + rest);
    lemma_decoded_never_exceeds(head);
    if decoded(head) is Ok {
        lemma_decoded_concat(head, rest);
    } else {
        lemma_reserved_sequence_is_final(head, rest);
    }
}

/// A stream that ends with a marker in the place of a piece is cut short:
/// after any stream that reads without fault, a last lone marker is a
/// fault.
pub proof fn lemma_truncated(head: Seq<u8>)
    requires
        decoded(head) is Ok,
    ensures
        decoded(head.push(MARKER)) == Err::<Seq<u8>, DecodeError>(DecodeError::UnexpectedEOF),
{
    lemma_decoded_concat(head, seq![MARKER]);
    assert(head.push(MARKER) =~= head + seq![MARKER]);
}

/// Without a ceiling no reading fails for want of room.
pub proof fn lemma_decoded_never_exceeds(wire: Seq<u8>)
    ensures
        decoded(wire) != Err::<Seq<u8>, DecodeError>(DecodeError::LimitExceeded),
    decreases wire.len(),
{
    if wire.len() == 0 {
    } else if wire[0] != MARKER {
        lemma_decoded_never_exceeds(wire.skip(1));
    } else if wire.len() > 1 {
        lemma_decoded_never_exceeds(wire.skip(2));
    }
}

/// The ceiling changes a reading only where the output would not fit.
/// A bounded reading that succeeds is the unbounded one, and fits; one
/// that fails for another reason than the ceiling fails so without it too;
/// and one that fails at the ceiling belongs to a stream whose unbounded
/// reading, if it has one, does not fit.
pub proof fn lemma_decoded_within(wire: Seq<u8>, limit: nat)
    ensures
        match decoded_within(wire, limit) {
            Ok(bytes) => decoded(wire) == Ok::<Seq<u8>, DecodeError>(bytes) && bytes.len() <= limit,
            Err(DecodeError::LimitExceeded) => decoded(wire) is Ok ==> decoded(wire)->Ok_0.len()
                > limit,
            Err(e) => decoded(wire) == Err::<Seq<u8>, DecodeError>(e),
        },
    decreases wire.len(),
{
    if wire.len() == 0 {
    } else if wire[0] != MARKER {
        if limit >= 1 {
            lemma_decoded_within(wire.skip(1), (limit - 1) as nat);
        }
    } else if wire.len() > 1 && wire[1] != 0 {
        if limit >= wire[1] {
            lemma_decoded_within(wire.skip(2), (limit - wire[1]) as nat);
        }
    }
}

/// A stream whose reading fits under the ceiling reads the same with the
/// ceiling as without.
pub proof fn lemma_decoded_within_fits(wire: Seq<u8>, limit: nat)
    requires
        decoded(wire) is Ok,
        decoded(wire)->Ok_0.len() <= limit,
    ensures
        decoded_within(wire, limit) == decoded(wire),
{
    lemma_decoded_within(wire, limit);
}

/// Reading undoes writing under a ceiling too, as long as the raw stream
/// fits under it.
pub proof fn lemma_round_trip_within(raw: Seq<u8>, limit: nat)
    requires
        raw.len() <= limit,
    ensures
        decoded_within(encoded(raw), limit) == Ok::<Seq<u8>, DecodeError>(raw),
{
    lemma_round_trip(raw);
    lemma_decoded_within_fits(encoded(raw), limit);
}

} // verus!
