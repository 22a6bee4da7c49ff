//! The wire format, as functions on byte sequences.
//!
//! A raw stream is cut, from the left, into maximal runs of zero bytes (at
//! most 255 long), maximal runs of marker bytes (at most 2 long) and single
//! other bytes. Each piece has one written form:
//!
//! | raw piece                    | written form      |
//! |------------------------------|-------------------|
//! | a byte other than 0 and 0xFF | the byte itself   |
//! | 1 or 2 zero bytes            | the bytes as they are |
//! | `n` zero bytes, 3 to 255     | `0xFF`, `n`       |
//! | 1 or 2 marker bytes          | `0xFF`, 1 or 2    |
//!
//! [`encoded`] is the written form of a whole raw stream, [`decoded`] the
//! reading of a written stream, and [`decoded_within`] the same reading
//! under a ceiling on the size of the output.

use crate::decoder::DecodeError;
use vstd::math::min;
use vstd::prelude::*;

verus! {

/// The byte that opens an escape sequence.
pub const MARKER: u8 = 0xFF;

/// The longest run of zero bytes that one escape sequence can stand for.
pub const MAX_ZERO_RUN: u8 = 255;

/// The longest run of marker bytes that one escape sequence can stand for.
pub const MAX_MARKER_RUN: u8 = 2;

/// `n` copies of `byte`.
pub open spec fn run(byte: u8, n: nat) -> Seq<u8> {
    Seq::new(n, |i: int| byte)
}

/// The number of copies of `byte` that `s` begins with.
pub open spec fn leading(s: Seq<u8>, byte: u8) -> nat
    decreases s.len(),
{
    if s.len() > 0 && s[0] == byte {
        1 + leading(s.skip(1), byte)
    } else {
        0
    }
}

/// The written form of a run of `n` zero bytes, `n` at most 255.
pub open spec fn zero_token(n: nat) -> Seq<u8>
    recommends
        n <= MAX_ZERO_RUN,
{
    if n <= 2 {
        run(0, n)
    } else {
        seq![MARKER, n as u8]
    }
}

/// The written form of a run of `n` marker bytes, `n` at most 2.
pub open spec fn marker_token(n: nat) -> Seq<u8>
    recommends
        n <= MAX_MARKER_RUN,
{
    if n == 0 {
        Seq::empty()
    } else {
        seq![MARKER, n as u8]
    }
}

/// What the count byte `count` after a marker stands for: one or two marker
/// bytes for the counts 1 and 2, `count` zero bytes for any larger count.
/// The count 0 stands for nothing and is never written.
pub open spec fn expansion(count: u8) -> Seq<u8>
    recommends
        count > 0,
{
    if count <= MAX_MARKER_RUN {
        run(MARKER, count as nat)
    } else {
        run(0, count as nat)
    }
}

/// `leading` never counts past the end of the sequence, every byte it
/// counts is `byte`, and the byte after them, if there is one, is not.
pub proof fn lemma_leading(s: Seq<u8>, byte: u8)
    ensures
        leading(s, byte) <= s.len(),
        s.take(leading(s, byte) as int) == run(byte, leading(s, byte)),
        leading(s, byte) < s.len() ==> s[leading(s, byte) as int] != byte,
    decreases s.len(),
{
    if s.len() > 0 && s[0] == byte {
        let t = s.skip(1);
        lemma_leading(t, byte);
        let n = leading(t, byte) as int;
        let head = s.take(n + 1);
        assert(head =~= run(byte, (n + 1) as nat)) by {
            assert forall|i: int| 0 <= i < head.len() implies head[i] == byte by {
                if i > 0 {
                    assert(s[i] == t.take(n)[i - 1]);
                }
            }
        }
    }
}

/// The written form of the raw stream `raw`.
pub open spec fn encoded(raw: Seq<u8>) -> Seq<u8>
    decreases raw.len(),
{
    if raw.len() == 0 {
        Seq::empty()
    } else if raw[0] == 0 {
        let n = min(leading(raw, 0) as int, MAX_ZERO_RUN as int);
        proof {
            lemma_leading(raw, 0);
        }
        zero_token(n as nat) + encoded(raw.skip(n))
    } else if raw[0] == MARKER {
        let n = min(leading(raw, MARKER) as int, MAX_MARKER_RUN as int);
        proof {
            lemma_leading(raw, MARKER);
        }
        marker_token(n as nat) + encoded(raw.skip(n))
    } else {
        seq![raw[0]] + encoded(raw.skip(1))
    }
}

/// `prefix` put in front of the bytes of a successful reading; a failed
/// reading stays as it is.
pub open spec fn prepend(prefix: Seq<u8>, reading: Result<Seq<u8>, DecodeError>) -> Result<
    Seq<u8>,
    DecodeError,
> {
    match reading {
        Ok(bytes) => Ok(prefix + bytes),
        Err(e) => Err(e),
    }
}

/// The reading of the written stream `wire`: the raw stream it stands for,
/// or the first fault met when reading it from the left.
pub open spec fn decoded(wire: Seq<u8>) -> Result<Seq<u8>, DecodeError>
    decreases wire.len(),
{
    if wire.len() == 0 {
        Ok(Seq::empty())
    } else if wire[0] != MARKER {
        prepend(seq![wire[0]], decoded(wire.skip(1)))
    } else if wire.len() == 1 {
        Err(DecodeError::UnexpectedEOF)
    } else if wire[1] == 0 {
        Err(DecodeError::ReservedSequence)
    } else {
        prepend(expansion(wire[1]), decoded(wire.skip(2)))
    }
}

/// The reading of `wire` when the output may hold at most `limit` bytes.
/// Reading stops with `LimitExceeded` at the first piece that would carry
/// the output past the ceiling.
pub open spec fn decoded_within(wire: Seq<u8>, limit: nat) -> Result<Seq<u8>, DecodeError>
    decreases wire.len(),
{
    if wire.len() == 0 {
        Ok(Seq::empty())
    } else if wire[0] != MARKER {
        if limit < 1 {
            Err(DecodeError::LimitExceeded)
        } else {
            prepend(seq![wire[0]], decoded_within(wire.skip(1), (limit - 1) as nat))
        }
    } else if wire.len() == 1 {
        Err(DecodeError::UnexpectedEOF)
    } else if wire[1] == 0 {
        Err(DecodeError::ReservedSequence)
    } else if limit < wire[1] {
        Err(DecodeError::LimitExceeded)
    } else {
        prepend(expansion(wire[1]), decoded_within(wire.skip(2), (limit - wire[1]) as nat))
    }
}

/// A run of `n` copies of `byte` in front of `tail` begins with `n` more
/// copies of `byte` than `tail` does.
pub proof fn lemma_leading_run(byte: u8, n: nat, tail: Seq<u8>)
    ensures
        leading(run(byte, n) + tail, byte) == n + leading(tail, byte),
    decreases n,
{
    if n > 0 {
        let s = run(byte, n) + tail;
        assert(s.skip(1) =~= run(byte, (n - 1) as nat) + tail);
        lemma_leading_run(byte, (n - 1) as nat, tail);
    }
}

/// A run of zero bytes that is full, or that ends where `tail` begins, is
/// written as one piece, followed by the written form of `tail`.
pub proof fn lemma_encoded_zero_run(n: nat, tail: Seq<u8>)
    requires
        1 <= n <= MAX_ZERO_RUN,
        n == MAX_ZERO_RUN || tail.len() == 0 || tail[0] != 0,
    ensures
        encoded(run(0, n) + tail) == zero_token(n) + encoded(tail),
{
    let s = run(0, n) + tail;
    lemma_leading_run(0, n, tail);
    assert(s.skip(n as int) =~= tail);
}

/// A run of marker bytes that is full, or that ends where `tail` begins,
/// is written as one piece, followed by the written form of `tail`.
pub proof fn lemma_encoded_marker_run(n: nat, tail: Seq<u8>)
    requires
        1 <= n <= MAX_MARKER_RUN,
        n == MAX_MARKER_RUN || tail.len() == 0 || tail[0] != MARKER,
    ensures
        encoded(run(MARKER, n) + tail) == marker_token(n) + encoded(tail),
{
    let s = run(MARKER, n) + tail;
    lemma_leading_run(MARKER, n, tail);
    assert(s.skip(n as int) =~= tail);
}

/// A byte that is neither zero nor the marker is written as it is.
pub proof fn lemma_encoded_literal(byte: u8, tail: Seq<u8>)
    requires
        byte != 0,
        byte != MARKER,
    ensures
        encoded(seq![byte] + tail) == seq![byte] + encoded(tail),
{
    let s = seq![byte] + tail;
    assert(s.skip(1) =~= tail);
}

/// Putting `second` and then `first` in front of a reading is putting
/// `first + second` in front of it.
pub proof fn lemma_prepend_twice(
    first: Seq<u8>,
    second: Seq<u8>,
    reading: Result<Seq<u8>, DecodeError>,
)
    ensures
        prepend(first, prepend(second, reading)) == prepend(first + second, reading),
{
    if let Ok(bytes) = reading {
        assert(first + (second + bytes) =~= (first + second) + bytes);
    }
}

/// Putting nothing in front of a reading leaves it as it is.
pub proof fn lemma_prepend_nothing(reading: Result<Seq<u8>, DecodeError>)
    ensures
        prepend(Seq::empty(), reading) == reading,
{
}

} // verus!
