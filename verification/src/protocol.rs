use vstd::prelude::*;

use crate::bytes::{InputByteQueue, InputByteQueueError, OutputByteQueue};

verus! {

/// Failure while encoding a value: only content-dependent encodings
/// (embedded JSON or binary-tree payloads) can fail.
#[derive(Copy, Clone, Debug, PartialEq, Eq, Structural)]
pub enum WriteError {
    Json,
    Nbt,
}

/// Failure while decoding a value from a byte queue. Queue shortage
/// (`InputQueue`) is kept distinct from content-validation failures.
#[derive(Copy, Clone, Debug, PartialEq, Eq, Structural)]
pub enum ReadError {
    BadVarNum,
    BadUtf8,
    BadStringLimit(i32),
    BadIdentifier,
    BadJson,
    BadNbt,
    InputQueue(InputByteQueueError),
}

/// The queue-shortage read error.
pub open spec fn shortage() -> ReadError {
    ReadError::InputQueue(InputByteQueueError::NoBytes)
}

/// A type that can be encoded onto an output byte queue.
///
/// `spec_wire` is the mathematical wire form of a value, stated over its deep
/// view; `write` appends exactly that wire form and is infallible for every
/// implementer of this trait.
pub trait Writable: Sized + DeepView {
    /// The exact byte sequence that encodes `v`.
    spec fn spec_wire(v: Self::V) -> Seq<u8>;

    /// Append the wire form of `self` to `output`.
    fn write(&self, output: &mut OutputByteQueue) -> (r: Result<(), WriteError>)
        ensures
            r is Ok,
            final(output)@ == old(output)@ + Self::spec_wire(self.deep_view()),
    ;
}

/// A type that can be decoded from an input byte queue.
///
/// `spec_read` is a total specification of decoding: for every byte sequence
/// it gives either the decoded value (as a deep view) with the exact number of
/// bytes consumed, or the error that decoding reports.
pub trait Readable: Sized + DeepView {
    /// Decode the front of `s`: the value and the count of bytes consumed,
    /// or the exact error.
    spec fn spec_read(s: Seq<u8>) -> Result<(Self::V, int), ReadError>;

    /// A successful decode consumes between 1 and `s.len()` bytes,
    /// except on an empty sequence, where it consumes none.
    proof fn lemma_read_bounds(s: Seq<u8>)
        ensures
            Self::spec_read(s) matches Ok((v, n)) ==> 0 <= n <= s.len(),
            s.len() > 0 ==> (Self::spec_read(s) matches Ok((v, n)) ==> 1 <= n),
    ;

    /// Decode one value from the queue, consuming exactly the bytes of its
    /// wire form, or report the error `spec_read` gives.
    fn read(input: &mut InputByteQueue) -> (r: Result<Self, ReadError>)
        ensures
            match Self::spec_read(old(input)@) {
                Ok((v, n)) => (r matches Ok(rv) && rv.deep_view() == v) && final(input)@ == old(
                    input,
                )@.skip(n),
                Err(e) => r matches Err(e2) && e2 == e,
            },
            final(input)@.len() <= old(input)@.len(),
    ;
}

/// A type whose encode and decode are exact inverses.
///
/// For every value `v` with `fits(v)` (the value respects the codec's
/// declared size limits), decoding the wire form of `v` yields `v` back and
/// consumes exactly the wire form. `tail_lenient` says whether decoding
/// ignores bytes that follow the wire form; it is false only for
/// remaining-bytes framing, which by design consumes the whole queue.
pub trait Codec: Writable + Readable {
    /// Values whose wire form decodes back to themselves.
    spec fn fits(v: <Self as DeepView>::V) -> bool;

    /// Whether decoding `wire(v) + rest` is independent of `rest`.
    spec fn tail_lenient() -> bool;

    /// A value that fits, under a tail-lenient codec, has a nonempty wire
    /// form (remaining-bytes framing relies on this to make progress).
    proof fn lemma_wire_nonempty(v: <Self as DeepView>::V)
        requires
            Self::fits(v),
            Self::tail_lenient(),
        ensures
            Self::spec_wire(v).len() >= 1,
    ;

    /// Round trip: decoding an encoded value yields the value, consuming
    /// exactly its wire form.
    proof fn lemma_round_trip(v: <Self as DeepView>::V, rest: Seq<u8>)
        requires
            Self::fits(v),
            Self::tail_lenient() || rest.len() == 0,
        ensures
            Self::spec_read(Self::spec_wire(v) + rest) == Ok::<_, ReadError>(
                (v, Self::spec_wire(v).len() as int),
            ),
    ;
}

/// An integer codec usable as the count field of length-provided framing.
///
/// `spec_size` is the count a decoded value denotes; `spec_of_size` is the
/// value that encodes a given count (truncating, as the underlying integer
/// conversion does).
pub trait SizeNumber: Sized + DeepView {
    /// The count denoted by a value.
    spec fn spec_size(v: <Self as DeepView>::V) -> int;

    /// The value denoting a count.
    spec fn spec_of_size(n: int) -> <Self as DeepView>::V;

    /// Convert this value to a count.
    fn as_size(&self) -> (n: usize)
        ensures
            n as int == Self::spec_size(self.deep_view()),
    ;

    /// Construct the value denoting `size`.
    fn new_from_size(size: usize) -> (r: Self)
        ensures
            r.deep_view() == Self::spec_of_size(size as int),
    ;
}

impl Writable for u8 {
    open spec fn spec_wire(v: u8) -> Seq<u8> {
        seq![v]
    }

    fn write(&self, output: &mut OutputByteQueue) -> (r: Result<(), WriteError>) {
        output.put_byte(*self);
        Ok(())
    }
}

impl Readable for u8 {
    open spec fn spec_read(s: Seq<u8>) -> Result<(u8, int), ReadError> {
        if s.len() == 0 {
            Err(shortage())
        } else {
            Ok((s[0], 1))
        }
    }

    proof fn lemma_read_bounds(s: Seq<u8>) {
    }

    fn read(input: &mut InputByteQueue) -> (r: Result<u8, ReadError>) {
        match input.take_byte() {
            Ok(b) => Ok(b),
            Err(e) => Err(ReadError::InputQueue(e)),
        }
    }
}

impl Codec for u8 {
    open spec fn fits(v: u8) -> bool {
        true
    }

    open spec fn tail_lenient() -> bool {
        true
    }

    proof fn lemma_wire_nonempty(v: u8) {
    }

    proof fn lemma_round_trip(v: u8, rest: Seq<u8>) {
        assert((Self::spec_wire(v) + rest)[0] == v);
    }
}

impl Writable for i8 {
    open spec fn spec_wire(v: i8) -> Seq<u8> {
        seq![v as u8]
    }

    fn write(&self, output: &mut OutputByteQueue) -> (r: Result<(), WriteError>) {
        output.put_byte(*self as u8);
        Ok(())
    }
}

impl Readable for i8 {
    open spec fn spec_read(s: Seq<u8>) -> Result<(i8, int), ReadError> {
        if s.len() == 0 {
            Err(shortage())
        } else {
            Ok((s[0] as i8, 1))
        }
    }

    proof fn lemma_read_bounds(s: Seq<u8>) {
    }

    fn read(input: &mut InputByteQueue) -> (r: Result<i8, ReadError>) {
        match input.take_byte() {
            Ok(b) => Ok(b as i8),
            Err(e) => Err(ReadError::InputQueue(e)),
        }
    }
}

impl Codec for i8 {
    open spec fn fits(v: i8) -> bool {
        true
    }

    open spec fn tail_lenient() -> bool {
        true
    }

    proof fn lemma_wire_nonempty(v: i8) {
    }

    proof fn lemma_round_trip(v: i8, rest: Seq<u8>) {
        assert((Self::spec_wire(v) + rest)[0] == v as u8);
        assert((v as u8) as i8 == v) by (bit_vector);
    }
}

impl Writable for bool {
    open spec fn spec_wire(v: bool) -> Seq<u8> {
        seq![if v { 1u8 } else { 0u8 }]
    }

    fn write(&self, output: &mut OutputByteQueue) -> (r: Result<(), WriteError>) {
        let b: u8 = if *self {
            1
        } else {
            0
        };
        output.put_byte(b);
        Ok(())
    }
}

impl Readable for bool {
    open spec fn spec_read(s: Seq<u8>) -> Result<(bool, int), ReadError> {
        if s.len() == 0 {
            Err(shortage())
        } else {
            Ok((s[0] != 0, 1))
        }
    }

    proof fn lemma_read_bounds(s: Seq<u8>) {
    }

    fn read(input: &mut InputByteQueue) -> (r: Result<bool, ReadError>) {
        match input.take_byte() {
            Ok(b) => Ok(b != 0),
            Err(e) => Err(ReadError::InputQueue(e)),
        }
    }
}

impl Codec for bool {
    open spec fn fits(v: bool) -> bool {
        true
    }

    open spec fn tail_lenient() -> bool {
        true
    }

    proof fn lemma_wire_nonempty(v: bool) {
    }

    proof fn lemma_round_trip(v: bool, rest: Seq<u8>) {
        assert((Self::spec_wire(v) + rest)[0] == if v {
            1u8
        } else {
            0u8
        });
    }
}

} // verus!
