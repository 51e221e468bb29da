use vstd::prelude::*;
use vstd::slice::{slice_index_get, slice_subrange};

use crate::bytes::OutputByteQueue;
use crate::protocol::WriteError;

verus! {

/// Failure while reading a packet from a buffered slice.
#[derive(Clone, Debug, PartialEq)]
pub enum PacketReadableError {
    BytesExceeded,
    Any(String),
}

/// A synchronous, non-generic reader over an already-buffered byte slice,
/// for ad hoc packet scenarios. The view is the sequence of bytes that
/// remain to be taken.
pub struct PacketRead<'a> {
    bytes: &'a [u8],
    offset: usize,
}

impl<'a> View for PacketRead<'a> {
    type V = Seq<u8>;

    closed spec fn view(&self) -> Seq<u8> {
        self.bytes@.skip(self.offset as int)
    }
}

/// A type that can be read from a buffered packet slice.
pub trait PacketReadable<'a>: Sized {
    /// Read one value from the front of the reader.
    fn read(read: &mut PacketRead<'a>) -> Result<Self, PacketReadableError>;
}

/// A type that can be written to an output byte queue as part of a packet.
pub trait PacketWritable {
    /// The exact byte sequence the value contributes to its packet.
    spec fn packet_wire(&self) -> Seq<u8>;

    /// Append the value's wire form.
    fn write(&self, write: &mut OutputByteQueue) -> (r: Result<(), WriteError>)
        ensures
            r is Ok,
            final(write)@ == old(write)@ + self.packet_wire(),
    ;
}

impl<'a> PacketRead<'a> {
    #[verifier::type_invariant]
    closed spec fn inv(&self) -> bool {
        self.offset <= self.bytes@.len()
    }

    /// A reader over the given slice, positioned at its start.
    pub fn new(bytes: &'a [u8]) -> (r: PacketRead<'a>)
        ensures
            r@ == bytes@,
    {
        let r = PacketRead { bytes, offset: 0 };
        proof {
            assert(r@ =~= bytes@);
        }
        r
    }

    /// Take the next byte, failing if none remains.
    pub fn take_byte(&mut self) -> (r: Result<u8, PacketReadableError>)
        ensures
            old(self)@.len() == 0 ==> r == Err::<u8, PacketReadableError>(
                PacketReadableError::BytesExceeded,
            ) && final(self)@ == old(self)@,
            old(self)@.len() > 0 ==> r == Ok::<u8, PacketReadableError>(old(self)@[0])
                && final(self)@ == old(self)@.skip(1),
    {
        proof {
            use_type_invariant(&*self);
        }
        if self.offset == self.bytes.len() {
            Err(PacketReadableError::BytesExceeded)
        } else {
            let byte = *slice_index_get(self.bytes, self.offset);
            self.offset = self.offset + 1;
            proof {
                assert(self@ =~= old(self)@.skip(1));
            }
            Ok(byte)
        }
    }

    /// Take the next `length` bytes as a borrowed slice, failing (and
    /// consuming nothing) if fewer remain.
    pub fn take_slice(&mut self, length: usize) -> (r: Result<&'a [u8], PacketReadableError>)
        ensures
            old(self)@.len() >= length ==> (r matches Ok(s) && s@ == old(self)@.take(
                length as int,
            )) && final(self)@ == old(self)@.skip(length as int),
            old(self)@.len() < length ==> r == Err::<&'a [u8], PacketReadableError>(
                PacketReadableError::BytesExceeded,
            ) && final(self)@ == old(self)@,
    {
        proof {
            use_type_invariant(&*self);
        }
        if self.is_available(length) {
            let total = self.bytes.len();
            let previous_offset = self.offset;
            self.offset = self.offset + length;
            let s = slice_subrange(self.bytes, previous_offset, self.offset);
            proof {
                assert(s@ =~= old(self)@.take(length as int));
                assert(self@ =~= old(self)@.skip(length as int));
            }
            Ok(s)
        } else {
            Err(PacketReadableError::BytesExceeded)
        }
    }

    /// How many bytes remain.
    pub fn available(&self) -> (n: usize)
        ensures
            n == self@.len(),
    {
        proof {
            use_type_invariant(&*self);
        }
        self.bytes.len() - self.offset
    }

    /// Whether at least `bytes` bytes remain.
    pub fn is_available(&self, bytes: usize) -> (b: bool)
        ensures
            b == (self@.len() >= bytes),
    {
        self.available() >= bytes
    }
}

} // verus!
