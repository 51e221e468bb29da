use vstd::prelude::*;
use vstd::utf8::{decode_utf8, encode_utf8, encode_utf8_decode_utf8, encode_utf8_valid_utf8,
    valid_utf8};

use crate::bytes::{InputByteQueue, InputByteQueueError, OutputByteQueue};
use crate::protocol::{shortage, Codec, ReadError, Readable, Writable, WriteError};
use crate::varnum::{lemma_pow128_unfold, lemma_var_consumed, lemma_var_decode_bounds,
    lemma_var_round_trip, take_var, var_consumed, var_decode, var_encode, VarInt};

verus! {

/// The longest byte length a general-purpose string field may declare.
pub const STRING_LIMIT: i32 = 32767;

/// The longest byte length a structured-text (chat) field may declare.
pub const CHAT_LIMIT: i32 = 262144;

/// The wire form of a string: the VarInt byte length of its UTF-8 form,
/// then the UTF-8 bytes themselves.
pub open spec fn string_wire(v: Seq<char>) -> Seq<u8> {
    var_encode(((((encode_utf8(v).len() as usize) as i32) as u32)) as nat) + encode_utf8(v)
}

/// Decode a length-prefixed UTF-8 string whose declared byte length must not
/// exceed `limit`: the exact value decoded and bytes consumed, or the exact
/// error (limit exceeded, invalid UTF-8, or queue shortage).
pub open spec fn spec_string_read(s: Seq<u8>, limit: int) -> Result<(Seq<char>, int), ReadError> {
    match var_decode(s, 5) {
        Err(e) => Err(e),
        Ok((lv, n)) => {
            let li = ((lv % 0x100000000) as u32) as i32;
            if li > limit {
                Err(ReadError::BadStringLimit(limit as i32))
            } else {
                let count = (li as usize) as int;
                if s.len() < n + count {
                    Err(shortage())
                } else {
                    let b = s.subrange(n, n + count);
                    if valid_utf8(b) {
                        Ok((decode_utf8(b), n + count))
                    } else {
                        Err(ReadError::BadUtf8)
                    }
                }
            }
        },
    }
}

/// Bytes a limited string read consumes, on success and on failure alike:
/// the length prefix as far as it was examined; on a limit error or a
/// payload shortage exactly the prefix; on success or invalid UTF-8 the
/// prefix and the whole declared payload.
pub open spec fn spec_string_consumed(s: Seq<u8>, limit: int) -> int {
    match var_decode(s, 5) {
        Err(e) => var_consumed(s, 5),
        Ok((lv, n)) => {
            let li = ((lv % 0x100000000) as u32) as i32;
            if li > limit {
                n
            } else {
                let count = (li as usize) as int;
                if s.len() < n + count {
                    n
                } else {
                    n + count
                }
            }
        },
    }
}

/// Relies on String::from_utf8: it succeeds exactly on valid UTF-8 input,
/// and the string it returns decodes those bytes, per vstd's UTF-8 model.
#[verifier::external_body]
pub(crate) fn string_from_utf8(v: Vec<u8>) -> (r: Option<String>)
    ensures
        match r {
            Some(s) => valid_utf8(v@) && s@ == decode_utf8(v@),
            None => !valid_utf8(v@),
        },
{
    String::from_utf8(v).ok()
}

/// Read a length-prefixed UTF-8 string, rejecting a declared byte length
/// above `limit`.
pub fn read_string_with_limit(input: &mut InputByteQueue, limit: i32) -> (r: Result<
    String,
    ReadError,
>)
    ensures
        match spec_string_read(old(input)@, limit as int) {
            Ok((cs, n)) => (r matches Ok(sv) && sv@ == cs) && final(input)@ == old(input)@.skip(n),
            Err(e) => r matches Err(e2) && e2 == e,
        },
        final(input)@ == old(input)@.skip(spec_string_consumed(old(input)@, limit as int)),
        final(input)@.len() <= old(input)@.len(),
{
    let ghost s0 = input@;
    proof {
        lemma_var_consumed(s0, 5);
    }
    let (lv, _nvar) = match take_var(input, 5) {
        Ok(p) => p,
        Err(e) => {
            return Err(e);
        },
    };
    let li: i32 = ((lv % 0x100000000) as u32) as i32;
    if li > limit {
        return Err(ReadError::BadStringLimit(limit));
    }
    let count = li as usize;
    let bytes = match input.take_bytes(count) {
        Ok(b) => b,
        Err(_) => {
            proof {
                lemma_var_decode_bounds(s0, 5);
            }
            return Err(ReadError::InputQueue(InputByteQueueError::NoBytes));
        },
    };
    proof {
        lemma_var_decode_bounds(s0, 5);
        let n = var_decode(s0, 5)->Ok_0.1;
        assert(s0.skip(n).take(count as int) =~= s0.subrange(n, n + count));
        assert(s0.skip(n).skip(count as int) =~= s0.skip(n + count));
    }
    match string_from_utf8(bytes) {
        Some(st) => Ok(st),
        None => Err(ReadError::BadUtf8),
    }
}

impl Writable for String {
    open spec fn spec_wire(v: Seq<char>) -> Seq<u8> {
        string_wire(v)
    }

    fn write(&self, output: &mut OutputByteQueue) -> (r: Result<(), WriteError>) {
        let bytes: &[u8] = self.as_str().as_bytes();
        let l = VarInt(bytes.len() as i32);
        let _ = l.write(output);
        output.put_bytes(bytes);
        proof {
            assert((old(output)@ + var_encode((((bytes@.len() as usize) as i32) as u32) as nat))
                + bytes@ =~= old(output)@ + (var_encode(
                (((bytes@.len() as usize) as i32) as u32) as nat,
            ) + bytes@));
        }
        Ok(())
    }
}

impl Readable for String {
    open spec fn spec_read(s: Seq<u8>) -> Result<(Seq<char>, int), ReadError> {
        spec_string_read(s, STRING_LIMIT as int)
    }

    proof fn lemma_read_bounds(s: Seq<u8>) {
        lemma_var_decode_bounds(s, 5);
    }

    fn read(input: &mut InputByteQueue) -> (r: Result<String, ReadError>)
        ensures
            final(input)@ == old(input)@.skip(
                spec_string_consumed(old(input)@, STRING_LIMIT as int),
            ),
    {
        read_string_with_limit(input, STRING_LIMIT)
    }
}

/// Round trip of the string wire form at any limit the byte length stays
/// within: decoding the encoding of `v`, with anything after it, yields `v`
/// back and consumes exactly the encoding.
pub proof fn lemma_string_round_trip(v: Seq<char>, limit: int, rest: Seq<u8>)
    requires
        0 <= limit <= 0x7fffffff,
        encode_utf8(v).len() <= limit,
    ensures
        spec_string_read(string_wire(v) + rest, limit) == Ok::<(Seq<char>, int), ReadError>(
            (v, string_wire(v).len() as int),
        ),
{
    let b = encode_utf8(v);
    let bl = b.len() as nat;
    lemma_pow128_unfold();
    lemma_var_round_trip(bl, 5, b + rest);
    assert(string_wire(v) + rest =~= var_encode(bl) + (b + rest));
    let s = string_wire(v) + rest;
    let n = var_encode(bl).len() as int;
    assert(s.subrange(n, n + bl) =~= b);
    encode_utf8_valid_utf8(v);
    encode_utf8_decode_utf8(v);
}

/// The size limit is a denial-of-service guard: a declared byte length
/// above the limit is rejected outright, however many bytes are present.
pub proof fn lemma_string_limit_rejected(s: Seq<u8>, limit: int, lv: nat, n: int)
    requires
        var_decode(s, 5) == Ok::<(nat, int), ReadError>((lv, n)),
        ((lv % 0x100000000) as u32) as i32 > limit,
    ensures
        spec_string_read(s, limit) == Err::<(Seq<char>, int), ReadError>(
            ReadError::BadStringLimit(limit as i32),
        ),
{
}

impl Codec for String {
    open spec fn fits(v: Seq<char>) -> bool {
        encode_utf8(v).len() <= STRING_LIMIT
    }

    open spec fn tail_lenient() -> bool {
        true
    }

    proof fn lemma_wire_nonempty(v: Seq<char>) {
    }

    proof fn lemma_round_trip(v: Seq<char>, rest: Seq<u8>) {
        lemma_string_round_trip(v, STRING_LIMIT as int, rest);
    }
}

} // verus!
