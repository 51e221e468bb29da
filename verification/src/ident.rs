use vstd::prelude::*;
use vstd::slice::{slice_index_get, slice_subrange, slice_to_vec};
use vstd::utf8::{
    decode_utf8, decode_utf8_encode_utf8, encode_utf8, encode_utf8_decode_utf8,
    encode_utf8_valid_utf8, is_char_boundary_iff_not_is_continuation_byte, valid_utf8,
    valid_utf8_concat, valid_utf8_split,
};

use crate::bytes::{InputByteQueue, OutputByteQueue};
use crate::protocol::{shortage, Codec, ReadError, Readable, Writable, WriteError};
use crate::text::{read_string_with_limit, spec_string_read, string_from_utf8, STRING_LIMIT};
use crate::varnum::{lemma_pow128_unfold, lemma_var_decode_bounds, lemma_var_round_trip,
    var_decode, var_encode, VarInt};

verus! {

/// Failure while building an identifier from its text form: the text must
/// hold exactly one separating colon.
#[derive(Copy, Clone, Debug, PartialEq, Eq, Structural)]
pub enum IdentifierError {
    TooManyDoubleDots,
    NoAnyDoubleDots,
}

/// How many bytes of `s` equal `b`.
pub open spec fn count_byte(s: Seq<u8>, b: u8) -> nat
    decreases s.len(),
{
    if s.len() == 0 {
        0
    } else {
        (if s[0] == b {
            1nat
        } else {
            0nat
        }) + count_byte(s.skip(1), b)
    }
}

/// The index of the first byte of `s` that equals `b` (meaningful when one
/// occurs).
pub open spec fn first_byte_at(s: Seq<u8>, b: u8) -> int
    decreases s.len(),
{
    if s.len() == 0 {
        0
    } else if s[0] == b {
        0
    } else {
        1 + first_byte_at(s.skip(1), b)
    }
}

pub proof fn lemma_count_byte_single(x: u8, b: u8)
    ensures
        count_byte(seq![x], b) == (if x == b {
            1nat
        } else {
            0nat
        }),
{
    let s = seq![x];
    assert(s.len() == 1 && s[0] == x);
    assert(s.skip(1) =~= Seq::<u8>::empty());
    assert(count_byte(s.skip(1), b) == 0);
}

pub proof fn lemma_count_byte_concat(x: Seq<u8>, y: Seq<u8>, b: u8)
    ensures
        count_byte(x + y, b) == count_byte(x, b) + count_byte(y, b),
    decreases x.len(),
{
    if x.len() == 0 {
        assert(x + y =~= y);
    } else {
        assert((x + y).skip(1) =~= x.skip(1) + y);
        lemma_count_byte_concat(x.skip(1), y, b);
    }
}

/// Where the first `j` bytes are free of `b` and byte `j` is `b`, the first
/// occurrence is at `j`.
pub proof fn lemma_first_byte_at(s: Seq<u8>, b: u8, j: int)
    requires
        0 <= j < s.len(),
        s[j] == b,
        count_byte(s.take(j), b) == 0,
    ensures
        first_byte_at(s, b) == j,
    decreases j,
{
    if j > 0 {
        assert(s.take(j)[0] == s[0]);
        assert(s.take(j).skip(1) =~= s.skip(1).take(j - 1));
        assert(s[0] != b);
        lemma_first_byte_at(s.skip(1), b, j - 1);
    }
}

/// A colon byte alone is a valid UTF-8 encoding (of the colon character).
proof fn lemma_colon_valid_utf8()
    ensures
        valid_utf8(seq![58u8]),
        decode_utf8(seq![58u8]) == seq![':'],
{
    let s = seq![58u8];
    assert(s.len() == 1 && s[0] == 58);
    assert(58u8 & 0x7F == 58) by (bit_vector);
    assert(s.subrange(1, 1) =~= Seq::<u8>::empty());
    assert(valid_utf8(s.subrange(1, 1)));
    assert(vstd::utf8::length_of_first_scalar(s) == 1);
    assert(vstd::utf8::pop_first_scalar(s) =~= s.subrange(1, 1));
    assert(vstd::utf8::decode_first_scalar(s) == 58);
    assert(valid_utf8(s));
    assert(decode_utf8(s.subrange(1, 1)) =~= Seq::<char>::empty());
    assert(decode_utf8(s) =~= seq![(58u32) as char]);
    assert(':' as u32 == 58);
    vstd::utf8::char_u32_cast(':', 58);
}

/// The UTF-8 encoding of concatenated text is the concatenation of the
/// encodings.
pub proof fn lemma_encode_utf8_concat(a: Seq<char>, b: Seq<char>)
    ensures
        encode_utf8(a + b) == encode_utf8(a) + encode_utf8(b),
    decreases a.len(),
{
    if a.len() == 0 {
        assert(a + b =~= b);
        assert(encode_utf8(a) + encode_utf8(b) =~= encode_utf8(b));
    } else {
        assert((a + b).drop_first() =~= a.drop_first() + b);
        lemma_encode_utf8_concat(a.drop_first(), b);
        assert(encode_utf8(a + b) =~= encode_utf8(a) + encode_utf8(b));
    }
}

/// A colon character encodes to the colon byte alone.
pub proof fn lemma_encode_colon()
    ensures
        encode_utf8(seq![':']) == seq![58u8],
{
    assert(seq![':'].len() == 1 && seq![':'][0] == ':');
    assert(':' as u32 == 58);
    assert((58u32 & 0x7F) as u8 == 58u8) by (bit_vector);
    assert(vstd::utf8::encode_scalar(58) =~= seq![58u8]);
    assert(seq![':'].drop_first() =~= Seq::<char>::empty());
    assert(encode_utf8(Seq::<char>::empty()) =~= Seq::<u8>::empty());
    assert(encode_utf8(seq![':']) =~= seq![58u8]);
}

/// A namespaced name: a domain and a key, carried on the wire as the string
/// "domain:key". The text form must hold exactly one colon.
#[derive(Clone, Debug, PartialEq)]
pub struct Identifier {
    domain: String,
    key: String,
}

impl DeepView for Identifier {
    type V = (Seq<char>, Seq<char>);

    closed spec fn deep_view(&self) -> (Seq<char>, Seq<char>) {
        (self.domain@, self.key@)
    }
}

/// Decode an identifier: a length-prefixed string under the general limit
/// whose bytes hold exactly one colon; domain and key are the parts either
/// side of it.
pub open spec fn spec_identifier_read(s: Seq<u8>) -> Result<
    ((Seq<char>, Seq<char>), int),
    ReadError,
> {
    match var_decode(s, 5) {
        Err(e) => Err(e),
        Ok((lv, n)) => {
            let li = ((lv % 0x100000000) as u32) as i32;
            if li > STRING_LIMIT {
                Err(ReadError::BadStringLimit(STRING_LIMIT))
            } else {
                let count = (li as usize) as int;
                if s.len() < n + count {
                    Err(shortage())
                } else {
                    let b = s.subrange(n, n + count);
                    if !valid_utf8(b) {
                        Err(ReadError::BadUtf8)
                    } else if count_byte(b, 58) == 1 {
                        let i = first_byte_at(b, 58);
                        Ok(((decode_utf8(b.take(i)), decode_utf8(b.skip(i + 1))), n + count))
                    } else {
                        Err(ReadError::BadIdentifier)
                    }
                }
            }
        },
    }
}

impl Identifier {
    /// The domain part, before the colon.
    pub fn get_domain(&self) -> (r: &String)
        ensures
            r@ == self.deep_view().0,
    {
        &self.domain
    }

    /// The key part, after the colon.
    pub fn get_key(&self) -> (r: &String)
        ensures
            r@ == self.deep_view().1,
    {
        &self.key
    }

    /// Join a domain and key that hold no colon of their own.
    pub fn from_parts(domain: String, key: String) -> (r: Result<Identifier, IdentifierError>)
        ensures
            count_byte(encode_utf8(domain@), 58) == 0 && count_byte(encode_utf8(key@), 58) == 0
                ==> (r matches Ok(id) && id.deep_view() == (domain@, key@)),
            r matches Ok(id) ==> count_byte(encode_utf8(domain@), 58) == 0 && count_byte(
                encode_utf8(key@),
                58,
            ) == 0 && id.deep_view() == (domain@, key@),
            r matches Err(e) ==> e == IdentifierError::TooManyDoubleDots && (count_byte(
                encode_utf8(domain@),
                58,
            ) != 0 || count_byte(encode_utf8(key@), 58) != 0),
    {
        let dc = count_colons(domain.as_str().as_bytes());
        let kc = count_colons(key.as_str().as_bytes());
        if dc > 0 || kc > 0 {
            Err(IdentifierError::TooManyDoubleDots)
        } else {
            Ok(Identifier { domain, key })
        }
    }

    /// Split a full "domain:key" text at its colon, rejecting text without a
    /// colon or with more than one.
    pub fn from_full(full: String) -> (r: Result<Identifier, IdentifierError>)
        ensures
            ({
                let b = encode_utf8(full@);
                match r {
                    Ok(id) => count_byte(b, 58) == 1 && id.deep_view().0 == decode_utf8(
                        b.take(first_byte_at(b, 58)),
                    ) && id.deep_view().1 == decode_utf8(b.skip(first_byte_at(b, 58) + 1)),
                    Err(IdentifierError::NoAnyDoubleDots) => count_byte(b, 58) == 0,
                    Err(IdentifierError::TooManyDoubleDots) => count_byte(b, 58) >= 2,
                }
            }),
    {
        let bytes: &[u8] = full.as_str().as_bytes();
        let ghost b = bytes@;
        proof {
            encode_utf8_valid_utf8(full@);
        }
        let (count, first) = scan_colons(bytes);
        if count == 0 {
            Err(IdentifierError::NoAnyDoubleDots)
        } else if count >= 2 {
            Err(IdentifierError::TooManyDoubleDots)
        } else {
            proof {
                is_char_boundary_iff_not_is_continuation_byte(b, first as int);
                valid_utf8_split(b, first as int);
                assert(b.subrange(0, first as int) =~= b.take(first as int));
                let part2 = b.subrange(first as int, b.len() as int);
                assert(part2.len() > 0 && part2[0] == 58);
                assert(vstd::utf8::length_of_first_scalar(part2) == 1);
                assert(vstd::utf8::pop_first_scalar(part2) =~= b.skip(first + 1));
                assert(valid_utf8(b.skip(first + 1)));
            }
            let n = bytes.len();
            let dvec = slice_to_vec(slice_subrange(bytes, 0, first));
            let kvec = slice_to_vec(slice_subrange(bytes, first + 1, n));
            proof {
                assert(dvec@ =~= b.take(first as int));
                assert(kvec@ =~= b.skip(first + 1));
            }
            let domain = match string_from_utf8(dvec) {
                Some(s) => s,
                None => {
                    proof {
                        assert(false);
                    }
                    return Err(IdentifierError::NoAnyDoubleDots);
                },
            };
            let key = match string_from_utf8(kvec) {
                Some(s) => s,
                None => {
                    proof {
                        assert(false);
                    }
                    return Err(IdentifierError::NoAnyDoubleDots);
                },
            };
            Ok(Identifier { domain, key })
        }
    }
}

/// Count the colon bytes of a slice.
fn count_colons(bytes: &[u8]) -> (count: usize)
    ensures
        count == count_byte(bytes@, 58),
{
    let (count, _first) = scan_colons(bytes);
    count
}

/// Count the colon bytes of a slice; where at least one occurs, also yield
/// the index of the first.
fn scan_colons(bytes: &[u8]) -> (r: (usize, usize))
    ensures
        r.0 == count_byte(bytes@, 58),
        r.0 > 0 ==> r.1 < bytes@.len() && bytes@[r.1 as int] == 58 && r.1 == first_byte_at(
            bytes@,
            58,
        ),
{
    let ghost b = bytes@;
    let n = bytes.len();
    let mut count: usize = 0;
    let mut first: usize = 0;
    let mut i: usize = 0;
    proof {
        assert(b.skip(0) =~= b);
        assert(b.take(0) =~= Seq::<u8>::empty());
    }
    while i < n
        invariant
            i <= n,
            n == b.len(),
            bytes@ == b,
            count <= i,
            count as nat + count_byte(b.skip(i as int), 58) == count_byte(b, 58),
            count > 0 ==> first < i && b[first as int] == 58 && count_byte(b.take(first as int), 58)
                == 0,
            count == 0 ==> count_byte(b.take(i as int), 58) == 0,
        decreases n - i,
    {
        proof {
            assert(b.skip(i as int)[0] == b[i as int]);
            assert(b.skip(i as int).skip(1) =~= b.skip(i + 1));
            assert(b.take(i + 1) =~= b.take(i as int) + seq![b[i as int]]);
            lemma_count_byte_concat(b.take(i as int), seq![b[i as int]], 58);
            lemma_count_byte_single(b[i as int], 58);
        }
        let c = *slice_index_get(bytes, i);
        if c == 58 {
            if count == 0 {
                first = i;
            }
            count = count + 1;
        }
        i = i + 1;
    }
    proof {
        assert(b.skip(n as int) =~= Seq::<u8>::empty());
        if count > 0 {
            lemma_first_byte_at(b, 58, first as int);
        }
    }
    (count, first)
}

impl Writable for Identifier {
    open spec fn spec_wire(v: (Seq<char>, Seq<char>)) -> Seq<u8> {
        var_encode(
            ((((encode_utf8(v.0).len() + 1 + encode_utf8(v.1).len()) as usize) as i32) as u32) as nat,
        ) + encode_utf8(v.0) + seq![58u8] + encode_utf8(v.1)
    }

    fn write(&self, output: &mut OutputByteQueue) -> (r: Result<(), WriteError>) {
        let db: &[u8] = self.domain.as_str().as_bytes();
        let kb: &[u8] = self.key.as_str().as_bytes();
        let total128: u128 = db.len() as u128 + 1 + kb.len() as u128;
        let l = VarInt((total128 as usize) as i32);
        let _ = l.write(output);
        output.put_bytes(db);
        output.put_byte(58);
        output.put_bytes(kb);
        proof {
            let lw = var_encode(
                ((((encode_utf8(self.domain@).len() + 1 + encode_utf8(self.key@).len()) as usize) as i32) as u32) as nat,
            );
            assert((((old(output)@ + lw) + db@) + seq![58u8]) + kb@ =~= old(output)@ + (((lw + db@)
                + seq![58u8]) + kb@));
            assert(((lw + db@) + seq![58u8]) + kb@ =~= lw + db@ + seq![58u8] + kb@);
        }
        Ok(())
    }
}

impl Readable for Identifier {
    open spec fn spec_read(s: Seq<u8>) -> Result<((Seq<char>, Seq<char>), int), ReadError> {
        spec_identifier_read(s)
    }

    proof fn lemma_read_bounds(s: Seq<u8>) {
        lemma_var_decode_bounds(s, 5);
    }

    fn read(input: &mut InputByteQueue) -> (r: Result<Identifier, ReadError>) {
        let ghost s0 = input@;
        let full = match read_string_with_limit(input, STRING_LIMIT) {
            Ok(s) => s,
            Err(e) => {
                return Err(e);
            },
        };
        proof {
            match spec_string_read(s0, STRING_LIMIT as int) {
                Ok((cs, nn)) => {
                    let n = var_decode(s0, 5)->Ok_0.1;
                    let li = ((var_decode(s0, 5)->Ok_0.0 % 0x100000000) as u32) as i32;
                    let count = (li as usize) as int;
                    let b = s0.subrange(n, n + count);
                    decode_utf8_encode_utf8(b);
                },
                Err(e) => {},
            }
        }
        match Identifier::from_full(full) {
            Ok(id) => Ok(id),
            Err(_) => Err(ReadError::BadIdentifier),
        }
    }
}

/// The identifier's wire form is exactly the string wire form of its full
/// "domain:key" text: on the wire an identifier is indistinguishable from
/// that string.
pub proof fn lemma_identifier_wire_is_string_wire(v: (Seq<char>, Seq<char>))
    ensures
        <Identifier as Writable>::spec_wire(v) == crate::text::string_wire(
            v.0 + seq![':'] + v.1,
        ),
{
    lemma_encode_utf8_concat(v.0, seq![':']);
    lemma_encode_utf8_concat(v.0 + seq![':'], v.1);
    lemma_encode_colon();
    assert(encode_utf8(v.0 + seq![':'] + v.1) =~= encode_utf8(v.0) + seq![58u8] + encode_utf8(
        v.1,
    ));
    assert(<Identifier as Writable>::spec_wire(v) =~= crate::text::string_wire(
        v.0 + seq![':'] + v.1,
    ));
}

impl Codec for Identifier {
    open spec fn fits(v: (Seq<char>, Seq<char>)) -> bool {
        &&& count_byte(encode_utf8(v.0), 58) == 0
        &&& count_byte(encode_utf8(v.1), 58) == 0
        &&& encode_utf8(v.0).len() + 1 + encode_utf8(v.1).len() <= STRING_LIMIT
    }

    open spec fn tail_lenient() -> bool {
        true
    }

    proof fn lemma_wire_nonempty(v: (Seq<char>, Seq<char>)) {
    }

    proof fn lemma_round_trip(v: (Seq<char>, Seq<char>), rest: Seq<u8>) {
        let d = encode_utf8(v.0);
        let k = encode_utf8(v.1);
        let body = d + seq![58u8] + k;
        let bl = body.len() as nat;
        lemma_pow128_unfold();
        lemma_var_round_trip(bl, 5, body + rest);
        assert(Self::spec_wire(v) + rest =~= var_encode(bl) + (body + rest));
        let s = Self::spec_wire(v) + rest;
        let n = var_encode(bl).len() as int;
        assert(s.subrange(n, n + bl) =~= body);
        lemma_colon_valid_utf8();
        encode_utf8_valid_utf8(v.0);
        encode_utf8_valid_utf8(v.1);
        valid_utf8_concat(d, seq![58u8]);
        valid_utf8_concat(d + seq![58u8], k);
        lemma_count_byte_concat(d, seq![58u8], 58);
        lemma_count_byte_concat(d + seq![58u8], k, 58);
        lemma_count_byte_single(58u8, 58);
        assert(count_byte(body, 58) == 1);
        assert(body.take(d.len() as int) =~= d);
        lemma_first_byte_at(body, 58, d.len() as int);
        assert(body.skip(d.len() as int + 1) =~= k);
        encode_utf8_decode_utf8(v.0);
        encode_utf8_decode_utf8(v.1);
    }
}

} // verus!
