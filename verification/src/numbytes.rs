use vstd::arithmetic::div_mod::lemma_fundamental_div_mod;
use vstd::prelude::*;

use crate::bytes::{InputByteQueue, OutputByteQueue};
use crate::protocol::{shortage, Codec, ReadError, Readable, Writable, WriteError};

verus! {

/// 256 raised to the power `n`.
pub open spec fn pow256(n: nat) -> nat
    decreases n,
{
    if n == 0 {
        1
    } else {
        256 * pow256((n - 1) as nat)
    }
}

/// The `n` little-endian bytes of `v` (low byte first).
pub open spec fn le_of(v: nat, n: nat) -> Seq<u8>
    decreases n,
{
    if n == 0 {
        Seq::empty()
    } else {
        seq![(v % 256) as u8] + le_of(v / 256, (n - 1) as nat)
    }
}

/// The value denoted by a little-endian byte sequence.
pub open spec fn le_val(s: Seq<u8>) -> nat
    decreases s.len(),
{
    if s.len() == 0 {
        0
    } else {
        (s[0] as nat) + 256 * le_val(s.skip(1))
    }
}

/// The `n` big-endian bytes of `v` (high byte first).
pub open spec fn be_of(v: nat, n: nat) -> Seq<u8>
    decreases n,
{
    if n == 0 {
        Seq::empty()
    } else {
        be_of(v / 256, (n - 1) as nat) + seq![(v % 256) as u8]
    }
}

/// The value denoted by a big-endian byte sequence.
pub open spec fn be_val(s: Seq<u8>) -> nat
    decreases s.len(),
{
    if s.len() == 0 {
        0
    } else {
        256 * be_val(s.drop_last()) + (s.last() as nat)
    }
}

pub proof fn lemma_pow256_unfold()
    ensures
        pow256(0) == 1,
        pow256(1) == 0x100,
        pow256(2) == 0x10000,
        pow256(4) == 0x100000000,
        pow256(8) == 0x10000000000000000,
        pow256(16) == 0x100000000000000000000000000000000,
{
    assert(pow256(1) == 256 * pow256(0));
    assert(pow256(2) == 256 * pow256(1));
    assert(pow256(3) == 256 * pow256(2));
    assert(pow256(4) == 256 * pow256(3));
    assert(pow256(5) == 256 * pow256(4));
    assert(pow256(6) == 256 * pow256(5));
    assert(pow256(7) == 256 * pow256(6));
    assert(pow256(8) == 256 * pow256(7));
    assert(pow256(9) == 256 * pow256(8));
    assert(pow256(10) == 256 * pow256(9));
    assert(pow256(11) == 256 * pow256(10));
    assert(pow256(12) == 256 * pow256(11));
    assert(pow256(13) == 256 * pow256(12));
    assert(pow256(14) == 256 * pow256(13));
    assert(pow256(15) == 256 * pow256(14));
    assert(pow256(16) == 256 * pow256(15));
}

pub proof fn lemma_pow256_le(a: nat, b: nat)
    requires
        a <= b,
    ensures
        pow256(a) <= pow256(b),
    decreases b,
{
    if a < b {
        lemma_pow256_le(a, (b - 1) as nat);
    }
}

pub proof fn lemma_le_of_len(v: nat, n: nat)
    ensures
        le_of(v, n).len() == n,
    decreases n,
{
    if n > 0 {
        lemma_le_of_len(v / 256, (n - 1) as nat);
    }
}

pub proof fn lemma_be_of_len(v: nat, n: nat)
    ensures
        be_of(v, n).len() == n,
    decreases n,
{
    if n > 0 {
        lemma_be_of_len(v / 256, (n - 1) as nat);
    }
}

/// Decoding the little-endian bytes of `v` yields `v` back.
pub proof fn lemma_le_val_le_of(v: nat, n: nat)
    requires
        v < pow256(n),
    ensures
        le_val(le_of(v, n)) == v,
    decreases n,
{
    if n > 0 {
        lemma_le_of_len(v / 256, (n - 1) as nat);
        assert(le_of(v, n).skip(1) =~= le_of(v / 256, (n - 1) as nat));
        let p = pow256((n - 1) as nat);
        assert(v < 256 * p ==> v / 256 < p) by (nonlinear_arith);
        lemma_le_val_le_of(v / 256, (n - 1) as nat);
        lemma_fundamental_div_mod(v as int, 256);
    }
}

/// Decoding the big-endian bytes of `v` yields `v` back.
pub proof fn lemma_be_val_be_of(v: nat, n: nat)
    requires
        v < pow256(n),
    ensures
        be_val(be_of(v, n)) == v,
    decreases n,
{
    if n > 0 {
        lemma_be_of_len(v / 256, (n - 1) as nat);
        assert(be_of(v, n).drop_last() =~= be_of(v / 256, (n - 1) as nat));
        assert(be_of(v, n).last() == (v % 256) as u8);
        let p = pow256((n - 1) as nat);
        assert(v < 256 * p ==> v / 256 < p) by (nonlinear_arith);
        lemma_be_val_be_of(v / 256, (n - 1) as nat);
        lemma_fundamental_div_mod(v as int, 256);
    }
}

/// A little-endian byte sequence of length `n` denotes a value below 256^n.
pub proof fn lemma_le_val_bound(s: Seq<u8>)
    ensures
        le_val(s) < pow256(s.len()),
    decreases s.len(),
{
    if s.len() > 0 {
        lemma_le_val_bound(s.skip(1));
    }
}

/// A big-endian byte sequence of length `n` denotes a value below 256^n.
pub proof fn lemma_be_val_bound(s: Seq<u8>)
    ensures
        be_val(s) < pow256(s.len()),
    decreases s.len(),
{
    if s.len() > 0 {
        lemma_be_val_bound(s.drop_last());
    }
}

/// Append the `n` little-endian bytes of `v`.
pub fn put_le(output: &mut OutputByteQueue, v: u128, n: usize)
    ensures
        final(output)@ == old(output)@ + le_of(v as nat, n as nat),
{
    let mut val = v;
    let mut i: usize = 0;
    while i < n
        invariant
            i <= n,
            old(output)@ + le_of(v as nat, n as nat) =~= output@ + le_of(
                val as nat,
                (n - i) as nat,
            ),
        decreases n - i,
    {
        proof {
            assert(le_of(val as nat, (n - i) as nat) == seq![((val as nat) % 256) as u8] + le_of(
                (val as nat) / 256,
                (n - i - 1) as nat,
            ));
            assert((output@ + seq![(val % 256) as u8]) + le_of((val as nat) / 256, (n - i - 1) as nat)
                =~= output@ + (seq![(val % 256) as u8] + le_of((val as nat) / 256, (n - i - 1) as nat)));
        }
        output.put_byte((val % 256) as u8);
        val = val / 256;
        i = i + 1;
    }
    proof {
        assert(output@ + le_of(val as nat, 0) =~= output@);
        assert(final(output)@ =~= old(output)@ + le_of(v as nat, n as nat));
    }
}

/// Append the `n` big-endian bytes of `v`.
pub fn put_be(output: &mut OutputByteQueue, v: u128, n: usize)
    ensures
        final(output)@ == old(output)@ + be_of(v as nat, n as nat),
    decreases n,
{
    if n > 0 {
        put_be(output, v / 256, n - 1);
        output.put_byte((v % 256) as u8);
        proof {
            assert((old(output)@ + be_of((v as nat) / 256, (n - 1) as nat)) + seq![(v % 256) as u8]
                =~= old(output)@ + (be_of((v as nat) / 256, (n - 1) as nat) + seq![(v % 256) as u8]));
        }
    } else {
        proof {
            assert(output@ + be_of(v as nat, 0) =~= output@);
        }
    }
}

/// Take `n` bytes and decode them as a little-endian value.
pub fn take_le(input: &mut InputByteQueue, n: usize) -> (r: Result<u128, ReadError>)
    requires
        n <= 16,
    ensures
        old(input)@.len() >= n ==> (r matches Ok(v) && v as nat == le_val(
            old(input)@.take(n as int),
        )) && final(input)@ == old(input)@.skip(n as int),
        old(input)@.len() < n ==> r == Err::<u128, ReadError>(shortage()) && final(input)@ == old(
            input,
        )@,
    {
    match input.take_bytes(n) {
        Err(_) => Err(ReadError::InputQueue(crate::bytes::InputByteQueueError::NoBytes)),
        Ok(bytes) => {
            let ghost full = bytes@;
            let mut acc: u128 = 0;
            let mut i: usize = n;
            proof {
                assert(full.skip(n as int) =~= Seq::<u8>::empty());
            }
            while i > 0
                invariant
                    i <= n,
                    n <= 16,
                    bytes@ == full,
                    full.len() == n,
                    acc as nat == le_val(full.skip(i as int)),
                    acc < pow256((n - i) as nat),
                decreases i,
            {
                i = i - 1;
                let b = bytes[i];
                proof {
                    assert(full.skip(i as int)[0] == full[i as int]);
                    assert(full.skip(i as int).skip(1) =~= full.skip(i + 1));
                    lemma_pow256_le((n - i - 1) as nat, 15);
                    lemma_pow256_unfold();
                }
                acc = (b as u128) + 256 * acc;
            }
            proof {
                assert(full.skip(0) =~= full);
            }
            Ok(acc)
        },
    }
}

/// Take `n` bytes and decode them as a big-endian value.
pub fn take_be(input: &mut InputByteQueue, n: usize) -> (r: Result<u128, ReadError>)
    requires
        n <= 16,
    ensures
        old(input)@.len() >= n ==> (r matches Ok(v) && v as nat == be_val(
            old(input)@.take(n as int),
        )) && final(input)@ == old(input)@.skip(n as int),
        old(input)@.len() < n ==> r == Err::<u128, ReadError>(shortage()) && final(input)@ == old(
            input,
        )@,
    {
    match input.take_bytes(n) {
        Err(_) => Err(ReadError::InputQueue(crate::bytes::InputByteQueueError::NoBytes)),
        Ok(bytes) => {
            let ghost full = bytes@;
            let mut acc: u128 = 0;
            let mut i: usize = 0;
            proof {
                assert(full.take(0) =~= Seq::<u8>::empty());
            }
            while i < n
                invariant
                    i <= n,
                    n <= 16,
                    bytes@ == full,
                    full.len() == n,
                    acc as nat == be_val(full.take(i as int)),
                    acc < pow256(i as nat),
                decreases n - i,
            {
                let b = bytes[i];
                proof {
                    assert(full.take(i + 1).drop_last() =~= full.take(i as int));
                    assert(full.take(i + 1).last() == full[i as int]);
                    lemma_pow256_le(i as nat, 15);
                    lemma_pow256_unfold();
                }
                acc = 256 * acc + (b as u128);
                i = i + 1;
            }
            proof {
                assert(full.take(n as int) =~= full);
            }
            Ok(acc)
        },
    }
}


impl Writable for u16 {
    open spec fn spec_wire(v: u16) -> Seq<u8> {
        le_of(v as nat, 2)
    }

    fn write(&self, output: &mut OutputByteQueue) -> (r: Result<(), WriteError>) {
        put_le(output, *self as u128, 2);
        Ok(())
    }
}

impl Readable for u16 {
    open spec fn spec_read(s: Seq<u8>) -> Result<(u16, int), ReadError> {
        if s.len() < 2 {
            Err(shortage())
        } else {
            Ok((le_val(s.take(2)) as u16, 2))
        }
    }

    proof fn lemma_read_bounds(s: Seq<u8>) {
    }

    fn read(input: &mut InputByteQueue) -> (r: Result<u16, ReadError>) {
        match take_le(input, 2) {
            Err(e) => Err(e),
            Ok(v) => {
                proof {
                    lemma_le_val_bound(old(input)@.take(2));
                    lemma_pow256_unfold();
                }
                Ok(v as u16)
            },
        }
    }
}

impl Codec for u16 {
    open spec fn fits(v: u16) -> bool {
        true
    }

    open spec fn tail_lenient() -> bool {
        true
    }

    proof fn lemma_wire_nonempty(v: u16) {
        lemma_le_of_len(v as nat, 2);
    }

    proof fn lemma_round_trip(v: u16, rest: Seq<u8>) {
        lemma_le_of_len(v as nat, 2);
        lemma_pow256_unfold();
        assert((le_of(v as nat, 2) + rest).take(2) =~= le_of(v as nat, 2));
        lemma_le_val_le_of(v as nat, 2);
    }
}

impl Writable for i16 {
    open spec fn spec_wire(v: i16) -> Seq<u8> {
        le_of((v as u16) as nat, 2)
    }

    fn write(&self, output: &mut OutputByteQueue) -> (r: Result<(), WriteError>) {
        put_le(output, (*self as u16) as u128, 2);
        Ok(())
    }
}

impl Readable for i16 {
    open spec fn spec_read(s: Seq<u8>) -> Result<(i16, int), ReadError> {
        if s.len() < 2 {
            Err(shortage())
        } else {
            Ok(((le_val(s.take(2)) as u16) as i16, 2))
        }
    }

    proof fn lemma_read_bounds(s: Seq<u8>) {
    }

    fn read(input: &mut InputByteQueue) -> (r: Result<i16, ReadError>) {
        match take_le(input, 2) {
            Err(e) => Err(e),
            Ok(v) => {
                proof {
                    lemma_le_val_bound(old(input)@.take(2));
                    lemma_pow256_unfold();
                }
                Ok((v as u16) as i16)
            },
        }
    }
}

impl Codec for i16 {
    open spec fn fits(v: i16) -> bool {
        true
    }

    open spec fn tail_lenient() -> bool {
        true
    }

    proof fn lemma_wire_nonempty(v: i16) {
        lemma_le_of_len((v as u16) as nat, 2);
    }

    proof fn lemma_round_trip(v: i16, rest: Seq<u8>) {
        lemma_le_of_len((v as u16) as nat, 2);
        lemma_pow256_unfold();
        assert((le_of((v as u16) as nat, 2) + rest).take(2) =~= le_of((v as u16) as nat, 2));
        lemma_le_val_le_of((v as u16) as nat, 2);
        assert(((v as u16) as i16) == v) by (bit_vector);
    }
}

impl Writable for u32 {
    open spec fn spec_wire(v: u32) -> Seq<u8> {
        le_of(v as nat, 4)
    }

    fn write(&self, output: &mut OutputByteQueue) -> (r: Result<(), WriteError>) {
        put_le(output, *self as u128, 4);
        Ok(())
    }
}

impl Readable for u32 {
    open spec fn spec_read(s: Seq<u8>) -> Result<(u32, int), ReadError> {
        if s.len() < 4 {
            Err(shortage())
        } else {
            Ok((le_val(s.take(4)) as u32, 4))
        }
    }

    proof fn lemma_read_bounds(s: Seq<u8>) {
    }

    fn read(input: &mut InputByteQueue) -> (r: Result<u32, ReadError>) {
        match take_le(input, 4) {
            Err(e) => Err(e),
            Ok(v) => {
                proof {
                    lemma_le_val_bound(old(input)@.take(4));
                    lemma_pow256_unfold();
                }
                Ok(v as u32)
            },
        }
    }
}

impl Codec for u32 {
    open spec fn fits(v: u32) -> bool {
        true
    }

    open spec fn tail_lenient() -> bool {
        true
    }

    proof fn lemma_wire_nonempty(v: u32) {
        lemma_le_of_len(v as nat, 4);
    }

    proof fn lemma_round_trip(v: u32, rest: Seq<u8>) {
        lemma_le_of_len(v as nat, 4);
        lemma_pow256_unfold();
        assert((le_of(v as nat, 4) + rest).take(4) =~= le_of(v as nat, 4));
        lemma_le_val_le_of(v as nat, 4);
    }
}

impl Writable for i32 {
    open spec fn spec_wire(v: i32) -> Seq<u8> {
        le_of((v as u32) as nat, 4)
    }

    fn write(&self, output: &mut OutputByteQueue) -> (r: Result<(), WriteError>) {
        put_le(output, (*self as u32) as u128, 4);
        Ok(())
    }
}

impl Readable for i32 {
    open spec fn spec_read(s: Seq<u8>) -> Result<(i32, int), ReadError> {
        if s.len() < 4 {
            Err(shortage())
        } else {
            Ok(((le_val(s.take(4)) as u32) as i32, 4))
        }
    }

    proof fn lemma_read_bounds(s: Seq<u8>) {
    }

    fn read(input: &mut InputByteQueue) -> (r: Result<i32, ReadError>) {
        match take_le(input, 4) {
            Err(e) => Err(e),
            Ok(v) => {
                proof {
                    lemma_le_val_bound(old(input)@.take(4));
                    lemma_pow256_unfold();
                }
                Ok((v as u32) as i32)
            },
        }
    }
}

impl Codec for i32 {
    open spec fn fits(v: i32) -> bool {
        true
    }

    open spec fn tail_lenient() -> bool {
        true
    }

    proof fn lemma_wire_nonempty(v: i32) {
        lemma_le_of_len((v as u32) as nat, 4);
    }

    proof fn lemma_round_trip(v: i32, rest: Seq<u8>) {
        lemma_le_of_len((v as u32) as nat, 4);
        lemma_pow256_unfold();
        assert((le_of((v as u32) as nat, 4) + rest).take(4) =~= le_of((v as u32) as nat, 4));
        lemma_le_val_le_of((v as u32) as nat, 4);
        assert(((v as u32) as i32) == v) by (bit_vector);
    }
}

impl Writable for u64 {
    open spec fn spec_wire(v: u64) -> Seq<u8> {
        le_of(v as nat, 8)
    }

    fn write(&self, output: &mut OutputByteQueue) -> (r: Result<(), WriteError>) {
        put_le(output, *self as u128, 8);
        Ok(())
    }
}

impl Readable for u64 {
    open spec fn spec_read(s: Seq<u8>) -> Result<(u64, int), ReadError> {
        if s.len() < 8 {
            Err(shortage())
        } else {
            Ok((le_val(s.take(8)) as u64, 8))
        }
    }

    proof fn lemma_read_bounds(s: Seq<u8>) {
    }

    fn read(input: &mut InputByteQueue) -> (r: Result<u64, ReadError>) {
        match take_le(input, 8) {
            Err(e) => Err(e),
            Ok(v) => {
                proof {
                    lemma_le_val_bound(old(input)@.take(8));
                    lemma_pow256_unfold();
                }
                Ok(v as u64)
            },
        }
    }
}

impl Codec for u64 {
    open spec fn fits(v: u64) -> bool {
        true
    }

    open spec fn tail_lenient() -> bool {
        true
    }

    proof fn lemma_wire_nonempty(v: u64) {
        lemma_le_of_len(v as nat, 8);
    }

    proof fn lemma_round_trip(v: u64, rest: Seq<u8>) {
        lemma_le_of_len(v as nat, 8);
        lemma_pow256_unfold();
        assert((le_of(v as nat, 8) + rest).take(8) =~= le_of(v as nat, 8));
        lemma_le_val_le_of(v as nat, 8);
    }
}

impl Writable for i64 {
    open spec fn spec_wire(v: i64) -> Seq<u8> {
        le_of((v as u64) as nat, 8)
    }

    fn write(&self, output: &mut OutputByteQueue) -> (r: Result<(), WriteError>) {
        put_le(output, (*self as u64) as u128, 8);
        Ok(())
    }
}

impl Readable for i64 {
    open spec fn spec_read(s: Seq<u8>) -> Result<(i64, int), ReadError> {
        if s.len() < 8 {
            Err(shortage())
        } else {
            Ok(((le_val(s.take(8)) as u64) as i64, 8))
        }
    }

    proof fn lemma_read_bounds(s: Seq<u8>) {
    }

    fn read(input: &mut InputByteQueue) -> (r: Result<i64, ReadError>) {
        match take_le(input, 8) {
            Err(e) => Err(e),
            Ok(v) => {
                proof {
                    lemma_le_val_bound(old(input)@.take(8));
                    lemma_pow256_unfold();
                }
                Ok((v as u64) as i64)
            },
        }
    }
}

impl Codec for i64 {
    open spec fn fits(v: i64) -> bool {
        true
    }

    open spec fn tail_lenient() -> bool {
        true
    }

    proof fn lemma_wire_nonempty(v: i64) {
        lemma_le_of_len((v as u64) as nat, 8);
    }

    proof fn lemma_round_trip(v: i64, rest: Seq<u8>) {
        lemma_le_of_len((v as u64) as nat, 8);
        lemma_pow256_unfold();
        assert((le_of((v as u64) as nat, 8) + rest).take(8) =~= le_of((v as u64) as nat, 8));
        lemma_le_val_le_of((v as u64) as nat, 8);
        assert(((v as u64) as i64) == v) by (bit_vector);
    }
}

impl Writable for u128 {
    open spec fn spec_wire(v: u128) -> Seq<u8> {
        le_of(v as nat, 16)
    }

    fn write(&self, output: &mut OutputByteQueue) -> (r: Result<(), WriteError>) {
        put_le(output, *self as u128, 16);
        Ok(())
    }
}

impl Readable for u128 {
    open spec fn spec_read(s: Seq<u8>) -> Result<(u128, int), ReadError> {
        if s.len() < 16 {
            Err(shortage())
        } else {
            Ok((le_val(s.take(16)) as u128, 16))
        }
    }

    proof fn lemma_read_bounds(s: Seq<u8>) {
    }

    fn read(input: &mut InputByteQueue) -> (r: Result<u128, ReadError>) {
        match take_le(input, 16) {
            Err(e) => Err(e),
            Ok(v) => {
                proof {
                    lemma_le_val_bound(old(input)@.take(16));
                    lemma_pow256_unfold();
                }
                Ok(v as u128)
            },
        }
    }
}

impl Codec for u128 {
    open spec fn fits(v: u128) -> bool {
        true
    }

    open spec fn tail_lenient() -> bool {
        true
    }

    proof fn lemma_wire_nonempty(v: u128) {
        lemma_le_of_len(v as nat, 16);
    }

    proof fn lemma_round_trip(v: u128, rest: Seq<u8>) {
        lemma_le_of_len(v as nat, 16);
        lemma_pow256_unfold();
        assert((le_of(v as nat, 16) + rest).take(16) =~= le_of(v as nat, 16));
        lemma_le_val_le_of(v as nat, 16);
    }
}

impl Writable for i128 {
    open spec fn spec_wire(v: i128) -> Seq<u8> {
        le_of((v as u128) as nat, 16)
    }

    fn write(&self, output: &mut OutputByteQueue) -> (r: Result<(), WriteError>) {
        put_le(output, (*self as u128) as u128, 16);
        Ok(())
    }
}

impl Readable for i128 {
    open spec fn spec_read(s: Seq<u8>) -> Result<(i128, int), ReadError> {
        if s.len() < 16 {
            Err(shortage())
        } else {
            Ok(((le_val(s.take(16)) as u128) as i128, 16))
        }
    }

    proof fn lemma_read_bounds(s: Seq<u8>) {
    }

    fn read(input: &mut InputByteQueue) -> (r: Result<i128, ReadError>) {
        match take_le(input, 16) {
            Err(e) => Err(e),
            Ok(v) => {
                proof {
                    lemma_le_val_bound(old(input)@.take(16));
                    lemma_pow256_unfold();
                }
                Ok((v as u128) as i128)
            },
        }
    }
}

impl Codec for i128 {
    open spec fn fits(v: i128) -> bool {
        true
    }

    open spec fn tail_lenient() -> bool {
        true
    }

    proof fn lemma_wire_nonempty(v: i128) {
        lemma_le_of_len((v as u128) as nat, 16);
    }

    proof fn lemma_round_trip(v: i128, rest: Seq<u8>) {
        lemma_le_of_len((v as u128) as nat, 16);
        lemma_pow256_unfold();
        assert((le_of((v as u128) as nat, 16) + rest).take(16) =~= le_of((v as u128) as nat, 16));
        lemma_le_val_le_of((v as u128) as nat, 16);
        assert(((v as u128) as i128) == v) by (bit_vector);
    }
}

/// A truncated buffer never yields a fixed-width value: fewer bytes than the
/// width decode to the queue-shortage error, at every width.
pub proof fn lemma_truncated_fixed_reads_fail(s: Seq<u8>)
    ensures
        s.len() < 2 ==> <u16 as Readable>::spec_read(s) == Err::<(u16, int), ReadError>(shortage())
            && <i16 as Readable>::spec_read(s) == Err::<(i16, int), ReadError>(shortage()),
        s.len() < 4 ==> <u32 as Readable>::spec_read(s) == Err::<(u32, int), ReadError>(shortage())
            && <i32 as Readable>::spec_read(s) == Err::<(i32, int), ReadError>(shortage()),
        s.len() < 8 ==> <u64 as Readable>::spec_read(s) == Err::<(u64, int), ReadError>(shortage())
            && <i64 as Readable>::spec_read(s) == Err::<(i64, int), ReadError>(shortage()),
        s.len() < 16 ==> <u128 as Readable>::spec_read(s) == Err::<(u128, int), ReadError>(
            shortage(),
        ) && <i128 as Readable>::spec_read(s) == Err::<(i128, int), ReadError>(shortage()),
{
}

} // verus!
