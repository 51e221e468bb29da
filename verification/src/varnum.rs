use vstd::arithmetic::div_mod::lemma_fundamental_div_mod;
use vstd::prelude::*;

use crate::bytes::{InputByteQueue, InputByteQueueError, OutputByteQueue};
use crate::protocol::{shortage, Codec, ReadError, Readable, SizeNumber, Writable, WriteError};

verus! {

/// 128 raised to the power `n`.
pub open spec fn pow128(n: nat) -> nat
    decreases n,
{
    if n == 0 {
        1
    } else {
        128 * pow128((n - 1) as nat)
    }
}

pub proof fn lemma_pow128_unfold()
    ensures
        pow128(5) == 0x800000000,
        pow128(9) == 0x8000000000000000,
        pow128(10) == 0x400000000000000000,
{
    assert(pow128(1) == 128 * pow128(0));
    assert(pow128(2) == 128 * pow128(1));
    assert(pow128(3) == 128 * pow128(2));
    assert(pow128(4) == 128 * pow128(3));
    assert(pow128(5) == 128 * pow128(4));
    assert(pow128(6) == 128 * pow128(5));
    assert(pow128(7) == 128 * pow128(6));
    assert(pow128(8) == 128 * pow128(7));
    assert(pow128(9) == 128 * pow128(8));
    assert(pow128(10) == 128 * pow128(9));
}

pub proof fn lemma_pow128_le(a: nat, b: nat)
    requires
        a <= b,
    ensures
        pow128(a) <= pow128(b),
    decreases b,
{
    if a < b {
        lemma_pow128_le(a, (b - 1) as nat);
    }
}

/// The variable-length wire form of `v`: 7-bit groups, low group first, the
/// high bit of each byte marking that more groups follow.
pub open spec fn var_encode(v: nat) -> Seq<u8>
    decreases v,
{
    if v < 128 {
        seq![v as u8]
    } else {
        seq![(v % 128 + 128) as u8] + var_encode(v / 128)
    }
}

/// Decode a variable-length integer of at most `max_groups` 7-bit groups from
/// the front of `s`: the accumulated value and the bytes consumed, or the
/// exact error (`BadVarNum` when the group count would exceed the width).
pub open spec fn var_decode(s: Seq<u8>, max_groups: nat) -> Result<(nat, int), ReadError>
    decreases max_groups,
{
    if max_groups == 0 {
        Err(ReadError::BadVarNum)
    } else if s.len() == 0 {
        Err(shortage())
    } else if s[0] < 128 {
        Ok(((s[0] as nat), 1))
    } else {
        match var_decode(s.skip(1), (max_groups - 1) as nat) {
            Ok((v, n)) => Ok((((s[0] - 128) as nat) + 128 * v, n + 1)),
            Err(e) => Err(e),
        }
    }
}

/// Bytes a variable-length decode examines, on success and on failure
/// alike: every continuation byte read, plus the terminal byte where one was
/// reached. Nothing is read once the group limit or the end of the queue is
/// hit.
pub open spec fn var_consumed(s: Seq<u8>, max_groups: nat) -> int
    decreases max_groups,
{
    if max_groups == 0 {
        0
    } else if s.len() == 0 {
        0
    } else if s[0] < 128 {
        1
    } else {
        1 + var_consumed(s.skip(1), (max_groups - 1) as nat)
    }
}

/// The consumed count never exceeds what is present, and on a successful
/// decode it agrees with the decode's own count.
pub proof fn lemma_var_consumed(s: Seq<u8>, max_groups: nat)
    ensures
        0 <= var_consumed(s, max_groups) <= s.len(),
        var_consumed(s, max_groups) <= max_groups,
        var_decode(s, max_groups) matches Ok((v, n)) ==> var_consumed(s, max_groups) == n,
    decreases max_groups,
{
    if max_groups > 0 && s.len() > 0 && s[0] >= 128 {
        lemma_var_consumed(s.skip(1), (max_groups - 1) as nat);
    }
}

/// A successful variable-length decode consumes 1..max_groups bytes, no more
/// than are present, and yields a value below 128^max_groups.
pub proof fn lemma_var_decode_bounds(s: Seq<u8>, max_groups: nat)
    ensures
        var_decode(s, max_groups) matches Ok((v, n)) ==> 1 <= n <= max_groups && n <= s.len() && v
            < pow128(max_groups),
    decreases max_groups,
{
    if max_groups > 0 {
        assert(pow128(1) == 128 * pow128(0));
        lemma_pow128_le(1, max_groups);
    }
    if max_groups > 0 && s.len() > 0 && s[0] >= 128 {
        lemma_var_decode_bounds(s.skip(1), (max_groups - 1) as nat);
        if var_decode(s, max_groups) is Ok {
            let (v, n) = var_decode(s.skip(1), (max_groups - 1) as nat)->Ok_0;
            assert(((s[0] - 128) as nat) + 128 * v < 128 * pow128((max_groups - 1) as nat)) by {
                assert(v <= pow128((max_groups - 1) as nat) - 1);
                assert(128 * v <= 128 * (pow128((max_groups - 1) as nat) - 1));
            }
        }
    }
}

/// Round trip: decoding the variable-length encoding of `v`, with anything
/// after it, yields `v` and consumes exactly the encoding.
pub proof fn lemma_var_round_trip(v: nat, max_groups: nat, rest: Seq<u8>)
    requires
        1 <= max_groups,
        v < pow128(max_groups),
    ensures
        var_decode(var_encode(v) + rest, max_groups) == Ok::<(nat, int), ReadError>(
            (v, var_encode(v).len() as int),
        ),
    decreases max_groups,
{
    let s = var_encode(v) + rest;
    if v < 128 {
        assert(s[0] == v as u8);
    } else {
        let p = pow128((max_groups - 1) as nat);
        assert(v < 128 * p ==> v / 128 < p) by (nonlinear_arith);
        assert(v / 128 >= 1);
        assert(p > 1);
        assert(max_groups >= 2);
        assert(s[0] == (v % 128 + 128) as u8);
        assert(s.skip(1) =~= var_encode(v / 128) + rest);
        lemma_var_round_trip(v / 128, (max_groups - 1) as nat, rest);
        lemma_fundamental_div_mod(v as int, 128);
    }
}

/// Append the variable-length encoding of `v`.
pub fn put_var(output: &mut OutputByteQueue, v: u128)
    ensures
        final(output)@ == old(output)@ + var_encode(v as nat),
    decreases v,
{
    if v < 128 {
        output.put_byte(v as u8);
    } else {
        output.put_byte((v % 128 + 128) as u8);
        put_var(output, v / 128);
        proof {
            assert((old(output)@ + seq![(v % 128 + 128) as u8]) + var_encode((v as nat) / 128)
                =~= old(output)@ + (seq![(v % 128 + 128) as u8] + var_encode((v as nat) / 128)));
        }
    }
}

/// Take one variable-length integer of at most `max_groups` 7-bit groups.
pub fn take_var(input: &mut InputByteQueue, max_groups: usize) -> (r: Result<
    (u128, usize),
    ReadError,
>)
    requires
        max_groups <= 10,
    ensures
        match var_decode(old(input)@, max_groups as nat) {
            Ok((v, n)) => (r matches Ok(p) && p.0 as nat == v && p.1 == n) && final(input)@ == old(
                input,
            )@.skip(n),
            Err(e) => r matches Err(e2) && e2 == e,
        },
        final(input)@ == old(input)@.skip(var_consumed(old(input)@, max_groups as nat)),
        final(input)@.len() <= old(input)@.len(),
    decreases max_groups,
{
    proof {
        lemma_var_consumed(old(input)@, max_groups as nat);
        assert(old(input)@.skip(0) =~= old(input)@);
    }
    if max_groups == 0 {
        return Err(ReadError::BadVarNum);
    }
    match input.take_byte() {
        Err(_) => Err(ReadError::InputQueue(InputByteQueueError::NoBytes)),
        Ok(b) => {
            if b < 128 {
                Ok(((b as u128), 1))
            } else {
                match take_var(input, max_groups - 1) {
                    Err(e) => {
                        proof {
                            lemma_var_consumed(old(input)@.skip(1), (max_groups - 1) as nat);
                            let vc = var_consumed(old(input)@.skip(1), (max_groups - 1) as nat);
                            assert(old(input)@.skip(1).skip(vc) =~= old(input)@.skip(vc + 1));
                        }
                        Err(e)
                    },
                    Ok((v, n)) => {
                        proof {
                            lemma_var_decode_bounds(old(input)@.skip(1), (max_groups - 1) as nat);
                            lemma_pow128_le((max_groups - 1) as nat, 9);
                            lemma_pow128_unfold();
                            assert(old(input)@.skip(1).skip(n as int) =~= old(input)@.skip(n + 1));
                        }
                        Ok((((b - 128) as u128) + 128 * v, n + 1))
                    },
                }
            }
        },
    }
}

/// A 32-bit signed integer carried in variable-length wire form.
#[derive(Copy, Clone, Debug, Default, PartialEq, Eq, Structural)]
pub struct VarInt(pub i32);

/// A 64-bit signed integer carried in variable-length wire form.
#[derive(Copy, Clone, Debug, Default, PartialEq, Eq, Structural)]
pub struct VarLong(pub i64);

impl DeepView for VarInt {
    type V = VarInt;

    open spec fn deep_view(&self) -> VarInt {
        *self
    }
}

impl DeepView for VarLong {
    type V = VarLong;

    open spec fn deep_view(&self) -> VarLong {
        *self
    }
}

impl Writable for VarInt {
    open spec fn spec_wire(v: VarInt) -> Seq<u8> {
        var_encode((v.0 as u32) as nat)
    }

    fn write(&self, output: &mut OutputByteQueue) -> (r: Result<(), WriteError>) {
        put_var(output, (self.0 as u32) as u128);
        Ok(())
    }
}

impl Readable for VarInt {
    open spec fn spec_read(s: Seq<u8>) -> Result<(VarInt, int), ReadError> {
        match var_decode(s, 5) {
            Ok((v, n)) => Ok((VarInt(((v % 0x100000000) as u32) as i32), n)),
            Err(e) => Err(e),
        }
    }

    proof fn lemma_read_bounds(s: Seq<u8>) {
        lemma_var_decode_bounds(s, 5);
    }

    fn read(input: &mut InputByteQueue) -> (r: Result<VarInt, ReadError>) {
        match take_var(input, 5) {
            Err(e) => Err(e),
            Ok((v, _n)) => Ok(VarInt(((v % 0x100000000) as u32) as i32)),
        }
    }
}

impl Codec for VarInt {
    open spec fn fits(v: VarInt) -> bool {
        true
    }

    open spec fn tail_lenient() -> bool {
        true
    }

    proof fn lemma_wire_nonempty(v: VarInt) {
    }

    proof fn lemma_round_trip(v: VarInt, rest: Seq<u8>) {
        let u = (v.0 as u32) as nat;
        lemma_pow128_unfold();
        lemma_var_round_trip(u, 5, rest);
        let x = v.0;
        assert(((x as u32) as i32) == x) by (bit_vector);
    }
}

impl Writable for VarLong {
    open spec fn spec_wire(v: VarLong) -> Seq<u8> {
        var_encode((v.0 as u64) as nat)
    }

    fn write(&self, output: &mut OutputByteQueue) -> (r: Result<(), WriteError>) {
        put_var(output, (self.0 as u64) as u128);
        Ok(())
    }
}

impl Readable for VarLong {
    open spec fn spec_read(s: Seq<u8>) -> Result<(VarLong, int), ReadError> {
        match var_decode(s, 10) {
            Ok((v, n)) => Ok((VarLong(((v % 0x10000000000000000) as u64) as i64), n)),
            Err(e) => Err(e),
        }
    }

    proof fn lemma_read_bounds(s: Seq<u8>) {
        lemma_var_decode_bounds(s, 10);
    }

    fn read(input: &mut InputByteQueue) -> (r: Result<VarLong, ReadError>) {
        match take_var(input, 10) {
            Err(e) => Err(e),
            Ok((v, _n)) => Ok(VarLong(((v % 0x10000000000000000) as u64) as i64)),
        }
    }
}

impl Codec for VarLong {
    open spec fn fits(v: VarLong) -> bool {
        true
    }

    open spec fn tail_lenient() -> bool {
        true
    }

    proof fn lemma_wire_nonempty(v: VarLong) {
    }

    proof fn lemma_round_trip(v: VarLong, rest: Seq<u8>) {
        let u = (v.0 as u64) as nat;
        lemma_pow128_unfold();
        lemma_var_round_trip(u, 10, rest);
        let x = v.0;
        assert(((x as u64) as i64) == x) by (bit_vector);
    }
}

impl SizeNumber for VarInt {
    open spec fn spec_size(v: VarInt) -> int {
        (v.0 as usize) as int
    }

    open spec fn spec_of_size(n: int) -> VarInt {
        VarInt(n as i32)
    }

    fn as_size(&self) -> (n: usize) {
        self.0 as usize
    }

    fn new_from_size(size: usize) -> (r: VarInt) {
        VarInt(size as i32)
    }
}

impl SizeNumber for VarLong {
    open spec fn spec_size(v: VarLong) -> int {
        (v.0 as usize) as int
    }

    open spec fn spec_of_size(n: int) -> VarLong {
        VarLong(n as i64)
    }

    fn as_size(&self) -> (n: usize) {
        self.0 as usize
    }

    fn new_from_size(size: usize) -> (r: VarLong) {
        VarLong(size as i64)
    }
}


impl SizeNumber for usize {
    open spec fn spec_size(v: usize) -> int {
        (v as usize) as int
    }

    open spec fn spec_of_size(n: int) -> usize {
        n as usize
    }

    fn as_size(&self) -> (n: usize) {
        *self as usize
    }

    fn new_from_size(size: usize) -> (r: usize) {
        size as usize
    }
}

impl SizeNumber for u8 {
    open spec fn spec_size(v: u8) -> int {
        (v as usize) as int
    }

    open spec fn spec_of_size(n: int) -> u8 {
        n as u8
    }

    fn as_size(&self) -> (n: usize) {
        *self as usize
    }

    fn new_from_size(size: usize) -> (r: u8) {
        size as u8
    }
}

impl SizeNumber for i8 {
    open spec fn spec_size(v: i8) -> int {
        (v as usize) as int
    }

    open spec fn spec_of_size(n: int) -> i8 {
        n as i8
    }

    fn as_size(&self) -> (n: usize) {
        *self as usize
    }

    fn new_from_size(size: usize) -> (r: i8) {
        size as i8
    }
}

impl SizeNumber for u16 {
    open spec fn spec_size(v: u16) -> int {
        (v as usize) as int
    }

    open spec fn spec_of_size(n: int) -> u16 {
        n as u16
    }

    fn as_size(&self) -> (n: usize) {
        *self as usize
    }

    fn new_from_size(size: usize) -> (r: u16) {
        size as u16
    }
}

impl SizeNumber for i16 {
    open spec fn spec_size(v: i16) -> int {
        (v as usize) as int
    }

    open spec fn spec_of_size(n: int) -> i16 {
        n as i16
    }

    fn as_size(&self) -> (n: usize) {
        *self as usize
    }

    fn new_from_size(size: usize) -> (r: i16) {
        size as i16
    }
}

impl SizeNumber for u32 {
    open spec fn spec_size(v: u32) -> int {
        (v as usize) as int
    }

    open spec fn spec_of_size(n: int) -> u32 {
        n as u32
    }

    fn as_size(&self) -> (n: usize) {
        *self as usize
    }

    fn new_from_size(size: usize) -> (r: u32) {
        size as u32
    }
}

impl SizeNumber for i32 {
    open spec fn spec_size(v: i32) -> int {
        (v as usize) as int
    }

    open spec fn spec_of_size(n: int) -> i32 {
        n as i32
    }

    fn as_size(&self) -> (n: usize) {
        *self as usize
    }

    fn new_from_size(size: usize) -> (r: i32) {
        size as i32
    }
}

impl SizeNumber for u64 {
    open spec fn spec_size(v: u64) -> int {
        (v as usize) as int
    }

    open spec fn spec_of_size(n: int) -> u64 {
        n as u64
    }

    fn as_size(&self) -> (n: usize) {
        *self as usize
    }

    fn new_from_size(size: usize) -> (r: u64) {
        size as u64
    }
}

impl SizeNumber for i64 {
    open spec fn spec_size(v: i64) -> int {
        (v as usize) as int
    }

    open spec fn spec_of_size(n: int) -> i64 {
        n as i64
    }

    fn as_size(&self) -> (n: usize) {
        *self as usize
    }

    fn new_from_size(size: usize) -> (r: i64) {
        size as i64
    }
}

impl SizeNumber for u128 {
    open spec fn spec_size(v: u128) -> int {
        (v as usize) as int
    }

    open spec fn spec_of_size(n: int) -> u128 {
        n as u128
    }

    fn as_size(&self) -> (n: usize) {
        *self as usize
    }

    fn new_from_size(size: usize) -> (r: u128) {
        size as u128
    }
}

impl SizeNumber for i128 {
    open spec fn spec_size(v: i128) -> int {
        (v as usize) as int
    }

    open spec fn spec_of_size(n: int) -> i128 {
        n as i128
    }

    fn as_size(&self) -> (n: usize) {
        *self as usize
    }

    fn new_from_size(size: usize) -> (r: i128) {
        size as i128
    }
}

/// A block identifier: on the wire indistinguishable from a VarInt, but a
/// distinct nominal type, so that calling code cannot mix it up with an
/// arbitrary integer. The codec forwards to VarInt verbatim.
#[derive(Copy, Clone, Debug, Default, PartialEq, Eq, Structural)]
pub struct BlockId(pub VarInt);

impl DeepView for BlockId {
    type V = BlockId;

    open spec fn deep_view(&self) -> BlockId {
        *self
    }
}

impl Writable for BlockId {
    open spec fn spec_wire(v: BlockId) -> Seq<u8> {
        <VarInt as Writable>::spec_wire(v.0)
    }

    fn write(&self, output: &mut OutputByteQueue) -> (r: Result<(), WriteError>) {
        self.0.write(output)
    }
}

impl Readable for BlockId {
    open spec fn spec_read(s: Seq<u8>) -> Result<(BlockId, int), ReadError> {
        match <VarInt as Readable>::spec_read(s) {
            Ok((v, n)) => Ok((BlockId(v), n)),
            Err(e) => Err(e),
        }
    }

    proof fn lemma_read_bounds(s: Seq<u8>) {
        <VarInt as Readable>::lemma_read_bounds(s);
    }

    fn read(input: &mut InputByteQueue) -> (r: Result<BlockId, ReadError>) {
        match VarInt::read(input) {
            Ok(v) => Ok(BlockId(v)),
            Err(e) => Err(e),
        }
    }
}

impl Codec for BlockId {
    open spec fn fits(v: BlockId) -> bool {
        true
    }

    open spec fn tail_lenient() -> bool {
        true
    }

    proof fn lemma_wire_nonempty(v: BlockId) {
        <VarInt as Codec>::lemma_wire_nonempty(v.0);
    }

    proof fn lemma_round_trip(v: BlockId, rest: Seq<u8>) {
        <VarInt as Codec>::lemma_round_trip(v.0, rest);
    }
}

} // verus!
