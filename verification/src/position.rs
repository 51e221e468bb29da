use vstd::arithmetic::div_mod::{lemma_fundamental_div_mod_converse, lemma_small_mod};
use vstd::prelude::*;

use crate::bytes::{InputByteQueue, OutputByteQueue};
use crate::numbytes::{
    be_of, be_val, le_of, le_val, lemma_be_of_len, lemma_be_val_be_of, lemma_le_of_len,
    lemma_le_val_bound, lemma_le_val_le_of, lemma_pow256_unfold, put_be, put_le, take_be, take_le,
};
use crate::protocol::{shortage, Codec, ReadError, Readable, Writable, WriteError};

verus! {

/// A block coordinate triple, packed on the wire into one 64-bit value with
/// 26/26/12-bit fields: x in bits 38..64, z in bits 12..38, y in bits 0..12.
#[derive(Copy, Clone, Debug, PartialEq, Eq, Structural)]
pub struct BlockPosition {
    pub x: i32,
    pub y: i32,
    pub z: i32,
}

impl BlockPosition {
    /// The position with the given coordinates.
    pub fn new(x: i32, y: i32, z: i32) -> (r: BlockPosition)
        ensures
            r == (BlockPosition { x, y, z }),
    {
        BlockPosition { x, y, z }
    }
}

impl DeepView for BlockPosition {
    type V = BlockPosition;

    open spec fn deep_view(&self) -> BlockPosition {
        *self
    }
}

/// The packed 64-bit wire value of a position: each coordinate reduced to its
/// field width (two's complement) and shifted to its field.
pub open spec fn block_packed(v: BlockPosition) -> nat {
    ((((v.x as int) % 0x4000000) * 0x4000000000) + (((v.z as int) % 0x4000000) * 0x1000) + ((
    v.y as int) % 0x1000)) as nat
}

/// Shifting a 32-bit coordinate into nonnegative range by 2^31 keeps its
/// residue: the field width divides 2^31.
proof fn lemma_shift_keeps_mod(x: i32, m: int)
    requires
        m == 0x4000000 || m == 0x1000,
    ensures
        ((x as int) + 0x80000000) % m == (x as int) % m,
{
    let q = (x as int) / m;
    let r = (x as int) % m;
    lemma_fundamental_div_mod_converse((x as int) + 0x80000000, m, q + 0x80000000int / m, r);
}

impl Writable for BlockPosition {
    open spec fn spec_wire(v: BlockPosition) -> Seq<u8> {
        le_of(block_packed(v), 8)
    }

    fn write(&self, output: &mut OutputByteQueue) -> (r: Result<(), WriteError>) {
        let xs: u64 = ((self.x as i64) + 0x80000000) as u64;
        let zs: u64 = ((self.z as i64) + 0x80000000) as u64;
        let ys: u64 = ((self.y as i64) + 0x80000000) as u64;
        let xm: u64 = xs % 0x4000000;
        let zm: u64 = zs % 0x4000000;
        let ym: u64 = ys % 0x1000;
        proof {
            lemma_shift_keeps_mod(self.x, 0x4000000);
            lemma_shift_keeps_mod(self.z, 0x4000000);
            lemma_shift_keeps_mod(self.y, 0x1000);
        }
        let val: u64 = xm * 0x4000000000 + zm * 0x1000 + ym;
        put_le(output, val as u128, 8);
        proof {
            assert(val as nat == block_packed(*self));
        }
        Ok(())
    }
}

impl Readable for BlockPosition {
    open spec fn spec_read(s: Seq<u8>) -> Result<(BlockPosition, int), ReadError> {
        if s.len() < 8 {
            Err(shortage())
        } else {
            let val = le_val(s.take(8)) as int;
            let xr = val / 0x4000000000;
            let zr = (val / 0x1000) % 0x4000000;
            let yr = val % 0x1000;
            let x = if xr >= 0x2000000 {
                xr - 0x4000000
            } else {
                xr
            };
            let z = if zr >= 0x2000000 {
                zr - 0x4000000
            } else {
                zr
            };
            let y = if yr >= 0x800 {
                yr - 0x1000
            } else {
                yr
            };
            Ok((BlockPosition { x: x as i32, y: y as i32, z: z as i32 }, 8))
        }
    }

    proof fn lemma_read_bounds(s: Seq<u8>) {
    }

    fn read(input: &mut InputByteQueue) -> (r: Result<BlockPosition, ReadError>) {
        match take_le(input, 8) {
            Err(e) => Err(e),
            Ok(v128) => {
                proof {
                    lemma_le_val_bound(old(input)@.take(8));
                    lemma_pow256_unfold();
                }
                let val = v128 as u64;
                let xr = (val / 0x4000000000) as u32;
                let zr = ((val / 0x1000) % 0x4000000) as u32;
                let yr = (val % 0x1000) as u32;
                let x: i32 = if xr >= 0x2000000 {
                    (xr as i32) - 0x4000000
                } else {
                    xr as i32
                };
                let z: i32 = if zr >= 0x2000000 {
                    (zr as i32) - 0x4000000
                } else {
                    zr as i32
                };
                let y: i32 = if yr >= 0x800 {
                    (yr as i32) - 0x1000
                } else {
                    yr as i32
                };
                Ok(BlockPosition { x, y, z })
            },
        }
    }
}

/// The residue of a coordinate that lies within its signed field range, and
/// how the sign adjustment undoes it.
proof fn lemma_field_round_trip(c: i32, m: int, half: int)
    requires
        m == 0x4000000 && half == 0x2000000 || m == 0x1000 && half == 0x800,
        -half <= c < half,
    ensures
        0 <= c ==> (c as int) % m == c as int,
        c < 0 ==> (c as int) % m == c + m,
    {
    if c >= 0 {
        lemma_small_mod(c as nat, m as nat);
    } else {
        lemma_fundamental_div_mod_converse(c as int, m, -1, c + m);
    }
}

impl Codec for BlockPosition {
    open spec fn fits(v: BlockPosition) -> bool {
        &&& -0x2000000 <= v.x < 0x2000000
        &&& -0x2000000 <= v.z < 0x2000000
        &&& -0x800 <= v.y < 0x800
    }

    open spec fn tail_lenient() -> bool {
        true
    }

    proof fn lemma_wire_nonempty(v: BlockPosition) {
        lemma_le_of_len(block_packed(v), 8);
    }

    proof fn lemma_round_trip(v: BlockPosition, rest: Seq<u8>) {
        let packed = block_packed(v);
        let xm = (v.x as int) % 0x4000000;
        let zm = (v.z as int) % 0x4000000;
        let ym = (v.y as int) % 0x1000;
        lemma_field_round_trip(v.x, 0x4000000, 0x2000000);
        lemma_field_round_trip(v.z, 0x4000000, 0x2000000);
        lemma_field_round_trip(v.y, 0x1000, 0x800);
        lemma_le_of_len(packed, 8);
        lemma_pow256_unfold();
        assert((le_of(packed, 8) + rest).take(8) =~= le_of(packed, 8));
        lemma_le_val_le_of(packed, 8);
        let val = packed as int;
        assert(val / 0x4000000000 == xm && val % 0x4000000000 == zm * 0x1000 + ym) by {
            lemma_fundamental_div_mod_converse(val, 0x4000000000, xm, zm * 0x1000 + ym);
        }
        assert(val / 0x1000 == xm * 0x4000000 + zm && val % 0x1000 == ym) by {
            lemma_fundamental_div_mod_converse(val, 0x1000, xm * 0x4000000 + zm, ym);
        }
        assert((xm * 0x4000000 + zm) % 0x4000000 == zm) by {
            lemma_fundamental_div_mod_converse(xm * 0x4000000 + zm, 0x4000000, xm, zm);
        }
    }
}

/// One byte of angular position: the wire form of an angle, in steps of
/// pi/256 of the protocol's scaled turn unit. The floating-point conversion
/// to and from radians lives outside the codec layer; the byte itself
/// round-trips exactly.
#[derive(Copy, Clone, Debug, Default, PartialEq, Eq, Structural)]
pub struct Angle(pub u8);

impl DeepView for Angle {
    type V = Angle;

    open spec fn deep_view(&self) -> Angle {
        *self
    }
}

impl Writable for Angle {
    open spec fn spec_wire(v: Angle) -> Seq<u8> {
        seq![v.0]
    }

    fn write(&self, output: &mut OutputByteQueue) -> (r: Result<(), WriteError>) {
        output.put_byte(self.0);
        Ok(())
    }
}

impl Readable for Angle {
    open spec fn spec_read(s: Seq<u8>) -> Result<(Angle, int), ReadError> {
        if s.len() == 0 {
            Err(shortage())
        } else {
            Ok((Angle(s[0]), 1))
        }
    }

    proof fn lemma_read_bounds(s: Seq<u8>) {
    }

    fn read(input: &mut InputByteQueue) -> (r: Result<Angle, ReadError>) {
        match input.take_byte() {
            Ok(b) => Ok(Angle(b)),
            Err(e) => Err(ReadError::InputQueue(e)),
        }
    }
}

impl Codec for Angle {
    open spec fn fits(v: Angle) -> bool {
        true
    }

    open spec fn tail_lenient() -> bool {
        true
    }

    proof fn lemma_wire_nonempty(v: Angle) {
    }

    proof fn lemma_round_trip(v: Angle, rest: Seq<u8>) {
        assert((seq![v.0] + rest)[0] == v.0);
    }
}

/// A rotation of three 32-bit floats in x, y, z order, held as IEEE-754 bit
/// patterns; each is carried little-endian, exactly as the float codec does.
/// Conversion between bit patterns and floats lives outside the codec layer.
#[derive(Copy, Clone, Debug, Default, PartialEq, Eq, Structural)]
pub struct Rotation {
    pub x_bits: u32,
    pub y_bits: u32,
    pub z_bits: u32,
}

impl DeepView for Rotation {
    type V = Rotation;

    open spec fn deep_view(&self) -> Rotation {
        *self
    }
}

impl Writable for Rotation {
    open spec fn spec_wire(v: Rotation) -> Seq<u8> {
        le_of(v.x_bits as nat, 4) + le_of(v.y_bits as nat, 4) + le_of(v.z_bits as nat, 4)
    }

    fn write(&self, output: &mut OutputByteQueue) -> (r: Result<(), WriteError>) {
        put_le(output, self.x_bits as u128, 4);
        put_le(output, self.y_bits as u128, 4);
        put_le(output, self.z_bits as u128, 4);
        Ok(())
    }
}

impl Readable for Rotation {
    open spec fn spec_read(s: Seq<u8>) -> Result<(Rotation, int), ReadError> {
        if s.len() < 12 {
            Err(shortage())
        } else {
            Ok(
                (
                    Rotation {
                        x_bits: le_val(s.take(4)) as u32,
                        y_bits: le_val(s.skip(4).take(4)) as u32,
                        z_bits: le_val(s.skip(8).take(4)) as u32,
                    },
                    12,
                ),
            )
        }
    }

    proof fn lemma_read_bounds(s: Seq<u8>) {
    }

    fn read(input: &mut InputByteQueue) -> (r: Result<Rotation, ReadError>) {
        let ghost s0 = input@;
        if input.available() < 12 {
            return Err(ReadError::InputQueue(crate::bytes::InputByteQueueError::NoBytes));
        }
        let x = match take_le(input, 4) {
            Ok(v) => v,
            Err(e) => {
                return Err(e);
            },
        };
        let y = match take_le(input, 4) {
            Ok(v) => v,
            Err(e) => {
                return Err(e);
            },
        };
        let z = match take_le(input, 4) {
            Ok(v) => v,
            Err(e) => {
                return Err(e);
            },
        };
        proof {
            lemma_le_val_bound(s0.take(4));
            lemma_le_val_bound(s0.skip(4).take(4));
            lemma_le_val_bound(s0.skip(8).take(4));
            lemma_pow256_unfold();
            assert(s0.skip(4).take(4) =~= s0.skip(4).take(4));
            assert(s0.skip(4).skip(4) =~= s0.skip(8));
            assert(s0.skip(8).skip(4) =~= s0.skip(12));
        }
        Ok(Rotation { x_bits: x as u32, y_bits: y as u32, z_bits: z as u32 })
    }
}

impl Codec for Rotation {
    open spec fn fits(v: Rotation) -> bool {
        true
    }

    open spec fn tail_lenient() -> bool {
        true
    }

    proof fn lemma_wire_nonempty(v: Rotation) {
        lemma_le_of_len(v.x_bits as nat, 4);
        lemma_le_of_len(v.y_bits as nat, 4);
        lemma_le_of_len(v.z_bits as nat, 4);
    }

    proof fn lemma_round_trip(v: Rotation, rest: Seq<u8>) {
        let wx = le_of(v.x_bits as nat, 4);
        let wy = le_of(v.y_bits as nat, 4);
        let wz = le_of(v.z_bits as nat, 4);
        lemma_le_of_len(v.x_bits as nat, 4);
        lemma_le_of_len(v.y_bits as nat, 4);
        lemma_le_of_len(v.z_bits as nat, 4);
        lemma_pow256_unfold();
        let s = (wx + wy + wz) + rest;
        assert(s.take(4) =~= wx);
        assert(s.skip(4).take(4) =~= wy);
        assert(s.skip(8).take(4) =~= wz);
        lemma_le_val_le_of(v.x_bits as nat, 4);
        lemma_le_val_le_of(v.y_bits as nat, 4);
        lemma_le_val_le_of(v.z_bits as nat, 4);
    }
}

/// A universally unique identifier, carried on the wire as its sixteen
/// big-endian bytes.
#[derive(Copy, Clone, Debug, Default, PartialEq, Eq, Structural)]
pub struct Uuid(pub u128);

impl DeepView for Uuid {
    type V = Uuid;

    open spec fn deep_view(&self) -> Uuid {
        *self
    }
}

impl Writable for Uuid {
    open spec fn spec_wire(v: Uuid) -> Seq<u8> {
        be_of(v.0 as nat, 16)
    }

    fn write(&self, output: &mut OutputByteQueue) -> (r: Result<(), WriteError>) {
        put_be(output, self.0, 16);
        Ok(())
    }
}

impl Readable for Uuid {
    open spec fn spec_read(s: Seq<u8>) -> Result<(Uuid, int), ReadError> {
        if s.len() < 16 {
            Err(shortage())
        } else {
            Ok((Uuid(be_val(s.take(16)) as u128), 16))
        }
    }

    proof fn lemma_read_bounds(s: Seq<u8>) {
    }

    fn read(input: &mut InputByteQueue) -> (r: Result<Uuid, ReadError>) {
        match take_be(input, 16) {
            Err(e) => Err(e),
            Ok(v) => {
                proof {
                    crate::numbytes::lemma_be_val_bound(old(input)@.take(16));
                    lemma_pow256_unfold();
                }
                Ok(Uuid(v))
            },
        }
    }
}

impl Codec for Uuid {
    open spec fn fits(v: Uuid) -> bool {
        true
    }

    open spec fn tail_lenient() -> bool {
        true
    }

    proof fn lemma_wire_nonempty(v: Uuid) {
        lemma_be_of_len(v.0 as nat, 16);
    }

    proof fn lemma_round_trip(v: Uuid, rest: Seq<u8>) {
        lemma_be_of_len(v.0 as nat, 16);
        lemma_pow256_unfold();
        assert((be_of(v.0 as nat, 16) + rest).take(16) =~= be_of(v.0 as nat, 16));
        lemma_be_val_be_of(v.0 as nat, 16);
    }
}

} // verus!
