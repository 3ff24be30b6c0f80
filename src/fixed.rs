//! Little-endian reads and the fixed-point form of the model's float values.

use byteorder::{ByteOrder, LittleEndian};
use vstd::prelude::*;

verus! {

/// The fixed-point value that stands for 1: scores carry 16 fractional bits.
pub const FIXED_ONE: i32 = 65536;

pub open spec fn two_pow(k: nat) -> nat
    decreases k,
{
    if k == 0 {
        1
    } else {
        2 * two_pow((k - 1) as nat)
    }
}

/// The unsigned 32-bit integer stored little-endian at `b[p..p + 4]`.
pub open spec fn le_u32(b: Seq<u8>, p: int) -> int {
    b[p] + 256 * b[p + 1] + 65536 * b[p + 2] + 16777216 * b[p + 3]
}

/// The signed (two's complement) 32-bit integer stored little-endian at `b[p..p + 4]`.
pub open spec fn le_i32(b: Seq<u8>, p: int) -> int {
    let u = le_u32(b, p);
    if u >= 0x8000_0000 {
        u - 0x1_0000_0000
    } else {
        u
    }
}

pub open spec fn clamp_i32(x: int) -> int {
    if x > i32::MAX {
        i32::MAX as int
    } else if x < i32::MIN {
        i32::MIN as int
    } else {
        x
    }
}

/// The magnitude of the IEEE-754 single whose bits are `b`, times 65536 and
/// truncated toward zero; an infinity is out of range, a NaN counts as zero.
pub open spec fn f32_bits_fixed_magnitude(b: u32) -> int {
    let e = (b / 0x80_0000) % 0x100;
    let f = b % 0x80_0000;
    if e == 0xff {
        if f == 0 {
            0x1_0000_0000
        } else {
            0
        }
    } else if e == 0 {
        0
    } else if e >= 134 {
        (f + 0x80_0000) * two_pow((e - 134) as nat)
    } else {
        (f + 0x80_0000) / (two_pow((134 - e) as nat) as int)
    }
}

/// The fixed-point value of the single whose bits are `b`: its value times
/// 65536, truncated toward zero and saturated to the range of `i32`.
pub open spec fn fixed_of_f32_bits(b: u32) -> int {
    let mag = f32_bits_fixed_magnitude(b);
    if b >= 0x8000_0000 {
        clamp_i32(-mag)
    } else {
        clamp_i32(mag)
    }
}

/// Relies on byteorder's `LittleEndian::read_u32`: the first four bytes of
/// `buf`, least significant first (it panics on fewer than four).
#[verifier::external_body]
fn read_u32_le(buf: &[u8]) -> (r: u32)
    requires
        buf@.len() >= 4,
    ensures
        r == le_u32(buf@, 0),
{
    LittleEndian::read_u32(buf)
}

/// Relies on byteorder's `LittleEndian::read_i32`: the first four bytes of
/// `buf` as a two's complement integer, least significant first (it panics on
/// fewer than four).
#[verifier::external_body]
fn read_i32_le(buf: &[u8]) -> (r: i32)
    requires
        buf@.len() >= 4,
    ensures
        r == le_i32(buf@, 0),
{
    LittleEndian::read_i32(buf)
}

/// The unsigned integer stored little-endian at `bytes[p..p + 4]`.
pub fn u32_at(bytes: &Vec<u8>, p: usize) -> (r: u32)
    requires
        p + 4 <= bytes@.len(),
    ensures
        r == le_u32(bytes@, p as int),
{
    let n = bytes.len();
    let s = vstd::slice::slice_subrange(bytes.as_slice(), p, n - (n - p - 4));
    read_u32_le(s)
}

/// The signed integer stored little-endian at `bytes[p..p + 4]`.
pub fn i32_at(bytes: &Vec<u8>, p: usize) -> (r: i32)
    requires
        p + 4 <= bytes@.len(),
    ensures
        r == le_i32(bytes@, p as int),
{
    let n = bytes.len();
    let s = vstd::slice::slice_subrange(bytes.as_slice(), p, n - (n - p - 4));
    read_i32_le(s)
}

pub proof fn lemma_two_pow_at_least(k: nat, j: nat)
    requires
        j <= k,
    ensures
        two_pow(k) >= two_pow(j),
        two_pow(k) >= 1,
    decreases k,
{
    if k > 0 {
        lemma_two_pow_at_least((k - 1) as nat, if j == k { (k - 1) as nat } else { j });
    }
}

/// Converts the bits of an IEEE-754 single to fixed point, as a float-to-int
/// `as` conversion of the value times 65536 does.
pub fn fixed_from_f32_bits(b: u32) -> (r: i32)
    ensures
        r == fixed_of_f32_bits(b),
{
    let e: u32 = (b / 0x80_0000) % 0x100;
    let f: u32 = b % 0x80_0000;
    let m: u64 = f as u64 + 0x80_0000;
    let mag: u64;
    if e == 0xff {
        mag = if f == 0 { 0x1_0000_0000 } else { 0 };
    } else if e == 0 {
        mag = 0;
    } else if e >= 142 {
        proof {
            lemma_two_pow_at_least((e - 134) as nat, 8);
            reveal_with_fuel(two_pow, 9);
            assert(f32_bits_fixed_magnitude(b) >= 0x8000_0000) by (nonlinear_arith)
                requires
                    f32_bits_fixed_magnitude(b) == m * two_pow((e - 134) as nat),
                    m >= 0x80_0000,
                    two_pow((e - 134) as nat) >= 256,
            ;
        }
        mag = 0x1_0000_0000;
    } else if e >= 134 {
        let mut v: u64 = m;
        let mut k: u32 = 0;
        assert(two_pow(0) == 1);
        while k < e - 134
            invariant
                134 <= e < 142,
                k <= e - 134,
                m < 0x100_0000,
                v == m * two_pow(k as nat),
                v <= 0x100_0000 * two_pow(k as nat),
            decreases e - 134 - k,
        {
            assert(0x100_0000 * two_pow(k as nat) <= 0x8000_0000) by {
                lemma_two_pow_at_least(7, (k + 1) as nat);
                reveal_with_fuel(two_pow, 8);
                assert(two_pow((k + 1) as nat) == 2 * two_pow(k as nat));
            }
            v = v * 2;
            k = k + 1;
            assert(v == m * two_pow(k as nat)) by (nonlinear_arith)
                requires
                    v == 2 * (m * two_pow((k - 1) as nat)),
                    two_pow(k as nat) == 2 * two_pow((k - 1) as nat),
            ;
        }
        mag = v;
    } else {
        let mut v: u64 = m;
        let mut k: u32 = 0;
        assert(two_pow(0) == 1);
        while k < 134 - e
            invariant
                1 <= e < 134,
                k <= 134 - e,
                v == (m as int) / (two_pow(k as nat) as int),
                two_pow(k as nat) >= 1,
            decreases 134 - e - k,
        {
            proof {
                vstd::arithmetic::div_mod::lemma_div_denominator(
                    m as int,
                    two_pow(k as nat) as int,
                    2,
                );
            }
            v = v / 2;
            k = k + 1;
        }
        mag = v;
    }
    assert(mag == f32_bits_fixed_magnitude(b) || (mag == 0x1_0000_0000
        && f32_bits_fixed_magnitude(b) >= 0x8000_0000));
    if b >= 0x8000_0000 {
        if mag >= 0x8000_0000 {
            i32::MIN
        } else {
            -(mag as i32)
        }
    } else {
        if mag > 0x7fff_ffff {
            i32::MAX
        } else {
            mag as i32
        }
    }
}

} // verus!
