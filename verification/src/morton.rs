//! The Morton code engine.
//!
//! A point inside a known bound is quantized to 10 bits per axis and the
//! three coordinates are interleaved into a single 30-bit Z-order (Morton)
//! code, so that sorting by code groups spatially close points together.

use vstd::prelude::*;
use crate::bbox::Bbox;
use crate::vector::Vec3;

verus! {

/// A primitive's position in the input list together with its Morton code.
#[derive(Clone, Copy, Debug, PartialEq, Eq, Structural)]
pub struct MortonPrimitive {
    pub index: u32,
    pub morton_code: u32,
}

/// Bit-tiling of a 10-bit number: two zero bits are interleaved between
/// every original bit.  The one representable value above 10 bits,
/// `1 << 10`, is clamped down by one first.
pub open spec fn spec_left_shift_3(x: u32) -> u32 {
    let x0 = if x == (1u32 << 10) {
        (x - 1) as u32
    } else {
        x
    };
    let x1 = (x0 | (x0 << 16)) & 0b00000011000000000000000011111111u32;
    let x2 = (x1 | (x1 << 8)) & 0b00000011000000001111000000001111u32;
    let x3 = (x2 | (x2 << 4)) & 0b00000011000011000011000011000011u32;
    (x3 | (x3 << 2)) & 0b00001001001001001001001001001001u32
}

/// The 30-bit Morton code of three 10-bit coordinates: x occupies bit
/// positions 0, 3, 6, ..., y positions 1, 4, 7, ..., z positions 2, 5, 8, ...
pub open spec fn spec_encode_morton_3(x: u32, y: u32, z: u32) -> u32 {
    (spec_left_shift_3(z) << 2) | (spec_left_shift_3(y) << 1) | spec_left_shift_3(x)
}

/// Quantization of one coordinate to the 10-bit budget: the relative
/// position of `c` inside `[lo, hi]`, scaled by 1024 and rounded down.
/// A degenerate axis (`hi <= lo`) maps to 0.
pub open spec fn spec_quantize(c: int, lo: int, hi: int) -> int {
    if hi > lo {
        ((c - lo) * 1024) / (hi - lo)
    } else {
        0
    }
}

/// The Morton code of a point inside a bound, each axis quantized to the
/// 10-bit budget.
pub open spec fn spec_morton_of(p: Vec3<i64>, bound: Bbox) -> u32 {
    spec_encode_morton_3(
        spec_quantize(p.0 as int, bound.min.0 as int, bound.max.0 as int) as u32,
        spec_quantize(p.1 as int, bound.min.1 as int, bound.max.1 as int) as u32,
        spec_quantize(p.2 as int, bound.min.2 as int, bound.max.2 as int) as u32,
    )
}

/// Take a 10-bit number and tile it as `xyzw -> --x--y--z--w`.
pub fn left_shift_3(x: u32) -> (r: u32)
    requires
        x <= (1u32 << 10),
    ensures
        r == spec_left_shift_3(x),
        r <= 0b00001001001001001001001001001001u32,
{
    proof {
        assert((1u32 << 10) == 1024) by (bit_vector);
    }
    let mut x = x;
    if x == 1 << 10 {
        x -= 1;
    }
    x = (x | (x << 16)) & 0b00000011000000000000000011111111;
    x = (x | (x << 8)) & 0b00000011000000001111000000001111;
    x = (x | (x << 4)) & 0b00000011000011000011000011000011;
    let r = (x | (x << 2)) & 0b00001001001001001001001001001001;
    proof {
        assert(((x | (x << 2)) & 0b00001001001001001001001001001001u32)
            <= 0b00001001001001001001001001001001u32) by (bit_vector);
    }
    r
}

/// Interleave three 10-bit coordinates into a 30-bit Morton code.
pub fn encode_morton_3(x: u32, y: u32, z: u32) -> (r: u32)
    requires
        x <= (1u32 << 10),
        y <= (1u32 << 10),
        z <= (1u32 << 10),
    ensures
        r == spec_encode_morton_3(x, y, z),
        r < (1u32 << 30),
{
    let sx = left_shift_3(x);
    let sy = left_shift_3(y);
    let sz = left_shift_3(z);
    let r = (sz << 2) | (sy << 1) | sx;
    proof {
        assert((sz << 2) | (sy << 1) | sx < (1u32 << 30)) by (bit_vector)
            requires
                sx <= 0b00001001001001001001001001001001u32,
                sy <= 0b00001001001001001001001001001001u32,
                sz <= 0b00001001001001001001001001001001u32,
        ;
    }
    r
}

/// Quantize one coordinate of a point into its bound's 10-bit budget.
pub fn quantize_axis(c: i64, lo: i64, hi: i64) -> (r: u32)
    requires
        lo <= c <= hi,
        -0x1000_0000_0000 <= lo,
        hi <= 0x1000_0000_0000,
    ensures
        r == spec_quantize(c as int, lo as int, hi as int),
        r <= (1u32 << 10),
{
    proof {
        assert((1u32 << 10) == 1024) by (bit_vector);
    }
    if hi > lo {
        let num: u64 = ((c - lo) as u64) * 1024;
        let den: u64 = (hi - lo) as u64;
        let q: u64 = num / den;
        proof {
            let cl = c - lo;
            let d = hi - lo;
            assert(cl * 1024 <= d * 1024) by (nonlinear_arith)
                requires
                    0 <= cl <= d,
            ;
            vstd::arithmetic::div_mod::lemma_div_is_ordered(cl * 1024, d * 1024, d as int);
            vstd::arithmetic::div_mod::lemma_div_by_multiple(1024, d as int);
            assert(d * 1024 == 1024 * d) by (nonlinear_arith);
            assert(q <= 1024);
        }
        q as u32
    } else {
        0
    }
}

/// The Morton code of a point inside a bound.
pub fn morton_of_point(p: Vec3<i64>, bound: &Bbox) -> (r: u32)
    requires
        bound.contains_point(p),
        bound.in_range(0x1000_0000_0000),
    ensures
        r == spec_morton_of(p, *bound),
        r < (1u32 << 30),
{
    let qx = quantize_axis(p.0, bound.min.0, bound.max.0);
    let qy = quantize_axis(p.1, bound.min.1, bound.max.1);
    let qz = quantize_axis(p.2, bound.min.2, bound.max.2);
    encode_morton_3(qx, qy, qz)
}

} // verus!
