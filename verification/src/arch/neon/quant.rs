//! Quantization in 16-bit lanes: a high-half multiplication and a shift by
//! a variable amount.

use vstd::arithmetic::div_mod::lemma_div_denominator;
use vstd::arithmetic::power2::{lemma2_to64, lemma_pow2_adds, lemma_pow2_pos, lemma_pow2_strictly_increases, pow2};
use vstd::prelude::*;

use crate::fixed::trunc16;
use crate::quant::Divisors;

verus! {

use crate::arch::scalar::quant::{magnitude, quantized_block, law_quantized_block_is_rounded_division};
use crate::fixed::wrap16;
use crate::quant::{encodes_division, law_reciprocal_divides, rounded_quotient};

/// How far a lane shift by `-shift` goes: the low byte of the amount,
/// signed. Positive amounts shift left.
pub open spec fn lane_shift(shift: int) -> int {
    (128 - shift) % 256 - 128
}

/// A lane shifted left by `s` bits, or right where `s` is negative.
pub open spec fn shifted_lane(v: int, s: int) -> int {
    if s <= -16 || s >= 16 {
        0
    } else if s >= 0 {
        v * pow2(s as nat) % 65536
    } else {
        v / pow2((-s) as nat) as int
    }
}

/// One quantized coefficient.
pub open spec fn neon_quantized(x: int, recip: int, corr: int, shift: int) -> int {
    let high = (magnitude(x) + corr) % 65536 * recip / 65536;
    let q = shifted_lane(high, lane_shift(shift));
    wrap16(
        if x < 0 {
            -q
        } else {
            q
        },
    )
}

/// A quantized block.
pub open spec fn neon_quantized_block(block: Seq<i16>, div: Divisors) -> Seq<i16> {
    Seq::new(
        64,
        |i: int|
            neon_quantized(block[i] as int, div.recip[i] as int, div.corr[i] as int, div.shift[i] as int) as i16,
    )
}

/// Shifts a lane left by `s` bits, or right where `s` is negative.
fn shift_lane(v: u32, s: i32) -> (r: u32)
    requires
        v <= 65535,
    ensures
        r == shifted_lane(v as int, s as int),
        r <= 65535,
{
    if s <= -16 || s >= 16 {
        return 0;
    }
    proof {
        lemma2_to64();
    }
    if s >= 0 {
        let k: u32 = s as u32;
        proof {
            lemma_pow2_strictly_increases(k as nat, 16);
            assert(v * pow2(k as nat) <= 65535 * 65536) by (nonlinear_arith)
                requires
                    0 <= v <= 65535,
                    0 <= pow2(k as nat) <= 65536,
            ;
            vstd::bits::lemma_u32_shl_is_mul(v, k);
        }
        (v << k) % 65536
    } else {
        let k: u32 = (-s) as u32;
        proof {
            vstd::bits::lemma_u32_shr_is_div(v, k);
            lemma_pow2_pos(k as nat);
            assert(0 <= v as int / pow2(k as nat) as int <= v) by (nonlinear_arith)
                requires
                    0 <= v,
                    0 < pow2(k as nat),
            ;
        }
        v >> k
    }
}

/// Quantizes one coefficient.
fn quantize_lane(x: i16, recip: u16, corr: u16, shift: i16) -> (r: i16)
    ensures
        r == neon_quantized(x as int, recip as int, corr as int, shift as int),
{
    let abs: u32 = if x < 0 {
        (-(x as i32)) as u32
    } else {
        x as u32
    };
    let biased: u32 = (abs + corr as u32) % 65536;
    assert(0 <= biased * recip <= 65535 * 65535) by (nonlinear_arith)
        requires
            0 <= biased <= 65535,
            0 <= recip <= 65535,
    ;
    let high: u32 = biased * (recip as u32) / 65536;
    let s: i32 = ((65664 - shift as i32) as u32 % 256) as i32 - 128;
    assert((65664 - shift) % 256 == (128 - shift) % 256);
    let q: i32 = shift_lane(high, s) as i32;
    trunc16(
        if x < 0 {
            -q
        } else {
            q
        },
    )
}

/// Quantizes a 64-element block in natural order.
pub fn quantize_natural(block: &[i16; 64], div: &Divisors, out: &mut [i16; 64])
    ensures
        final(out)@ == neon_quantized_block(block@, *div),
{
    for i in 0..64usize
        invariant
            forall|k: int| 0 <= k < i ==> #[trigger] out@[k] == neon_quantized_block(block@, *div)[k],
    {
        out[i] = quantize_lane(block[i], div.recip[i], div.corr[i], div.shift[i]);
    }
    assert(out@ =~= neon_quantized_block(block@, *div));
}

/// With the constants of [`crate::quant::build_divisors`], quantization of
/// any coefficient is division by `8 * q`, rounded to nearest with halves
/// away from zero.
proof fn lemma_neon_quantize(x: i16, q: u8, recip: u16, corr: u16, scale: u16, shift: i16)
    requires
        q >= 1,
        encodes_division(8 * q, recip as int, corr as int, scale as int, shift as int),
    ensures
        neon_quantized(x as int, recip as int, corr as int, shift as int) == rounded_quotient(x as int, 8 * q),
{
    let d = 8 * q;
    let n = magnitude(x as int);
    law_reciprocal_divides(n, d, recip as int, corr as int, scale as int, shift as int);
    let prod = (n + corr) * recip;
    let s = shift as nat;
    lemma2_to64();
    lemma_pow2_adds(16, s);
    lemma_pow2_pos(s);
    assert(lane_shift(shift as int) == -shift);
    lemma_div_denominator(prod, 65536, pow2(s) as int);
    assert(0 <= (n + d / 2) / d <= 32767) by (nonlinear_arith)
        requires
            0 <= n <= 32768,
            8 <= d <= 2040,
    ;
}

/// With the constants of [`crate::quant::build_divisors`], a block is
/// quantized as the reference does it: every coefficient is divided by
/// `8 * q` and rounded.
pub proof fn law_neon_quantize_matches_scalar(block: Seq<i16>, qtab: Seq<u8>, div: Divisors)
    requires
        block.len() == 64,
        qtab.len() == 64,
        forall|i: int| 0 <= i < 64 ==> #[trigger] qtab[i] >= 1,
        div.divides_by(qtab),
    ensures
        neon_quantized_block(block, div) == quantized_block(block, div),
{
    law_quantized_block_is_rounded_division(block, qtab, div);
    assert forall|i: int| 0 <= i < 64 implies #[trigger] neon_quantized_block(block, div)[i] == quantized_block(
        block,
        div,
    )[i] by {
        assert(qtab[i] >= 1);
        lemma_neon_quantize(
            block[i],
            qtab[i],
            div.recip[i],
            div.corr[i],
            div.scale[i],
            div.shift[i],
        );
    }
    assert(neon_quantized_block(block, div) =~= quantized_block(block, div));
}

} // verus!
