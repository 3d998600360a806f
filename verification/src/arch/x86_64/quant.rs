//! Quantization in 16-bit lanes by two high-half multiplications, and
//! zig-zag reordering.

use vstd::arithmetic::div_mod::lemma_div_denominator;
use vstd::arithmetic::power2::{lemma2_to64, lemma_pow2_adds, lemma_pow2_pos, pow2};
use vstd::prelude::*;

use crate::fixed::trunc16;
use crate::quant::Divisors;

verus! {

use crate::arch::scalar::quant::{magnitude, quantized_block, law_quantized_block_is_rounded_division};
use crate::fixed::wrap16;
use crate::quant::{encodes_division, law_reciprocal_divides, rounded_quotient};
use crate::tables::to_zigzag;

/// One quantized coefficient. The multiplication by `scale` stands in for
/// the shift.
pub open spec fn avx_quantized(x: int, recip: int, corr: int, scale: int) -> int {
    let stage1 = (magnitude(x) + corr) % 65536 * recip / 65536;
    let stage2 = stage1 * scale / 65536;
    if x == 0 {
        0
    } else {
        wrap16(
            if x < 0 {
                -stage2
            } else {
                stage2
            },
        )
    }
}

/// A quantized block.
pub open spec fn avx_quantized_block(block: Seq<i16>, div: Divisors) -> Seq<i16> {
    Seq::new(
        64,
        |i: int|
            avx_quantized(block[i] as int, div.recip[i] as int, div.corr[i] as int, div.scale[i] as int) as i16,
    )
}

/// High half of a product of two lanes.
fn mul_high(a: u32, b: u16) -> (r: u32)
    requires
        a <= 65535,
    ensures
        r == a * b / 65536,
        r <= 65535,
{
    assert(0 <= a * b <= 65535 * 65535) by (nonlinear_arith)
        requires
            0 <= a <= 65535,
            0 <= b <= 65535,
    ;
    a * (b as u32) / 65536
}

/// Quantizes one coefficient.
fn quantize_lane(x: i16, recip: u16, corr: u16, scale: u16) -> (r: i16)
    ensures
        r == avx_quantized(x as int, recip as int, corr as int, scale as int),
{
    let abs: u32 = if x < 0 {
        (-(x as i32)) as u32
    } else {
        x as u32
    };
    let biased: u32 = (abs + corr as u32) % 65536;
    let stage1: u32 = mul_high(biased, recip);
    let stage2: i32 = mul_high(stage1, scale) as i32;
    if x == 0 {
        0
    } else if x < 0 {
        trunc16(-stage2)
    } else {
        trunc16(stage2)
    }
}

/// Quantizes a 64-element block in natural order.
pub fn quantize_natural(block: &[i16; 64], div: &Divisors, out: &mut [i16; 64])
    ensures
        final(out)@ == avx_quantized_block(block@, *div),
{
    for i in 0..64usize
        invariant
            forall|k: int| 0 <= k < i ==> #[trigger] out@[k] == avx_quantized_block(block@, *div)[k],
    {
        out[i] = quantize_lane(block[i], div.recip[i], div.corr[i], div.scale[i]);
    }
    assert(out@ =~= avx_quantized_block(block@, *div));
}

/// Rearranges `natural` (natural order) into `zz` (zig-zag order).
pub fn zigzag_scatter(natural: &[i16; 64], zz: &mut [i16; 64])
    ensures
        final(zz)@ == to_zigzag(natural@),
{
    crate::arch::scalar::quant::zigzag_scatter(natural, zz);
}

/// With the constants of [`crate::quant::build_divisors`], quantization of
/// any coefficient is division by `8 * q`, rounded to nearest with halves
/// away from zero.
proof fn lemma_avx_quantize(x: i16, q: u8, recip: u16, corr: u16, scale: u16, shift: i16)
    requires
        q >= 1,
        encodes_division(8 * q, recip as int, corr as int, scale as int, shift as int),
    ensures
        avx_quantized(x as int, recip as int, corr as int, scale as int) == rounded_quotient(x as int, 8 * q),
{
    let d = 8 * q;
    let n = magnitude(x as int);
    law_reciprocal_divides(n, d, recip as int, corr as int, scale as int, shift as int);
    let prod = (n + corr) * recip;
    let s = shift as nat;
    lemma2_to64();
    lemma_pow2_adds(16, s);
    lemma_pow2_pos(s);
    lemma_pow2_adds(s, (16 - s) as nat);
    lemma_pow2_pos((16 - s) as nat);
    lemma_div_denominator(prod, 65536, pow2(s) as int);
    let stage1 = prod / 65536;
    let ps = pow2(s) as int;
    let pc = pow2((16 - s) as nat) as int;
    assert(scale == pc);
    assert(ps * pc == 65536);
    assert(0 <= stage1);
    lemma_scaled_quotient(stage1, ps, pc);
    assert(stage1 * scale / 65536 == (n + d / 2) / d);
    assert(d / 2 / d == 0) by (nonlinear_arith)
        requires
            8 <= d <= 2040,
    ;
    assert(0 <= (n + d / 2) / d <= 32767) by (nonlinear_arith)
        requires
            0 <= n <= 32768,
            8 <= d <= 2040,
    ;
}

/// Multiplying and dividing by the same factor.
proof fn lemma_scaled_quotient(v: int, a: int, b: int)
    requires
        0 <= v,
        0 < a,
        0 < b,
    ensures
        v * b / (a * b) == v / a,
{
    let q = v / a;
    let r = v % a;
    vstd::arithmetic::div_mod::lemma_fundamental_div_mod(v, a);
    assert(v * b == (a * b) * q + r * b) by (nonlinear_arith)
        requires
            v == a * q + r,
    ;
    assert(0 <= r * b < a * b) by (nonlinear_arith)
        requires
            0 <= r < a,
            0 < b,
    ;
    vstd::arithmetic::div_mod::lemma_fundamental_div_mod_converse(v * b, a * b, q, r * b);
}

/// With the constants of [`crate::quant::build_divisors`], a block is
/// quantized as the reference does it: every coefficient is divided by
/// `8 * q` and rounded.
pub proof fn law_avx_quantize_matches_scalar(block: Seq<i16>, qtab: Seq<u8>, div: Divisors)
    requires
        block.len() == 64,
        qtab.len() == 64,
        forall|i: int| 0 <= i < 64 ==> #[trigger] qtab[i] >= 1,
        div.divides_by(qtab),
    ensures
        avx_quantized_block(block, div) == quantized_block(block, div),
{
    law_quantized_block_is_rounded_division(block, qtab, div);
    assert forall|i: int| 0 <= i < 64 implies #[trigger] avx_quantized_block(block, div)[i] == quantized_block(
        block,
        div,
    )[i] by {
        assert(qtab[i] >= 1);
        lemma_avx_quantize(
            block[i],
            qtab[i],
            div.recip[i],
            div.corr[i],
            div.scale[i],
            div.shift[i],
        );
    }
    assert(avx_quantized_block(block, div) =~= quantized_block(block, div));
}

} // verus!
