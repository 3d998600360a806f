//! From pixels to quantized coefficients, one MCU at a time.

use vstd::prelude::*;

use super::dct::fdct_islow;
use super::quant::{quantize_natural, zigzag_scatter};
use crate::color::extract_mcu_420_rgb_full;
use crate::quant::Divisors;

verus! {

use super::dct::{avx_fdct_block, law_avx_fdct_matches_scalar};
use super::quant::{avx_quantized_block, law_avx_quantize_matches_scalar};
use crate::arch::lanes::law_samples_stay_in_lanes;
use crate::arch::scalar::color::h2v2_downsampled;
use crate::arch::scalar::quant::{law_quantized_block_is_rounded_division, quantized_block};
use crate::color::{block_of_16, holds_rgb_window, inner_window, RGB};
use crate::dct::fdct_block;
use crate::quant::{law_quotient_is_the_nearest, rounded_quotient};
use crate::tables::{to_zigzag, ZIGZAG};

/// A block transformed, quantized and put in zig-zag order.
pub open spec fn coded_block(block: Seq<i16>, div: Divisors) -> Seq<i16> {
    to_zigzag(avx_quantized_block(avx_fdct_block(block), div))
}

/// Transforms and quantizes a block; the result is in zig-zag order.
fn fdct_quantize_zigzag(block: &mut [i16; 64], div: &Divisors)
    ensures
        final(block)@ == coded_block(old(block)@, *div),
{
    let mut natural: [i16; 64] = [0i16; 64];
    fdct_islow(block);
    quantize_natural(block, div, &mut natural);
    zigzag_scatter(&natural, block);
}

/// Transforms and quantizes the 16x16 MCU at `(x0, y0)` of packed RGB: four
/// luma blocks in raster order, then Cb and Cr at half the resolution, each
/// in zig-zag order. The MCU lies within the image.
pub fn quantize_mcu_420_rgb_full(
    pixels: &[u8],
    width: u32,
    x0: u32,
    y0: u32,
    div_luma: &Divisors,
    div_chroma: &Divisors,
    out: &mut [[i16; 64]],
)
    requires
        holds_rgb_window(pixels@, width as int, x0 as int, y0 as int, 16, 16),
        old(out)@.len() >= 6,
    ensures
        final(out)@.len() == old(out)@.len(),
        forall|q: int|
            0 <= q < 4 ==> (#[trigger] final(out)@[q])@ == coded_block(
                block_of_16(
                    inner_window(pixels@, width as int, RGB(), x0 as int, y0 as int, 16, 16, 0),
                    q % 2,
                    q / 2,
                ),
                *div_luma,
            ),
        final(out)@[4]@ == coded_block(
            h2v2_downsampled(inner_window(pixels@, width as int, RGB(), x0 as int, y0 as int, 16, 16, 1)),
            *div_chroma,
        ),
        final(out)@[5]@ == coded_block(
            h2v2_downsampled(inner_window(pixels@, width as int, RGB(), x0 as int, y0 as int, 16, 16, 2)),
            *div_chroma,
        ),
        forall|q: int| 6 <= q < old(out)@.len() ==> #[trigger] final(out)@[q] == old(out)@[q],
{
    let mut y_blocks: [[i16; 64]; 4] = [[0i16; 64]; 4];
    let mut cb_block: [i16; 64] = [0i16; 64];
    let mut cr_block: [i16; 64] = [0i16; 64];
    extract_mcu_420_rgb_full(pixels, width, x0, y0, &mut y_blocks, &mut cb_block, &mut cr_block);
    let ghost before = out@;
    let ghost luma = inner_window(pixels@, width as int, RGB(), x0 as int, y0 as int, 16, 16, 0);
    for q in 0..4usize
        invariant
            before.len() >= 6,
            out@.len() == before.len(),
            forall|k: int| 0 <= k < 4 ==> (#[trigger] y_blocks@[k])@ == block_of_16(luma, k % 2, k / 2),
            forall|k: int|
                0 <= k < q ==> (#[trigger] out@[k])@ == coded_block(block_of_16(luma, k % 2, k / 2), *div_luma),
            forall|k: int| 6 <= k < before.len() ==> #[trigger] out@[k] == before[k],
    {
        let mut block = y_blocks[q];
        fdct_quantize_zigzag(&mut block, div_luma);
        out[q] = block;
    }
    fdct_quantize_zigzag(&mut cb_block, div_chroma);
    fdct_quantize_zigzag(&mut cr_block, div_chroma);
    out[4] = cb_block;
    out[5] = cr_block;
}

/// For level-shifted samples, and with the constants of
/// [`crate::quant::build_divisors`], a block is coded as by the reference
/// kernels.
pub proof fn law_coded_block_matches_scalar(block: Seq<i16>, qtab: Seq<u8>, div: Divisors)
    requires
        block.len() == 64,
        forall|i: int| 0 <= i < 64 ==> -128 <= #[trigger] block[i] <= 127,
        qtab.len() == 64,
        forall|i: int| 0 <= i < 64 ==> #[trigger] qtab[i] >= 1,
        div.divides_by(qtab),
    ensures
        coded_block(block, div) == to_zigzag(quantized_block(fdct_block(block), div)),
{
    law_samples_stay_in_lanes(block);
    law_avx_fdct_matches_scalar(block);
    law_avx_quantize_matches_scalar(fdct_block(block), qtab, div);
}

/// Coefficient `k` of a coded block is the frequency at that place of the
/// zig-zag order, divided by eight times the table's entry for it, rounded to
/// the nearest integer.
pub proof fn law_coded_coefficient_is_rounded_division(
    block: Seq<i16>,
    qtab: Seq<u8>,
    div: Divisors,
    k: int,
)
    requires
        block.len() == 64,
        forall|i: int| 0 <= i < 64 ==> -128 <= #[trigger] block[i] <= 127,
        qtab.len() == 64,
        forall|i: int| 0 <= i < 64 ==> #[trigger] qtab[i] >= 1,
        div.divides_by(qtab),
        0 <= k < 64,
    ensures
        ({
            let at = ZIGZAG[k] as int;
            let (x, d) = (fdct_block(block)[at] as int, 8 * qtab[at] as int);
            -d <= 2 * (x - d * coded_block(block, div)[k]) <= d
        }),
{
    law_coded_block_matches_scalar(block, qtab, div);
    law_quantized_block_is_rounded_division(fdct_block(block), qtab, div);
    crate::tables::law_zigzag_is_permutation(k);
    let at = ZIGZAG[k] as int;
    assert(qtab[at] >= 1);
    let (x, d) = (fdct_block(block)[at] as int, 8 * qtab[at] as int);
    law_quotient_is_the_nearest(x, d);
    let r = rounded_quotient(x, d);
    assert(-32768 <= r <= 32767) by (nonlinear_arith)
        requires
            -d <= 2 * (x - d * r) <= d,
            -32768 <= x <= 32767,
            d >= 8,
    ;
}

} // verus!
