//! Forward and inverse 8x8 DCT in 16-bit lanes with paired products and
//! saturating narrowing. The multipliers are listed in [`crate::dct`].

use vstd::prelude::*;

use crate::arch::lanes::{descale11, lane_column, lane_diff, lane_row_raw, lane_sum};
use crate::fixed::{clamp_to_u8, lemma_shr_i32, saturate16, trunc16};

verus! {

use crate::arch::lanes::{
    fdct_row_in_lanes, fdct_stays_in_lanes, fits_lane, idct_lane_raw, idct_stays_in_lanes, lane_col_out,
    lane_col_sample, lane_row_out, lane_row_sample, lane_rows, lemma_lane_passes, thirteen_bits,
};
use crate::arch::scalar::dct::idct_block;
use crate::dct::{fdct_block, fdct_col_freq, fdct_cols, fdct_raw, fdct_row_freq, fdct_rows};
use crate::fixed::{clamp_u8, round_div, sat16, wrap16};

/// The even frequencies, from the sums of the samples that mirror each
/// other. Frequencies 0 and 4 are plain sums; the others are scaled by
/// `2^13`.
#[verifier::opaque]
pub open spec fn avx_fdct_even(k: int, t0: int, t1: int, t2: int, t3: int) -> int {
    let t10 = wrap16(t0 + t3);
    let t13 = wrap16(t0 - t3);
    let t11 = wrap16(t1 + t2);
    let t12 = wrap16(t1 - t2);
    if k == 0 {
        wrap16(t10 + t11)
    } else if k == 2 {
        10703 * t13 + 4433 * t12
    } else if k == 4 {
        wrap16(t10 - t11)
    } else {
        4433 * t13 - 10704 * t12
    }
}

/// The odd frequencies, from the differences of the samples that mirror
/// each other, scaled by `2^13`.
#[verifier::opaque]
pub open spec fn avx_fdct_odd(k: int, t4: int, t5: int, t6: int, t7: int) -> int {
    let z3 = wrap16(t4 + t6);
    let z4 = wrap16(t5 + t7);
    if k == 1 {
        4926 * t7 - 7373 * t4 + 9633 * z3 + 6437 * z4
    } else if k == 3 {
        4177 * t6 - 20995 * t5 - 6436 * z3 + 9633 * z4
    } else if k == 5 {
        9633 * z3 + 6437 * z4 - 4176 * t5 - 20995 * t6
    } else {
        9633 * z4 - 6436 * z3 - 4927 * t4 - 7373 * t7
    }
}

/// Frequency `k` of the one-dimensional forward transform in lanes: all
/// sums of samples are lanes; products and their sums are wider.
#[verifier::opaque]
pub open spec fn avx_fdct_raw(
    k: int,
    d0: int,
    d1: int,
    d2: int,
    d3: int,
    d4: int,
    d5: int,
    d6: int,
    d7: int,
) -> int {
    if k % 2 == 0 {
        avx_fdct_even(k, wrap16(d0 + d7), wrap16(d1 + d6), wrap16(d2 + d5), wrap16(d3 + d4))
    } else {
        avx_fdct_odd(k, wrap16(d3 - d4), wrap16(d2 - d5), wrap16(d1 - d6), wrap16(d0 - d7))
    }
}

/// Frequency `k` as the row pass rounds it, keeping two extra bits of
/// precision. Plain sums wrap; the others saturate.
#[verifier::opaque]
pub open spec fn avx_fdct_row_freq(
    k: int,
    d0: int,
    d1: int,
    d2: int,
    d3: int,
    d4: int,
    d5: int,
    d6: int,
    d7: int,
) -> i16 {
    let raw = avx_fdct_raw(k, d0, d1, d2, d3, d4, d5, d6, d7);
    if k == 0 || k == 4 {
        wrap16(4 * raw) as i16
    } else {
        sat16(round_div(raw, 2048)) as i16
    }
}

/// Frequency `k` as the column pass rounds it, removing the extra
/// precision again. The rounding of plain sums happens in the lane.
#[verifier::opaque]
pub open spec fn avx_fdct_col_freq(
    k: int,
    d0: int,
    d1: int,
    d2: int,
    d3: int,
    d4: int,
    d5: int,
    d6: int,
    d7: int,
) -> i16 {
    let raw = avx_fdct_raw(k, d0, d1, d2, d3, d4, d5, d6, d7);
    if k == 0 || k == 4 {
        (wrap16(raw + 2) / 4) as i16
    } else {
        sat16(round_div(raw, 32768)) as i16
    }
}

/// Entry `k` of row `r` after the row pass.
pub open spec fn avx_fdct_row_out(b: Seq<i16>, r: int, k: int) -> i16 {
    avx_fdct_row_freq(
        k,
        b[8 * r] as int,
        b[8 * r + 1] as int,
        b[8 * r + 2] as int,
        b[8 * r + 3] as int,
        b[8 * r + 4] as int,
        b[8 * r + 5] as int,
        b[8 * r + 6] as int,
        b[8 * r + 7] as int,
    )
}

/// Entry `k` of column `c` after the column pass.
pub open spec fn avx_fdct_col_out(b: Seq<i16>, c: int, k: int) -> i16 {
    avx_fdct_col_freq(
        k,
        b[c] as int,
        b[c + 8] as int,
        b[c + 16] as int,
        b[c + 24] as int,
        b[c + 32] as int,
        b[c + 40] as int,
        b[c + 48] as int,
        b[c + 56] as int,
    )
}

/// The block after the row pass.
pub open spec fn avx_fdct_rows(b: Seq<i16>) -> Seq<i16> {
    Seq::new(64, |i: int| avx_fdct_row_out(b, i / 8, i % 8))
}

/// The block after a column pass.
pub open spec fn avx_fdct_cols(b: Seq<i16>) -> Seq<i16> {
    Seq::new(64, |i: int| avx_fdct_col_out(b, i % 8, i / 8))
}

/// The forward 8x8 DCT in lanes.
pub open spec fn avx_fdct_block(b: Seq<i16>) -> Seq<i16> {
    avx_fdct_cols(avx_fdct_rows(b))
}

/// The even half of the transform.
fn avx_fdct_even_lane(t0: i16, t1: i16, t2: i16, t3: i16) -> (r: (i16, i32, i16, i32))
    ensures
        r.0 == avx_fdct_even(0, t0 as int, t1 as int, t2 as int, t3 as int),
        r.1 == avx_fdct_even(2, t0 as int, t1 as int, t2 as int, t3 as int),
        r.2 == avx_fdct_even(4, t0 as int, t1 as int, t2 as int, t3 as int),
        r.3 == avx_fdct_even(6, t0 as int, t1 as int, t2 as int, t3 as int),
        -2_000_000_000 <= r.1 <= 2_000_000_000,
        -2_000_000_000 <= r.3 <= 2_000_000_000,
{
    reveal(avx_fdct_even);
    let tmp10 = lane_sum(t0, t3);
    let tmp13 = lane_diff(t0, t3);
    let tmp11 = lane_sum(t1, t2);
    let tmp12 = lane_diff(t1, t2);
    (
        lane_sum(tmp10, tmp11),
        tmp13 as i32 * 10703 + tmp12 as i32 * 4433,
        lane_diff(tmp10, tmp11),
        tmp13 as i32 * 4433 - tmp12 as i32 * 10704,
    )
}

/// The odd half of the transform.
fn avx_fdct_odd_lane(t4: i16, t5: i16, t6: i16, t7: i16) -> (r: (i32, i32, i32, i32))
    ensures
        r.0 == avx_fdct_odd(1, t4 as int, t5 as int, t6 as int, t7 as int),
        r.1 == avx_fdct_odd(3, t4 as int, t5 as int, t6 as int, t7 as int),
        r.2 == avx_fdct_odd(5, t4 as int, t5 as int, t6 as int, t7 as int),
        r.3 == avx_fdct_odd(7, t4 as int, t5 as int, t6 as int, t7 as int),
        -2_000_000_000 <= r.0 <= 2_000_000_000,
        -2_000_000_000 <= r.1 <= 2_000_000_000,
        -2_000_000_000 <= r.2 <= 2_000_000_000,
        -2_000_000_000 <= r.3 <= 2_000_000_000,
{
    reveal(avx_fdct_odd);
    let z3_sum = lane_sum(t4, t6) as i32;
    let z4_sum = lane_sum(t5, t7) as i32;
    let z3 = z4_sum * 9633 - z3_sum * 6436;
    let z4 = z4_sum * 6437 + z3_sum * 9633;
    (
        t7 as i32 * 4926 - t4 as i32 * 7373 + z4,
        t6 as i32 * 4177 - t5 as i32 * 20995 + z3,
        z4 - t5 as i32 * 4176 - t6 as i32 * 20995,
        z3 - t4 as i32 * 4927 - t7 as i32 * 7373,
    )
}

/// The one-dimensional forward transform in lanes.
fn dodct(
    d0: i16,
    d1: i16,
    d2: i16,
    d3: i16,
    d4: i16,
    d5: i16,
    d6: i16,
    d7: i16,
) -> (r: [i32; 8])
    ensures
        forall|k: int|
            0 <= k < 8 ==> #[trigger] r[k] == avx_fdct_raw(
                k,
                d0 as int,
                d1 as int,
                d2 as int,
                d3 as int,
                d4 as int,
                d5 as int,
                d6 as int,
                d7 as int,
            ) && -2_000_000_000 <= r[k] <= 2_000_000_000,
        -32768 <= r[0] <= 32767,
        -32768 <= r[4] <= 32767,
{
    reveal(avx_fdct_raw);
    let e = avx_fdct_even_lane(lane_sum(d0, d7), lane_sum(d1, d6), lane_sum(d2, d5), lane_sum(d3, d4));
    let o = avx_fdct_odd_lane(lane_diff(d3, d4), lane_diff(d2, d5), lane_diff(d1, d6), lane_diff(d0, d7));
    [e.0 as i32, o.0, e.1, o.1, e.2 as i32, o.2, e.3, o.3]
}

/// Round-and-shift by 15 with saturation.
fn narrow15(x: i32) -> (r: i16)
    requires
        -2_000_000_000 <= x <= 2_000_000_000,
    ensures
        r == sat16(round_div(x as int, 32768)),
{
    proof {
        lemma_shr_i32((x + 16384) as i32);
    }
    saturate16((x + 16384) >> 15)
}

/// Rounding shift of a lane by 2 bits, in the lane.
fn round2(x: i32) -> (r: i16)
    requires
        -32768 <= x <= 32767,
    ensures
        r == wrap16(x + 2) / 4,
{
    let y = trunc16(x + 2) as i32;
    proof {
        lemma_shr_i32(y);
    }
    (y >> 2) as i16
}

/// One row of eight samples.
fn avx_fdct_row8(
    d0: i16,
    d1: i16,
    d2: i16,
    d3: i16,
    d4: i16,
    d5: i16,
    d6: i16,
    d7: i16,
) -> (out: [i16; 8])
    ensures
        forall|k: int|
            0 <= k < 8 ==> #[trigger] out[k] == avx_fdct_row_freq(
                k,
                d0 as int,
                d1 as int,
                d2 as int,
                d3 as int,
                d4 as int,
                d5 as int,
                d6 as int,
                d7 as int,
            ),
{
    reveal(avx_fdct_row_freq);
    let r = dodct(d0, d1, d2, d3, d4, d5, d6, d7);
    [
        trunc16(4 * r[0]),
        saturate16(descale11(r[1])),
        saturate16(descale11(r[2])),
        saturate16(descale11(r[3])),
        trunc16(4 * r[4]),
        saturate16(descale11(r[5])),
        saturate16(descale11(r[6])),
        saturate16(descale11(r[7])),
    ]
}

/// One column of eight entries.
fn avx_fdct_col8(
    d0: i16,
    d1: i16,
    d2: i16,
    d3: i16,
    d4: i16,
    d5: i16,
    d6: i16,
    d7: i16,
) -> (out: [i16; 8])
    ensures
        forall|k: int|
            0 <= k < 8 ==> #[trigger] out[k] == avx_fdct_col_freq(
                k,
                d0 as int,
                d1 as int,
                d2 as int,
                d3 as int,
                d4 as int,
                d5 as int,
                d6 as int,
                d7 as int,
            ),
{
    reveal(avx_fdct_col_freq);
    let r = dodct(d0, d1, d2, d3, d4, d5, d6, d7);
    [
        round2(r[0]),
        narrow15(r[1]),
        narrow15(r[2]),
        narrow15(r[3]),
        round2(r[4]),
        narrow15(r[5]),
        narrow15(r[6]),
        narrow15(r[7]),
    ]
}

/// Transforms the rows.
fn avx_fdct_row_pass(data: &[i16; 64]) -> (out: [i16; 64])
    ensures
        out@ == avx_fdct_rows(data@),
{
    let mut out: [i16; 64] = [0i16; 64];
    for row in 0..8usize
        invariant
            forall|i: int| 0 <= i < 64 && i / 8 < row ==> #[trigger] out@[i] == avx_fdct_row_out(data@, i / 8, i % 8),
    {
        let off: usize = row * 8;
        let line = avx_fdct_row8(
            data[off],
            data[off + 1],
            data[off + 2],
            data[off + 3],
            data[off + 4],
            data[off + 5],
            data[off + 6],
            data[off + 7],
        );
        for k in 0..8usize
            invariant
                row < 8,
                off == 8 * row,
                forall|k: int| 0 <= k < 8 ==> #[trigger] line[k] == avx_fdct_row_out(data@, row as int, k),
                forall|i: int|
                    0 <= i < 64 && (i / 8 < row || i / 8 == row && i % 8 < k) ==> #[trigger] out@[i]
                        == avx_fdct_row_out(data@, i / 8, i % 8),
        {
            out[off + k] = line[k];
        }
    }
    assert(out@ =~= avx_fdct_rows(data@));
    out
}

/// Transforms the columns.
fn avx_fdct_col_pass(data: &[i16; 64]) -> (out: [i16; 64])
    ensures
        out@ == avx_fdct_cols(data@),
{
    let mut out: [i16; 64] = [0i16; 64];
    for col in 0..8usize
        invariant
            forall|i: int| 0 <= i < 64 && i % 8 < col ==> #[trigger] out@[i] == avx_fdct_col_out(data@, i % 8, i / 8),
    {
        let line = avx_fdct_col8(
            data[col],
            data[col + 8],
            data[col + 16],
            data[col + 24],
            data[col + 32],
            data[col + 40],
            data[col + 48],
            data[col + 56],
        );
        for k in 0..8usize
            invariant
                col < 8,
                forall|k: int| 0 <= k < 8 ==> #[trigger] line[k] == avx_fdct_col_out(data@, col as int, k),
                forall|i: int|
                    0 <= i < 64 && (i % 8 < col || i % 8 == col && i / 8 < k) ==> #[trigger] out@[i]
                        == avx_fdct_col_out(data@, i % 8, i / 8),
        {
            out[8 * k + col] = line[k];
        }
    }
    assert(out@ =~= avx_fdct_cols(data@));
    out
}

/// Forward 8x8 DCT, in place, over level-shifted samples in row-major
/// order. The coefficients are scaled by eight.
pub fn fdct_islow(data: &mut [i16; 64])
    ensures
        final(data)@ == avx_fdct_block(old(data)@),
{
    let rows = avx_fdct_row_pass(data);
    *data = avx_fdct_col_pass(&rows);
}

/// A workspace after the column pass of the inverse transform.
pub open spec fn avx_idct_cols(coef: Seq<i16>) -> Seq<i16> {
    Seq::new(64, |i: int| sat16(lane_col_out(coef, i % 8, i / 8)) as i16)
}

/// The inverse 8x8 DCT in lanes. What the column pass yields is saturated
/// to a lane.
pub open spec fn avx_idct_block(coef: Seq<i16>) -> Seq<u8> {
    lane_rows(avx_idct_cols(coef))
}

/// One-dimensional inverse transform of frequencies 0 to 3, the others
/// being zero.
fn idct_dodct_sparse(c0: i16, c1: i16, c2: i16, c3: i16) -> (r: [i32; 8])
    ensures
        forall|x: int|
            0 <= x < 8 ==> #[trigger] r[x] == idct_lane_raw(
                x,
                c0 as int,
                c1 as int,
                c2 as int,
                c3 as int,
                0,
                0,
                0,
                0,
            ) && -2_115_900_000 <= r[x] <= 2_115_900_000,
{
    reveal(idct_lane_raw);

    // Even part.
    let tmp3 = c2 as i32 * 10703;
    let tmp2 = c2 as i32 * 4433;
    let tmp0 = c0 as i32 * 8192;
    let tmp10 = tmp0 + tmp3;
    let tmp13 = tmp0 - tmp3;
    let tmp11 = tmp0 + tmp2;
    let tmp12 = tmp0 - tmp2;

    // Odd part.
    let z3 = c1 as i32 * 9633 - c3 as i32 * 6436;
    let z4 = c3 as i32 * 9633 + c1 as i32 * 6437;
    let t0 = z3 - c1 as i32 * 7373;
    let t1 = z4 - c3 as i32 * 20995;
    let t2 = z3 + c3 as i32 * 4177;
    let t3 = z4 + c1 as i32 * 4926;
    [
        tmp10 + t3,
        tmp11 + t2,
        tmp12 + t1,
        tmp13 + t0,
        tmp13 - t0,
        tmp12 - t1,
        tmp11 - t2,
        tmp10 - t3,
    ]
}

/// The entries from `from` on are zero.
fn zero_from(block: &[i16; 64], from: usize) -> (r: bool)
    requires
        from <= 64,
    ensures
        r == (forall|i: int| from <= i < 64 ==> #[trigger] block[i] == 0),
{
    let mut i: usize = from;
    while i < 64
        invariant
            from <= i <= 64,
            forall|k: int| from <= k < i ==> #[trigger] block[k] == 0,
        decreases 64 - i,
    {
        if block[i] != 0 {
            return false;
        }
        i = i + 1;
    }
    true
}

/// Columns 4 to 7 are zero.
fn right_half_zero(ws: &[i16; 64]) -> (r: bool)
    ensures
        r == (forall|i: int| 0 <= i < 64 && i % 8 >= 4 ==> #[trigger] ws[i] == 0),
{
    let mut i: usize = 0;
    while i < 64
        invariant
            i <= 64,
            forall|k: int| 0 <= k < i && k % 8 >= 4 ==> #[trigger] ws[k] == 0,
        decreases 64 - i,
    {
        if i % 8 >= 4 && ws[i] != 0 {
            return false;
        }
        i = i + 1;
    }
    true
}

/// Column `col` of the column pass where rows 4 to 7 are zero.
fn sparse_column(coef: &[i16; 64], col: usize) -> (out: [i32; 8])
    requires
        col < 8,
        forall|i: int| 32 <= i < 64 ==> #[trigger] coef[i] == 0,
    ensures
        forall|x: int| 0 <= x < 8 ==> #[trigger] out[x] == lane_col_out(coef@, col as int, x),
{
    reveal(lane_col_sample);
    let r = idct_dodct_sparse(coef[col], coef[col + 8], coef[col + 16], coef[col + 24]);
    assert(coef@[col + 32] == 0 && coef@[col + 40] == 0 && coef@[col + 48] == 0 && coef@[col + 56] == 0);
    [
        descale11(r[0]),
        descale11(r[1]),
        descale11(r[2]),
        descale11(r[3]),
        descale11(r[4]),
        descale11(r[5]),
        descale11(r[6]),
        descale11(r[7]),
    ]
}

/// Row `row` of the row pass where columns 4 to 7 are zero.
fn sparse_row_raw(ws: &[i16; 64], row: usize) -> (r: [i32; 8])
    requires
        row < 8,
        forall|i: int| 0 <= i < 64 && i % 8 >= 4 ==> #[trigger] ws[i] == 0,
    ensures
        forall|x: int|
            0 <= x < 8 ==> -2_115_900_000 <= #[trigger] r[x] <= 2_115_900_000 && lane_row_out(
                ws@,
                row as int,
                x,
            ) == clamp_u8(round_div(r[x] as int, 262144) + 128),
{
    reveal(lane_row_sample);
    let off: usize = row * 8;
    assert(ws@[8 * row + 4] == 0 && ws@[8 * row + 5] == 0 && ws@[8 * row + 6] == 0 && ws@[8 * row + 7] == 0);
    idct_dodct_sparse(ws[off], ws[off + 1], ws[off + 2], ws[off + 3])
}

/// Rounds, shifts the level and limits.
fn finish_sample(x: i32) -> (r: u8)
    requires
        -2_115_900_000 <= x <= 2_115_900_000,
    ensures
        r == clamp_u8(round_div(x as int, 262144) + 128),
{
    proof {
        lemma_shr_i32((x + 131072) as i32);
    }
    clamp_to_u8(((x + 131072) >> 18) + 128)
}

/// Column pass of the inverse transform.
fn avx_idct_col_pass(coef: &[i16; 64]) -> (ws: [i16; 64])
    ensures
        ws@ == avx_idct_cols(coef@),
{
    let mut ws: [i16; 64] = [0i16; 64];
    let sparse = zero_from(coef, 32);
    for col in 0..8usize
        invariant
            sparse == (forall|i: int| 32 <= i < 64 ==> #[trigger] coef[i] == 0),
            forall|i: int|
                0 <= i < 64 && i % 8 < col ==> #[trigger] ws@[i] == sat16(lane_col_out(coef@, i % 8, i / 8)),
    {
        let line = if sparse {
            sparse_column(coef, col)
        } else {
            lane_column(coef, col)
        };
        for k in 0..8usize
            invariant
                col < 8,
                forall|x: int| 0 <= x < 8 ==> #[trigger] line[x] == lane_col_out(coef@, col as int, x),
                forall|i: int|
                    0 <= i < 64 && (i % 8 < col || i % 8 == col && i / 8 < k) ==> #[trigger] ws@[i]
                        == sat16(lane_col_out(coef@, i % 8, i / 8)),
        {
            ws[8 * k + col] = saturate16(line[k]);
        }
    }
    assert(ws@ =~= avx_idct_cols(coef@));
    ws
}

/// Row pass of the inverse transform.
fn avx_idct_row_pass(ws: &[i16; 64], output: &mut [u8; 64])
    ensures
        final(output)@ == lane_rows(ws@),
{
    let sparse = right_half_zero(ws);
    for row in 0..8usize
        invariant
            sparse == (forall|i: int| 0 <= i < 64 && i % 8 >= 4 ==> #[trigger] ws[i] == 0),
            forall|i: int| 0 <= i < 64 && i / 8 < row ==> #[trigger] output@[i] == lane_row_out(ws@, i / 8, i % 8),
    {
        let line = if sparse {
            sparse_row_raw(ws, row)
        } else {
            lane_row_raw(ws, row)
        };
        let off: usize = row * 8;
        for k in 0..8usize
            invariant
                row < 8,
                off == 8 * row,
                forall|x: int|
                    0 <= x < 8 ==> -2_115_900_000 <= #[trigger] line[x] <= 2_115_900_000 && lane_row_out(
                        ws@,
                        row as int,
                        x,
                    ) == clamp_u8(round_div(line[x] as int, 262144) + 128),
                forall|i: int|
                    0 <= i < 64 && (i / 8 < row || i / 8 == row && i % 8 < k) ==> #[trigger] output@[i]
                        == lane_row_out(ws@, i / 8, i % 8),
        {
            output[off + k] = finish_sample(line[k]);
        }
    }
    assert(output@ =~= lane_rows(ws@));
}

/// The one-dimensional inverse transform of a single DC frequency is flat.
proof fn lemma_lane_raw_of_dc(x: int, c: int)
    requires
        fits_lane(c),
    ensures
        idct_lane_raw(x, c, 0, 0, 0, 0, 0, 0, 0) == 8192 * c,
{
    reveal(idct_lane_raw);
    assert(wrap16(c) == c && wrap16(0) == 0);
}

/// What the column pass and the row pass make of a single DC frequency.
proof fn lemma_samples_of_dc(x: int, c: int)
    requires
        fits_lane(c),
    ensures
        lane_col_sample(x, c, 0, 0, 0, 0, 0, 0, 0) == 4 * c,
        lane_row_sample(x, c, 0, 0, 0, 0, 0, 0, 0) == clamp_u8((c + 16) / 32 + 128),
{
    lemma_lane_raw_of_dc(x, c);
    reveal(lane_col_sample);
    reveal(lane_row_sample);
}

/// A block with only a DC coefficient decodes to a flat block: the
/// coefficient divided by eight, rounded, level-shifted and limited.
pub proof fn law_avx_idct_of_dc(coef: Seq<i16>)
    requires
        coef.len() == 64,
        forall|i: int| 1 <= i < 64 ==> #[trigger] coef[i] == 0,
    ensures
        forall|i: int|
            0 <= i < 64 ==> #[trigger] avx_idct_block(coef)[i] == clamp_u8(round_div(coef[0] as int, 8) + 128),
{
    let ws = avx_idct_cols(coef);
    let dc = coef[0] as int;
    assert forall|i: int| 0 <= i < 64 implies #[trigger] ws[i] == if i % 8 == 0 {
        sat16(4 * dc)
    } else {
        0
    } by {
        let c = i % 8;
        assert(coef[c + 8] == 0 && coef[c + 16] == 0 && coef[c + 24] == 0 && coef[c + 32] == 0 && coef[c + 40] == 0
            && coef[c + 48] == 0 && coef[c + 56] == 0);
        lemma_samples_of_dc(i / 8, coef[c] as int);
    }
    assert forall|i: int| 0 <= i < 64 implies #[trigger] avx_idct_block(coef)[i] == clamp_u8(
        round_div(dc, 8) + 128,
    ) by {
        let r = i / 8;
        assert(ws[8 * r] == sat16(4 * dc) && ws[8 * r + 1] == 0 && ws[8 * r + 2] == 0 && ws[8 * r + 3] == 0 && ws[8
            * r + 4] == 0 && ws[8 * r + 5] == 0 && ws[8 * r + 6] == 0 && ws[8 * r + 7] == 0);
        lemma_samples_of_dc(i % 8, sat16(4 * dc));
    }
}

/// Inverse 8x8 DCT of dequantized coefficients in natural order. Blocks of
/// a single DC coefficient, and blocks without coefficients in rows 4 to 7
/// or columns 4 to 7, take shorter ways to the same samples.
pub fn idct_islow(coef: &[i16; 64], output: &mut [u8; 64])
    ensures
        final(output)@ == avx_idct_block(coef@),
{
    if zero_from(coef, 1) {
        let dc: i32 = coef[0] as i32;
        proof {
            lemma_shr_i32((dc + 4) as i32);
            law_avx_idct_of_dc(coef@);
        }
        *output = [clamp_to_u8(((dc + 4) >> 3) + 128); 64];
        assert(output@ =~= avx_idct_block(coef@));
        return;
    }
    let ws = avx_idct_col_pass(coef);
    avx_idct_row_pass(&ws, output);
}

/// The inverse transform equals the reference wherever it stays in its
/// lanes.
pub proof fn law_avx_idct_matches_scalar(coef: Seq<i16>)
    requires
        coef.len() == 64,
        idct_stays_in_lanes(coef),
    ensures
        avx_idct_block(coef) == idct_block(coef),
{
    let ws = avx_idct_cols(coef);
    assert forall|i: int| 0 <= i < 64 && fits_lane(lane_col_out(coef, i % 8, i / 8)) implies #[trigger] ws[i]
        == lane_col_out(coef, i % 8, i / 8) by {}
    lemma_lane_passes(coef, ws);
}

proof fn lemma_even_is_exact(t0: int, t1: int, t2: int, t3: int)
    requires
        -8192 <= t0 <= 8190,
        -8192 <= t1 <= 8190,
        -8192 <= t2 <= 8190,
        -8192 <= t3 <= 8190,
    ensures
        avx_fdct_even(0, t0, t1, t2, t3) == t0 + t1 + t2 + t3,
        avx_fdct_even(2, t0, t1, t2, t3) == 10703 * (t0 - t3) + 4433 * (t1 - t2),
        avx_fdct_even(4, t0, t1, t2, t3) == t0 + t3 - t1 - t2,
        avx_fdct_even(6, t0, t1, t2, t3) == 4433 * (t0 - t3) - 10704 * (t1 - t2),
{
    reveal(avx_fdct_even);
}

proof fn lemma_odd_is_exact(t4: int, t5: int, t6: int, t7: int)
    requires
        -8191 <= t4 <= 8191,
        -8191 <= t5 <= 8191,
        -8191 <= t6 <= 8191,
        -8191 <= t7 <= 8191,
    ensures
        avx_fdct_odd(1, t4, t5, t6, t7) == 11363 * t7 + 9633 * t6 + 6437 * t5 + 2260 * t4,
        avx_fdct_odd(3, t4, t5, t6, t7) == 9633 * t7 - 2259 * t6 - 11362 * t5 - 6436 * t4,
        avx_fdct_odd(5, t4, t5, t6, t7) == 6437 * t7 - 11362 * t6 + 2261 * t5 + 9633 * t4,
        avx_fdct_odd(7, t4, t5, t6, t7) == 2260 * t7 - 6436 * t6 + 9633 * t5 - 11363 * t4,
{
    reveal(avx_fdct_odd);
}

/// On 13-bit values the transform in lanes is exact.
proof fn lemma_raw_is_exact(
    k: int,
    d0: int,
    d1: int,
    d2: int,
    d3: int,
    d4: int,
    d5: int,
    d6: int,
    d7: int,
)
    requires
        0 <= k < 8,
        thirteen_bits(d0, d1, d2, d3, d4, d5, d6, d7),
    ensures
        k == 0 || k == 4 ==> fdct_raw(k, d0, d1, d2, d3, d4, d5, d6, d7) == 8192 * avx_fdct_raw(k, d0, d1, d2, d3, d4, d5, d6, d7) && -32768 <= avx_fdct_raw(k, d0, d1, d2, d3, d4, d5, d6, d7) <= 32764,
        k != 0 && k != 4 ==> fdct_raw(k, d0, d1, d2, d3, d4, d5, d6, d7) == avx_fdct_raw(k, d0, d1, d2, d3, d4, d5, d6, d7),
        -268435456 <= fdct_raw(k, d0, d1, d2, d3, d4, d5, d6, d7) <= 268435456,
{
    lemma_even_is_exact(d0 + d7, d1 + d6, d2 + d5, d3 + d4);
    lemma_odd_is_exact(d3 - d4, d2 - d5, d1 - d6, d0 - d7);
    assert(wrap16(d0 + d7) == d0 + d7 && wrap16(d1 + d6) == d1 + d6 && wrap16(d2 + d5) == d2 + d5 && wrap16(
        d3 + d4,
    ) == d3 + d4);
    assert(wrap16(d3 - d4) == d3 - d4 && wrap16(d2 - d5) == d2 - d5 && wrap16(d1 - d6) == d1 - d6 && wrap16(
        d0 - d7,
    ) == d0 - d7);
    reveal(avx_fdct_raw);
    reveal(fdct_raw);
    if k == 0 {
    } else if k == 1 {
    } else if k == 2 {
    } else if k == 3 {
    } else if k == 4 {
    } else if k == 5 {
    } else if k == 6 {
    }
}

/// The forward transform equals the reference wherever it stays in its
/// lanes.
pub proof fn law_avx_fdct_matches_scalar(b: Seq<i16>)
    requires
        b.len() == 64,
        fdct_stays_in_lanes(b),
    ensures
        avx_fdct_block(b) == fdct_block(b),
{
    let mid = fdct_rows(b);
    assert forall|i: int| 0 <= i < 64 implies #[trigger] avx_fdct_rows(b)[i] == mid[i] && -4096 <= mid[i] <= 4095 by {
        let r = i / 8;
        assert(fdct_row_in_lanes(b, r));
        lemma_raw_is_exact(
            i % 8,
            b[8 * r] as int,
            b[8 * r + 1] as int,
            b[8 * r + 2] as int,
            b[8 * r + 3] as int,
            b[8 * r + 4] as int,
            b[8 * r + 5] as int,
            b[8 * r + 6] as int,
            b[8 * r + 7] as int,
        );
        assert(-4096 <= round_div(
            fdct_raw(
                i % 8,
                b[8 * r] as int,
                b[8 * r + 1] as int,
                b[8 * r + 2] as int,
                b[8 * r + 3] as int,
                b[8 * r + 4] as int,
                b[8 * r + 5] as int,
                b[8 * r + 6] as int,
                b[8 * r + 7] as int,
            ),
            2048,
        ) <= 4095);
        reveal(avx_fdct_row_freq);
        reveal(fdct_row_freq);
    }
    assert(avx_fdct_rows(b) =~= mid);
    assert forall|i: int| 0 <= i < 64 implies #[trigger] avx_fdct_cols(mid)[i] == fdct_cols(mid)[i] by {
        let c = i % 8;
        lemma_raw_is_exact(
            i / 8,
            mid[c] as int,
            mid[c + 8] as int,
            mid[c + 16] as int,
            mid[c + 24] as int,
            mid[c + 32] as int,
            mid[c + 40] as int,
            mid[c + 48] as int,
            mid[c + 56] as int,
        );
        reveal(avx_fdct_col_freq);
        reveal(fdct_col_freq);
    }
    assert(avx_fdct_cols(mid) =~= fdct_cols(mid));
}

} // verus!
