//! Forward and inverse 8x8 DCT in 16-bit lanes with truncating narrowing.
//! The multipliers are listed in [`crate::dct`].

use vstd::prelude::*;

use crate::arch::lanes::{lane_column, lane_diff, lane_row_raw, lane_sum};
use crate::fixed::{clamp_to_u8, lemma_shr_i32, trunc16};

verus! {

use crate::arch::lanes::{
    fdct_row_in_lanes, fdct_stays_in_lanes, fits_lane, idct_stays_in_lanes, lane_col_out, lane_row_out, lane_rows,
    lemma_lane_passes, thirteen_bits,
};
use crate::arch::scalar::dct::idct_block;
use crate::dct::{
    fdct_block, fdct_col_freq, fdct_cols, fdct_raw, fdct_row_freq, fdct_rows,
};
use crate::fixed::{clamp_u8, round_div, wrap16};

/// The even frequencies, from the sums of the samples that mirror each
/// other. Frequencies 0 and 4 are plain sums; the others are scaled by
/// `2^13`.
#[verifier::opaque]
pub open spec fn neon_fdct_even(k: int, t0: int, t1: int, t2: int, t3: int) -> int {
    let t10 = wrap16(t0 + t3);
    let t13 = wrap16(t0 - t3);
    let t11 = wrap16(t1 + t2);
    let t12 = wrap16(t1 - t2);
    let z0 = wrap16(t12 + t13);
    if k == 0 {
        wrap16(t10 + t11)
    } else if k == 2 {
        4433 * z0 + 6270 * t13
    } else if k == 4 {
        wrap16(t10 - t11)
    } else {
        4433 * z0 - 15137 * t12
    }
}

/// The odd frequencies, from the differences of the samples that mirror
/// each other, scaled by `2^13`.
#[verifier::opaque]
pub open spec fn neon_fdct_odd(k: int, t4: int, t5: int, t6: int, t7: int) -> int {
    let z1 = wrap16(t4 + t7);
    let z2 = wrap16(t5 + t6);
    let z3 = wrap16(t4 + t6);
    let z4 = wrap16(t5 + t7);
    if k == 1 {
        12299 * t7 - 7373 * z1 + 9633 * z3 + 6437 * z4
    } else if k == 3 {
        25172 * t6 - 20995 * z2 - 6436 * z3 + 9633 * z4
    } else if k == 5 {
        16819 * t5 - 20995 * z2 + 9633 * z3 + 6437 * z4
    } else {
        2446 * t4 - 7373 * z1 - 6436 * z3 + 9633 * z4
    }
}

/// Frequency `k` of the one-dimensional forward transform in lanes: all
/// sums of samples are lanes; products and their sums are wider.
#[verifier::opaque]
pub open spec fn neon_fdct_raw(
    k: int,
    d0: int,
    d1: int,
    d2: int,
    d3: int,
    d4: int,
    d5: int,
    d6: int,
    d7: int,
) -> int {
    if k % 2 == 0 {
        neon_fdct_even(k, wrap16(d0 + d7), wrap16(d1 + d6), wrap16(d2 + d5), wrap16(d3 + d4))
    } else {
        neon_fdct_odd(k, wrap16(d3 - d4), wrap16(d2 - d5), wrap16(d1 - d6), wrap16(d0 - d7))
    }
}

/// Frequency `k` as the row pass rounds it, keeping two extra bits of
/// precision.
#[verifier::opaque]
pub open spec fn neon_fdct_row_freq(
    k: int,
    d0: int,
    d1: int,
    d2: int,
    d3: int,
    d4: int,
    d5: int,
    d6: int,
    d7: int,
) -> i16 {
    let raw = neon_fdct_raw(k, d0, d1, d2, d3, d4, d5, d6, d7);
    if k == 0 || k == 4 {
        wrap16(4 * raw) as i16
    } else {
        wrap16(round_div(raw, 2048)) as i16
    }
}

/// Frequency `k` as the column pass rounds it, removing the extra
/// precision again.
#[verifier::opaque]
pub open spec fn neon_fdct_col_freq(
    k: int,
    d0: int,
    d1: int,
    d2: int,
    d3: int,
    d4: int,
    d5: int,
    d6: int,
    d7: int,
) -> i16 {
    let raw = neon_fdct_raw(k, d0, d1, d2, d3, d4, d5, d6, d7);
    if k == 0 || k == 4 {
        round_div(raw, 4) as i16
    } else {
        wrap16(round_div(raw, 32768)) as i16
    }
}

/// Entry `k` of row `r` after the row pass.
pub open spec fn neon_fdct_row_out(b: Seq<i16>, r: int, k: int) -> i16 {
    neon_fdct_row_freq(
        k,
        b[8 * r] as int,
        b[8 * r + 1] as int,
        b[8 * r + 2] as int,
        b[8 * r + 3] as int,
        b[8 * r + 4] as int,
        b[8 * r + 5] as int,
        b[8 * r + 6] as int,
        b[8 * r + 7] as int,
    )
}

/// Entry `k` of column `c` after the column pass.
pub open spec fn neon_fdct_col_out(b: Seq<i16>, c: int, k: int) -> i16 {
    neon_fdct_col_freq(
        k,
        b[c] as int,
        b[c + 8] as int,
        b[c + 16] as int,
        b[c + 24] as int,
        b[c + 32] as int,
        b[c + 40] as int,
        b[c + 48] as int,
        b[c + 56] as int,
    )
}

/// The block after the row pass.
pub open spec fn neon_fdct_rows(b: Seq<i16>) -> Seq<i16> {
    Seq::new(64, |i: int| neon_fdct_row_out(b, i / 8, i % 8))
}

/// The block after a column pass.
pub open spec fn neon_fdct_cols(b: Seq<i16>) -> Seq<i16> {
    Seq::new(64, |i: int| neon_fdct_col_out(b, i % 8, i / 8))
}

/// The forward 8x8 DCT in lanes.
pub open spec fn neon_fdct_block(b: Seq<i16>) -> Seq<i16> {
    neon_fdct_cols(neon_fdct_rows(b))
}

/// The even half of the transform.
fn neon_fdct_even_lane(t0: i16, t1: i16, t2: i16, t3: i16) -> (r: (i64, i64, i64, i64))
    ensures
        r.0 == neon_fdct_even(0, t0 as int, t1 as int, t2 as int, t3 as int),
        r.1 == neon_fdct_even(2, t0 as int, t1 as int, t2 as int, t3 as int),
        r.2 == neon_fdct_even(4, t0 as int, t1 as int, t2 as int, t3 as int),
        r.3 == neon_fdct_even(6, t0 as int, t1 as int, t2 as int, t3 as int),
        -32768 <= r.0 <= 32767,
        -3_000_000_000 <= r.1 <= 3_000_000_000,
        -32768 <= r.2 <= 32767,
        -3_000_000_000 <= r.3 <= 3_000_000_000,
{
    reveal(neon_fdct_even);
    let tmp10 = lane_sum(t0, t3);
    let tmp13 = lane_diff(t0, t3);
    let tmp11 = lane_sum(t1, t2);
    let tmp12 = lane_diff(t1, t2);
    let z0 = lane_sum(tmp12, tmp13) as i64 * 4433;
    (
        lane_sum(tmp10, tmp11) as i64,
        z0 + tmp13 as i64 * 6270,
        lane_diff(tmp10, tmp11) as i64,
        z0 - tmp12 as i64 * 15137,
    )
}

/// The odd half of the transform.
fn neon_fdct_odd_lane(t4: i16, t5: i16, t6: i16, t7: i16) -> (r: (i64, i64, i64, i64))
    ensures
        r.0 == neon_fdct_odd(1, t4 as int, t5 as int, t6 as int, t7 as int),
        r.1 == neon_fdct_odd(3, t4 as int, t5 as int, t6 as int, t7 as int),
        r.2 == neon_fdct_odd(5, t4 as int, t5 as int, t6 as int, t7 as int),
        r.3 == neon_fdct_odd(7, t4 as int, t5 as int, t6 as int, t7 as int),
        -3_000_000_000 <= r.0 <= 3_000_000_000,
        -3_000_000_000 <= r.1 <= 3_000_000_000,
        -3_000_000_000 <= r.2 <= 3_000_000_000,
        -3_000_000_000 <= r.3 <= 3_000_000_000,
{
    reveal(neon_fdct_odd);
    let z1 = lane_sum(t4, t7) as i64 * 7373;
    let z2 = lane_sum(t5, t6) as i64 * 20995;
    let z3_sum = lane_sum(t4, t6) as i64;
    let z4_sum = lane_sum(t5, t7) as i64;
    let z5 = z3_sum * 9633 + z4_sum * 9633;
    let z3 = z5 - z3_sum * 16069;
    let z4 = z5 - z4_sum * 3196;
    (
        t7 as i64 * 12299 - z1 + z4,
        t6 as i64 * 25172 - z2 + z3,
        t5 as i64 * 16819 - z2 + z4,
        t4 as i64 * 2446 - z1 + z3,
    )
}

/// The one-dimensional forward transform in lanes.
fn neon_fdct_lane(
    d0: i16,
    d1: i16,
    d2: i16,
    d3: i16,
    d4: i16,
    d5: i16,
    d6: i16,
    d7: i16,
) -> (r: [i64; 8])
    ensures
        forall|k: int|
            0 <= k < 8 ==> #[trigger] r[k] == neon_fdct_raw(
                k,
                d0 as int,
                d1 as int,
                d2 as int,
                d3 as int,
                d4 as int,
                d5 as int,
                d6 as int,
                d7 as int,
            ) && -3_000_000_000 <= r[k] <= 3_000_000_000,
        -32768 <= r[0] <= 32767,
        -32768 <= r[4] <= 32767,
{
    reveal(neon_fdct_raw);
    let e = neon_fdct_even_lane(lane_sum(d0, d7), lane_sum(d1, d6), lane_sum(d2, d5), lane_sum(d3, d4));
    let o = neon_fdct_odd_lane(lane_diff(d3, d4), lane_diff(d2, d5), lane_diff(d1, d6), lane_diff(d0, d7));
    [e.0, o.0, e.1, o.1, e.2, o.2, e.3, o.3]
}

/// Rounding narrow by 11 bits.
fn narrow11(x: i64) -> (r: i16)
    requires
        -3_000_000_000 <= x <= 3_000_000_000,
    ensures
        r == wrap16(round_div(x as int, 2048)),
{
    let y: i64 = x + 1024;
    assert(y >> 11 == y / 2048) by (bit_vector);
    trunc16((y >> 11) as i32)
}

/// Rounding narrow by 15 bits.
fn narrow15(x: i64) -> (r: i16)
    requires
        -3_000_000_000 <= x <= 3_000_000_000,
    ensures
        r == wrap16(round_div(x as int, 32768)),
{
    let y: i64 = x + 16384;
    assert(y >> 15 == y / 32768) by (bit_vector);
    trunc16((y >> 15) as i32)
}

/// Rounding shift of a lane by 2 bits.
fn round2(x: i64) -> (r: i16)
    requires
        -32768 <= x <= 32767,
    ensures
        r == round_div(x as int, 4),
{
    proof {
        lemma_shr_i32((x + 2) as i32);
    }
    (((x + 2) as i32) >> 2) as i16
}

/// One row of eight samples.
fn neon_fdct_row8(
    d0: i16,
    d1: i16,
    d2: i16,
    d3: i16,
    d4: i16,
    d5: i16,
    d6: i16,
    d7: i16,
) -> (out: [i16; 8])
    ensures
        forall|k: int|
            0 <= k < 8 ==> #[trigger] out[k] == neon_fdct_row_freq(
                k,
                d0 as int,
                d1 as int,
                d2 as int,
                d3 as int,
                d4 as int,
                d5 as int,
                d6 as int,
                d7 as int,
            ),
{
    reveal(neon_fdct_row_freq);
    let r = neon_fdct_lane(d0, d1, d2, d3, d4, d5, d6, d7);
    [
        trunc16((4 * r[0]) as i32),
        narrow11(r[1]),
        narrow11(r[2]),
        narrow11(r[3]),
        trunc16((4 * r[4]) as i32),
        narrow11(r[5]),
        narrow11(r[6]),
        narrow11(r[7]),
    ]
}

/// One column of eight entries.
fn neon_fdct_col8(
    d0: i16,
    d1: i16,
    d2: i16,
    d3: i16,
    d4: i16,
    d5: i16,
    d6: i16,
    d7: i16,
) -> (out: [i16; 8])
    ensures
        forall|k: int|
            0 <= k < 8 ==> #[trigger] out[k] == neon_fdct_col_freq(
                k,
                d0 as int,
                d1 as int,
                d2 as int,
                d3 as int,
                d4 as int,
                d5 as int,
                d6 as int,
                d7 as int,
            ),
{
    reveal(neon_fdct_col_freq);
    let r = neon_fdct_lane(d0, d1, d2, d3, d4, d5, d6, d7);
    [
        round2(r[0]),
        narrow15(r[1]),
        narrow15(r[2]),
        narrow15(r[3]),
        round2(r[4]),
        narrow15(r[5]),
        narrow15(r[6]),
        narrow15(r[7]),
    ]
}

/// Transforms the rows.
fn neon_fdct_row_pass(data: &[i16; 64]) -> (out: [i16; 64])
    ensures
        out@ == neon_fdct_rows(data@),
{
    let mut out: [i16; 64] = [0i16; 64];
    for row in 0..8usize
        invariant
            forall|i: int| 0 <= i < 64 && i / 8 < row ==> #[trigger] out@[i] == neon_fdct_row_out(data@, i / 8, i % 8),
    {
        let off: usize = row * 8;
        let line = neon_fdct_row8(
            data[off],
            data[off + 1],
            data[off + 2],
            data[off + 3],
            data[off + 4],
            data[off + 5],
            data[off + 6],
            data[off + 7],
        );
        for k in 0..8usize
            invariant
                row < 8,
                off == 8 * row,
                forall|k: int| 0 <= k < 8 ==> #[trigger] line[k] == neon_fdct_row_out(data@, row as int, k),
                forall|i: int|
                    0 <= i < 64 && (i / 8 < row || i / 8 == row && i % 8 < k) ==> #[trigger] out@[i]
                        == neon_fdct_row_out(data@, i / 8, i % 8),
        {
            out[off + k] = line[k];
        }
    }
    assert(out@ =~= neon_fdct_rows(data@));
    out
}

/// Transforms the columns.
fn neon_fdct_col_pass(data: &[i16; 64]) -> (out: [i16; 64])
    ensures
        out@ == neon_fdct_cols(data@),
{
    let mut out: [i16; 64] = [0i16; 64];
    for col in 0..8usize
        invariant
            forall|i: int| 0 <= i < 64 && i % 8 < col ==> #[trigger] out@[i] == neon_fdct_col_out(data@, i % 8, i / 8),
    {
        let line = neon_fdct_col8(
            data[col],
            data[col + 8],
            data[col + 16],
            data[col + 24],
            data[col + 32],
            data[col + 40],
            data[col + 48],
            data[col + 56],
        );
        for k in 0..8usize
            invariant
                col < 8,
                forall|k: int| 0 <= k < 8 ==> #[trigger] line[k] == neon_fdct_col_out(data@, col as int, k),
                forall|i: int|
                    0 <= i < 64 && (i % 8 < col || i % 8 == col && i / 8 < k) ==> #[trigger] out@[i]
                        == neon_fdct_col_out(data@, i % 8, i / 8),
        {
            out[8 * k + col] = line[k];
        }
    }
    assert(out@ =~= neon_fdct_cols(data@));
    out
}

/// Forward 8x8 DCT, in place, over level-shifted samples in row-major
/// order. The coefficients are scaled by eight.
pub fn fdct_islow(data: &mut [i16; 64])
    ensures
        final(data)@ == neon_fdct_block(old(data)@),
{
    let rows = neon_fdct_row_pass(data);
    *data = neon_fdct_col_pass(&rows);
}

/// A workspace after the column pass of the inverse transform.
pub open spec fn neon_idct_cols(coef: Seq<i16>) -> Seq<i16> {
    Seq::new(64, |i: int| wrap16(lane_col_out(coef, i % 8, i / 8)) as i16)
}

/// The inverse 8x8 DCT in lanes. What the column pass yields is truncated
/// to a lane.
pub open spec fn neon_idct_block(coef: Seq<i16>) -> Seq<u8> {
    lane_rows(neon_idct_cols(coef))
}

/// Takes the high half, then rounds by the two bits that are left, shifts
/// the level and limits.
fn finish_sample(x: i32) -> (r: u8)
    ensures
        r == clamp_u8(round_div(x as int, 262144) + 128),
{
    proof {
        lemma_shr_i32(x);
        lemma_shr_i32(((x >> 16) + 2) as i32);
    }
    let high: i32 = x >> 16;
    clamp_to_u8(((high + 2) >> 2) + 128)
}

/// Column pass of the inverse transform.
fn neon_idct_col_pass(coef: &[i16; 64]) -> (ws: [i16; 64])
    ensures
        ws@ == neon_idct_cols(coef@),
{
    let mut ws: [i16; 64] = [0i16; 64];
    for col in 0..8usize
        invariant
            forall|i: int|
                0 <= i < 64 && i % 8 < col ==> #[trigger] ws@[i] == wrap16(lane_col_out(coef@, i % 8, i / 8)),
    {
        let line = lane_column(coef, col);
        for k in 0..8usize
            invariant
                col < 8,
                forall|x: int| 0 <= x < 8 ==> #[trigger] line[x] == lane_col_out(coef@, col as int, x),
                forall|i: int|
                    0 <= i < 64 && (i % 8 < col || i % 8 == col && i / 8 < k) ==> #[trigger] ws@[i]
                        == wrap16(lane_col_out(coef@, i % 8, i / 8)),
        {
            ws[8 * k + col] = trunc16(line[k]);
        }
    }
    assert(ws@ =~= neon_idct_cols(coef@));
    ws
}

/// Inverse 8x8 DCT of dequantized coefficients in natural order.
pub fn idct_islow(coef: &[i16; 64], output: &mut [u8; 64])
    ensures
        final(output)@ == neon_idct_block(coef@),
{
    let ws = neon_idct_col_pass(coef);
    for row in 0..8usize
        invariant
            forall|i: int| 0 <= i < 64 && i / 8 < row ==> #[trigger] output@[i] == lane_row_out(ws@, i / 8, i % 8),
    {
        let line = lane_row_raw(&ws, row);
        let off: usize = row * 8;
        for k in 0..8usize
            invariant
                row < 8,
                off == 8 * row,
                forall|x: int|
                    0 <= x < 8 ==> lane_row_out(ws@, row as int, x) == clamp_u8(
                        round_div(#[trigger] line[x] as int, 262144) + 128,
                    ),
                forall|i: int|
                    0 <= i < 64 && (i / 8 < row || i / 8 == row && i % 8 < k) ==> #[trigger] output@[i]
                        == lane_row_out(ws@, i / 8, i % 8),
        {
            output[off + k] = finish_sample(line[k]);
        }
    }
    assert(output@ =~= lane_rows(ws@));
}

/// The inverse transform equals the reference wherever it stays in its
/// lanes.
pub proof fn law_neon_idct_matches_scalar(coef: Seq<i16>)
    requires
        coef.len() == 64,
        idct_stays_in_lanes(coef),
    ensures
        neon_idct_block(coef) == idct_block(coef),
{
    let ws = neon_idct_cols(coef);
    assert forall|i: int| 0 <= i < 64 && fits_lane(lane_col_out(coef, i % 8, i / 8)) implies #[trigger] ws[i]
        == lane_col_out(coef, i % 8, i / 8) by {}
    lemma_lane_passes(coef, ws);
}

proof fn lemma_even_is_exact(t0: int, t1: int, t2: int, t3: int)
    requires
        -8192 <= t0 <= 8190,
        -8192 <= t1 <= 8190,
        -8192 <= t2 <= 8190,
        -8192 <= t3 <= 8190,
    ensures
        neon_fdct_even(0, t0, t1, t2, t3) == t0 + t1 + t2 + t3,
        neon_fdct_even(2, t0, t1, t2, t3) == 10703 * (t0 - t3) + 4433 * (t1 - t2),
        neon_fdct_even(4, t0, t1, t2, t3) == t0 + t3 - t1 - t2,
        neon_fdct_even(6, t0, t1, t2, t3) == 4433 * (t0 - t3) - 10704 * (t1 - t2),
{
    reveal(neon_fdct_even);
}

proof fn lemma_odd_is_exact(t4: int, t5: int, t6: int, t7: int)
    requires
        -8191 <= t4 <= 8191,
        -8191 <= t5 <= 8191,
        -8191 <= t6 <= 8191,
        -8191 <= t7 <= 8191,
    ensures
        neon_fdct_odd(1, t4, t5, t6, t7) == 11363 * t7 + 9633 * t6 + 6437 * t5 + 2260 * t4,
        neon_fdct_odd(3, t4, t5, t6, t7) == 9633 * t7 - 2259 * t6 - 11362 * t5 - 6436 * t4,
        neon_fdct_odd(5, t4, t5, t6, t7) == 6437 * t7 - 11362 * t6 + 2261 * t5 + 9633 * t4,
        neon_fdct_odd(7, t4, t5, t6, t7) == 2260 * t7 - 6436 * t6 + 9633 * t5 - 11363 * t4,
{
    reveal(neon_fdct_odd);
}

/// On 13-bit values the transform in lanes is exact.
proof fn lemma_lane_is_exact(
    k: int,
    d0: int,
    d1: int,
    d2: int,
    d3: int,
    d4: int,
    d5: int,
    d6: int,
    d7: int,
)
    requires
        0 <= k < 8,
        thirteen_bits(d0, d1, d2, d3, d4, d5, d6, d7),
    ensures
        neon_fdct_row_freq(k, d0, d1, d2, d3, d4, d5, d6, d7) == fdct_row_freq(k, d0, d1, d2, d3, d4, d5, d6, d7),
        neon_fdct_col_freq(k, d0, d1, d2, d3, d4, d5, d6, d7) == fdct_col_freq(k, d0, d1, d2, d3, d4, d5, d6, d7),
{
    lemma_even_is_exact(d0 + d7, d1 + d6, d2 + d5, d3 + d4);
    lemma_odd_is_exact(d3 - d4, d2 - d5, d1 - d6, d0 - d7);
    assert(wrap16(d0 + d7) == d0 + d7 && wrap16(d1 + d6) == d1 + d6 && wrap16(d2 + d5) == d2 + d5 && wrap16(
        d3 + d4,
    ) == d3 + d4);
    assert(wrap16(d3 - d4) == d3 - d4 && wrap16(d2 - d5) == d2 - d5 && wrap16(d1 - d6) == d1 - d6 && wrap16(
        d0 - d7,
    ) == d0 - d7);
    let raw = neon_fdct_raw(k, d0, d1, d2, d3, d4, d5, d6, d7);
    let exact = fdct_raw(k, d0, d1, d2, d3, d4, d5, d6, d7);
    assert(if k == 0 || k == 4 {
        exact == 8192 * raw && -32768 <= raw <= 32764
    } else {
        exact == raw
    }) by {
        reveal(neon_fdct_raw);
        reveal(fdct_raw);
        if k == 0 {
            assert(raw == (d0 + d7) + (d1 + d6) + (d2 + d5) + (d3 + d4));
        } else if k == 1 {
            assert(raw == exact);
        } else if k == 2 {
            assert(raw == exact);
        } else if k == 3 {
            assert(raw == exact);
        } else if k == 4 {
            assert(raw == (d0 + d7) + (d3 + d4) - (d1 + d6) - (d2 + d5));
        } else if k == 5 {
            assert(raw == exact);
        } else if k == 6 {
            assert(raw == exact);
        } else {
            assert(k == 7);
            assert(raw == exact);
        }
    }
    reveal(neon_fdct_row_freq);
    reveal(neon_fdct_col_freq);
    reveal(fdct_row_freq);
    reveal(fdct_col_freq);
}

/// The forward transform equals the reference wherever it stays in its
/// lanes.
pub proof fn law_neon_fdct_matches_scalar(b: Seq<i16>)
    requires
        b.len() == 64,
        fdct_stays_in_lanes(b),
    ensures
        neon_fdct_block(b) == fdct_block(b),
{
    let mid = fdct_rows(b);
    assert forall|i: int| 0 <= i < 64 implies #[trigger] neon_fdct_rows(b)[i] == mid[i] && -4096 <= mid[i] <= 4095 by {
        let r = i / 8;
        assert(fdct_row_in_lanes(b, r));
        lemma_lane_is_exact(
            i % 8,
            b[8 * r] as int,
            b[8 * r + 1] as int,
            b[8 * r + 2] as int,
            b[8 * r + 3] as int,
            b[8 * r + 4] as int,
            b[8 * r + 5] as int,
            b[8 * r + 6] as int,
            b[8 * r + 7] as int,
        );
        assert(-4096 <= round_div(
            fdct_raw(
                i % 8,
                b[8 * r] as int,
                b[8 * r + 1] as int,
                b[8 * r + 2] as int,
                b[8 * r + 3] as int,
                b[8 * r + 4] as int,
                b[8 * r + 5] as int,
                b[8 * r + 6] as int,
                b[8 * r + 7] as int,
            ),
            2048,
        ) <= 4095);
        reveal(fdct_row_freq);
    }
    assert(neon_fdct_rows(b) =~= mid);
    assert forall|i: int| 0 <= i < 64 implies #[trigger] neon_fdct_cols(mid)[i] == fdct_cols(mid)[i] by {
        let c = i % 8;
        lemma_lane_is_exact(
            i / 8,
            mid[c] as int,
            mid[c + 8] as int,
            mid[c + 16] as int,
            mid[c + 24] as int,
            mid[c + 32] as int,
            mid[c + 40] as int,
            mid[c + 48] as int,
            mid[c + 56] as int,
        );
    }
    assert(neon_fdct_cols(mid) =~= fdct_cols(mid));
}

} // verus!
