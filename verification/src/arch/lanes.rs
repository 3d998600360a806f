//! Arithmetic of 16-bit vector lanes: sums wrap, products are 32 bits wide,
//! and results are narrowed to 16 bits again. The kernels of the vector
//! backends are built from it, one lane at a time.

use vstd::prelude::*;

use crate::fixed::{lemma_shr_i32, trunc16};

verus! {

use crate::arch::scalar::dct::{
    idct_block, idct_col_sample, idct_cols, idct_raw, idct_row_out, idct_row_sample,
};
use crate::dct::fdct_raw;
use crate::fixed::{clamp_u8, round_div, wrap16};

/// The value fits in a lane.
pub open spec fn fits_lane(x: int) -> bool {
    -32768 <= x <= 32767
}

/// Sum of two lanes.
pub fn lane_sum(a: i16, b: i16) -> (r: i16)
    ensures
        r == wrap16(a + b),
{
    trunc16(a as i32 + b as i32)
}

/// Difference of two lanes.
pub fn lane_diff(a: i16, b: i16) -> (r: i16)
    ensures
        r == wrap16(a - b),
{
    trunc16(a as i32 - b as i32)
}

/// Sample `x` of the one-dimensional inverse transform in lanes, scaled by
/// `2^13`. Four sums of frequencies are lanes themselves; everything else
/// is 32 bits wide.
#[verifier::opaque]
pub open spec fn idct_lane_raw(
    x: int,
    c0: int,
    c1: int,
    c2: int,
    c3: int,
    c4: int,
    c5: int,
    c6: int,
    c7: int,
) -> int {
    let s = wrap16(c0 + c4);
    let d = wrap16(c0 - c4);
    let z3 = wrap16(c7 + c3);
    let z4 = wrap16(c5 + c1);
    let e0 = 8192 * s + 10703 * c2 + 4433 * c6;
    let e1 = 8192 * d + 4433 * c2 - 10704 * c6;
    let e2 = 8192 * d - 4433 * c2 + 10704 * c6;
    let e3 = 8192 * s - 10703 * c2 - 4433 * c6;
    let o0 = 4926 * c1 - 7373 * c7 + 9633 * z3 + 6437 * z4;
    let o1 = 4177 * c3 - 20995 * c5 - 6436 * z3 + 9633 * z4;
    let o2 = 9633 * z3 + 6437 * z4 - 4176 * c5 - 20995 * c3;
    let o3 = 9633 * z4 - 6436 * z3 - 4927 * c7 - 7373 * c1;
    if x == 0 {
        e0 + o0
    } else if x == 1 {
        e1 + o1
    } else if x == 2 {
        e2 + o2
    } else if x == 3 {
        e3 + o3
    } else if x == 4 {
        e3 - o3
    } else if x == 5 {
        e2 - o2
    } else if x == 6 {
        e1 - o1
    } else {
        e0 - o0
    }
}

/// The four sums that the inverse transform forms in lanes fit.
pub open spec fn idct_sums_fit(c0: int, c1: int, c3: int, c4: int, c5: int, c7: int) -> bool {
    &&& fits_lane(c0 + c4)
    &&& fits_lane(c0 - c4)
    &&& fits_lane(c7 + c3)
    &&& fits_lane(c5 + c1)
}

/// Where its sums fit, the transform in lanes is the transform.
proof fn lemma_lane_raw(
    x: int,
    c0: int,
    c1: int,
    c2: int,
    c3: int,
    c4: int,
    c5: int,
    c6: int,
    c7: int,
)
    requires
        idct_sums_fit(c0, c1, c3, c4, c5, c7),
    ensures
        idct_lane_raw(x, c0, c1, c2, c3, c4, c5, c6, c7) == idct_raw(x, c0, c1, c2, c3, c4, c5, c6, c7),
{
    reveal(idct_lane_raw);
    reveal(idct_raw);
}

/// One-dimensional inverse transform in lanes.
pub fn idct_lane(
    c0: i16,
    c1: i16,
    c2: i16,
    c3: i16,
    c4: i16,
    c5: i16,
    c6: i16,
    c7: i16,
) -> (r: [i32; 8])
    ensures
        forall|x: int|
            0 <= x < 8 ==> #[trigger] r[x] == idct_lane_raw(
                x,
                c0 as int,
                c1 as int,
                c2 as int,
                c3 as int,
                c4 as int,
                c5 as int,
                c6 as int,
                c7 as int,
            ) && -2_115_900_000 <= r[x] <= 2_115_900_000,
{
    reveal(idct_lane_raw);

    // Even part.
    let tmp3 = c2 as i32 * 10703 + c6 as i32 * 4433;
    let tmp2 = c2 as i32 * 4433 - c6 as i32 * 10704;
    let tmp0 = lane_sum(c0, c4) as i32 * 8192;
    let tmp1 = lane_diff(c0, c4) as i32 * 8192;
    let tmp10 = tmp0 + tmp3;
    let tmp13 = tmp0 - tmp3;
    let tmp11 = tmp1 + tmp2;
    let tmp12 = tmp1 - tmp2;

    // Odd part.
    let z3_sum = lane_sum(c7, c3) as i32;
    let z4_sum = lane_sum(c5, c1) as i32;
    let z3 = z4_sum * 9633 - z3_sum * 6436;
    let z4 = z3_sum * 9633 + z4_sum * 6437;
    let t0 = z3 - c7 as i32 * 4927 - c1 as i32 * 7373;
    let t1 = z4 - c5 as i32 * 4176 - c3 as i32 * 20995;
    let t2 = z3 + c3 as i32 * 4177 - c5 as i32 * 20995;
    let t3 = z4 + c1 as i32 * 4926 - c7 as i32 * 7373;
    [
        tmp10 + t3,
        tmp11 + t2,
        tmp12 + t1,
        tmp13 + t0,
        tmp13 - t0,
        tmp12 - t1,
        tmp11 - t2,
        tmp10 - t3,
    ]
}

/// Round-and-shift by 11.
pub fn descale11(x: i32) -> (r: i32)
    requires
        -2_115_900_000 <= x <= 2_115_900_000,
    ensures
        r == round_div(x as int, 2048),
{
    proof {
        lemma_shr_i32((x + 1024) as i32);
    }
    (x + 1024) >> 11
}

/// Sample `x` of the column pass, rounded, with two extra bits of
/// precision, before it is narrowed to a lane.
#[verifier::opaque]
pub open spec fn lane_col_sample(
    x: int,
    c0: int,
    c1: int,
    c2: int,
    c3: int,
    c4: int,
    c5: int,
    c6: int,
    c7: int,
) -> int {
    round_div(idct_lane_raw(x, c0, c1, c2, c3, c4, c5, c6, c7), 2048)
}

/// Sample `x` of the row pass: rounded, level-shifted by 128 and limited to
/// a byte.
#[verifier::opaque]
pub open spec fn lane_row_sample(
    x: int,
    c0: int,
    c1: int,
    c2: int,
    c3: int,
    c4: int,
    c5: int,
    c6: int,
    c7: int,
) -> u8 {
    clamp_u8(round_div(idct_lane_raw(x, c0, c1, c2, c3, c4, c5, c6, c7), 262144) + 128) as u8
}

/// Entry `x` of column `c` after the column pass, before narrowing.
pub open spec fn lane_col_out(coef: Seq<i16>, c: int, x: int) -> int {
    lane_col_sample(
        x,
        coef[c] as int,
        coef[c + 8] as int,
        coef[c + 16] as int,
        coef[c + 24] as int,
        coef[c + 32] as int,
        coef[c + 40] as int,
        coef[c + 48] as int,
        coef[c + 56] as int,
    )
}

/// Sample `x` of row `r` after the row pass.
pub open spec fn lane_row_out(ws: Seq<i16>, r: int, x: int) -> u8 {
    lane_row_sample(
        x,
        ws[8 * r] as int,
        ws[8 * r + 1] as int,
        ws[8 * r + 2] as int,
        ws[8 * r + 3] as int,
        ws[8 * r + 4] as int,
        ws[8 * r + 5] as int,
        ws[8 * r + 6] as int,
        ws[8 * r + 7] as int,
    )
}

/// The samples that the row pass makes of a workspace.
pub open spec fn lane_rows(ws: Seq<i16>) -> Seq<u8> {
    Seq::new(64, |i: int| lane_row_out(ws, i / 8, i % 8))
}

/// Column `col` of the column pass, before narrowing.
pub fn lane_column(coef: &[i16; 64], col: usize) -> (out: [i32; 8])
    requires
        col < 8,
    ensures
        forall|x: int| 0 <= x < 8 ==> #[trigger] out[x] == lane_col_out(coef@, col as int, x),
{
    reveal(lane_col_sample);
    let r = idct_lane(
        coef[col],
        coef[col + 8],
        coef[col + 16],
        coef[col + 24],
        coef[col + 32],
        coef[col + 40],
        coef[col + 48],
        coef[col + 56],
    );
    [
        descale11(r[0]),
        descale11(r[1]),
        descale11(r[2]),
        descale11(r[3]),
        descale11(r[4]),
        descale11(r[5]),
        descale11(r[6]),
        descale11(r[7]),
    ]
}

/// Row `row` of the workspace after the one-dimensional transform.
pub fn lane_row_raw(ws: &[i16; 64], row: usize) -> (r: [i32; 8])
    requires
        row < 8,
    ensures
        forall|x: int|
            0 <= x < 8 ==> -2_115_900_000 <= #[trigger] r[x] <= 2_115_900_000 && lane_row_out(
                ws@,
                row as int,
                x,
            ) == clamp_u8(round_div(r[x] as int, 262144) + 128),
{
    reveal(lane_row_sample);
    let off: usize = row * 8;
    idct_lane(
        ws[off],
        ws[off + 1],
        ws[off + 2],
        ws[off + 3],
        ws[off + 4],
        ws[off + 5],
        ws[off + 6],
        ws[off + 7],
    )
}

/// The sums that the column pass forms over column `c` fit.
pub open spec fn col_sums_fit(coef: Seq<i16>, c: int) -> bool {
    idct_sums_fit(
        coef[c] as int,
        coef[c + 8] as int,
        coef[c + 24] as int,
        coef[c + 32] as int,
        coef[c + 40] as int,
        coef[c + 56] as int,
    )
}

/// The sums that the row pass forms over row `r` fit.
pub open spec fn row_sums_fit(ws: Seq<int>, r: int) -> bool {
    idct_sums_fit(ws[8 * r], ws[8 * r + 1], ws[8 * r + 3], ws[8 * r + 4], ws[8 * r + 5], ws[8 * r + 7])
}

/// The inverse transform of the block never leaves 16-bit lanes where it
/// works in them.
pub open spec fn idct_stays_in_lanes(coef: Seq<i16>) -> bool {
    &&& forall|c: int| 0 <= c < 8 ==> #[trigger] col_sums_fit(coef, c)
    &&& forall|i: int| 0 <= i < 64 ==> fits_lane(#[trigger] idct_cols(coef)[i])
    &&& forall|r: int| 0 <= r < 8 ==> #[trigger] row_sums_fit(idct_cols(coef), r)
}

/// Where the transform stays in its lanes, both passes compute what the
/// reference does, whatever the narrowing between them does with values
/// that do not fit.
pub proof fn lemma_lane_passes(coef: Seq<i16>, ws: Seq<i16>)
    requires
        coef.len() == 64,
        ws.len() == 64,
        idct_stays_in_lanes(coef),
        forall|i: int|
            0 <= i < 64 && fits_lane(lane_col_out(coef, i % 8, i / 8)) ==> #[trigger] ws[i] == lane_col_out(
                coef,
                i % 8,
                i / 8,
            ),
    ensures
        lane_rows(ws) == idct_block(coef),
{
    let cols = idct_cols(coef);
    assert forall|i: int| 0 <= i < 64 implies #[trigger] ws[i] == cols[i] by {
        let c = i % 8;
        let x = i / 8;
        reveal(lane_col_sample);
        reveal(idct_col_sample);
        assert(col_sums_fit(coef, c));
        assert(fits_lane(cols[i]));
        lemma_lane_raw(
            x,
            coef[c] as int,
            coef[c + 8] as int,
            coef[c + 16] as int,
            coef[c + 24] as int,
            coef[c + 32] as int,
            coef[c + 40] as int,
            coef[c + 48] as int,
            coef[c + 56] as int,
        );
        assert(lane_col_out(coef, c, x) == cols[i]);
    }
    assert forall|i: int| 0 <= i < 64 implies #[trigger] lane_rows(ws)[i] == idct_block(coef)[i] by {
        let r = i / 8;
        let x = i % 8;
        reveal(lane_row_sample);
        reveal(idct_row_sample);
        assert(row_sums_fit(cols, r));
        lemma_lane_raw(
            x,
            cols[8 * r],
            cols[8 * r + 1],
            cols[8 * r + 2],
            cols[8 * r + 3],
            cols[8 * r + 4],
            cols[8 * r + 5],
            cols[8 * r + 6],
            cols[8 * r + 7],
        );
        assert(lane_row_out(ws, r, x) == idct_row_out(cols, r, x));
    }
    assert(lane_rows(ws) =~= idct_block(coef));
}

/// A one-dimensional inverse transform of frequencies of at most `m` gives
/// at most `61214 * m`.
proof fn lemma_idct_raw_bound(
    x: int,
    m: int,
    c0: int,
    c1: int,
    c2: int,
    c3: int,
    c4: int,
    c5: int,
    c6: int,
    c7: int,
)
    requires
        -m <= c0 <= m,
        -m <= c1 <= m,
        -m <= c2 <= m,
        -m <= c3 <= m,
        -m <= c4 <= m,
        -m <= c5 <= m,
        -m <= c6 <= m,
        -m <= c7 <= m,
    ensures
        -(61214 * m) <= idct_raw(x, c0, c1, c2, c3, c4, c5, c6, c7) <= 61214 * m,
{
    reveal(idct_raw);
}

/// Blocks whose coefficients are at most 548 in magnitude stay in their
/// lanes.
pub proof fn law_small_coefficients_stay_in_lanes(coef: Seq<i16>)
    requires
        coef.len() == 64,
        forall|i: int| 0 <= i < 64 ==> -548 <= #[trigger] coef[i] <= 548,
    ensures
        idct_stays_in_lanes(coef),
{
    let cols = idct_cols(coef);
    assert forall|c: int| 0 <= c < 8 implies #[trigger] col_sums_fit(coef, c) by {}
    assert forall|i: int| 0 <= i < 64 implies -16383 <= #[trigger] cols[i] <= 16383 by {
        let c = i % 8;
        reveal(idct_col_sample);
        lemma_idct_raw_bound(
            i / 8,
            548,
            coef[c] as int,
            coef[c + 8] as int,
            coef[c + 16] as int,
            coef[c + 24] as int,
            coef[c + 32] as int,
            coef[c + 40] as int,
            coef[c + 48] as int,
            coef[c + 56] as int,
        );
    }
    assert forall|i: int| 0 <= i < 64 implies fits_lane(#[trigger] cols[i]) by {}
    assert forall|r: int| 0 <= r < 8 implies #[trigger] row_sums_fit(cols, r) by {}
}

/// Eight values of 13 bits, whose sum fits in a lane with room for
/// rounding.
pub open spec fn thirteen_bits(
    d0: int,
    d1: int,
    d2: int,
    d3: int,
    d4: int,
    d5: int,
    d6: int,
    d7: int,
) -> bool {
    &&& -4096 <= d0 <= 4095
    &&& -4096 <= d1 <= 4095
    &&& -4096 <= d2 <= 4095
    &&& -4096 <= d3 <= 4095
    &&& -4096 <= d4 <= 4095
    &&& -4096 <= d5 <= 4095
    &&& -4096 <= d6 <= 4095
    &&& -4096 <= d7 <= 4095
}

/// Row `r` of a block, and what the row pass of the forward transform makes
/// of it, have at most 13 bits.
pub open spec fn fdct_row_in_lanes(b: Seq<i16>, r: int) -> bool {
    &&& forall|i: int| 8 * r <= i < 8 * r + 8 ==> -4096 <= #[trigger] b[i] <= 4095
    &&& forall|k: int|
        0 <= k < 8 ==> -4096 <= round_div(
            #[trigger] fdct_raw(
                k,
                b[8 * r] as int,
                b[8 * r + 1] as int,
                b[8 * r + 2] as int,
                b[8 * r + 3] as int,
                b[8 * r + 4] as int,
                b[8 * r + 5] as int,
                b[8 * r + 6] as int,
                b[8 * r + 7] as int,
            ),
            2048,
        ) <= 4095
}

/// The forward transform of the block never leaves 16-bit lanes where it
/// works in them.
pub open spec fn fdct_stays_in_lanes(b: Seq<i16>) -> bool {
    forall|r: int| 0 <= r < 8 ==> #[trigger] fdct_row_in_lanes(b, r)
}

/// Level-shifted samples stay in their lanes.
pub proof fn law_samples_stay_in_lanes(b: Seq<i16>)
    requires
        b.len() == 64,
        forall|i: int| 0 <= i < 64 ==> -128 <= #[trigger] b[i] <= 127,
    ensures
        fdct_stays_in_lanes(b),
{
    assert forall|r: int| 0 <= r < 8 implies #[trigger] fdct_row_in_lanes(b, r) by {
        assert forall|k: int| 0 <= k < 8 implies -4096 <= round_div(
            #[trigger] fdct_raw(
                k,
                b[8 * r] as int,
                b[8 * r + 1] as int,
                b[8 * r + 2] as int,
                b[8 * r + 3] as int,
                b[8 * r + 4] as int,
                b[8 * r + 5] as int,
                b[8 * r + 6] as int,
                b[8 * r + 7] as int,
            ),
            2048,
        ) <= 4095 by {
            reveal(fdct_raw);
        }
    }
}

} // verus!
