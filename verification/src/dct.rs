//! Forward 8x8 DCT: the integer Loeffler/Ligtenberg/Moschytz transform
//! ("islow"), with 13-bit fixed-point constants.
//!
//! The one-dimensional transform is a fixed 8x8 integer matrix whose
//! entries are cosine products scaled by `2^13`. A block goes through it
//! twice, rows first and columns second; each pass rounds to the nearest
//! integer. The two-dimensional result is eight times a true DCT, a factor
//! that quantization divides out again.
//!
//! Multipliers, as `round(x * 2^13)`:
//!
//! | value | x             | value | x             |
//! |-------|---------------|-------|---------------|
//! | 2446  | 0.298631336   | 12299 | 1.501321110   |
//! | 3196  | 0.390180644   | 15137 | 1.847759065   |
//! | 4433  | 0.541196100   | 16069 | 1.961570560   |
//! | 6270  | 0.765366865   | 16819 | 2.053119869   |
//! | 7373  | 0.899976223   | 20995 | 2.562915447   |
//! | 9633  | 1.175875602   | 25172 | 3.072711026   |

use vstd::prelude::*;

use crate::fixed::{lemma_shr_i32, trunc16};

verus! {

use crate::arch::neon::dct::neon_fdct_block;
use crate::fixed::{fits_i32, round_div, wrap16};

/// Frequency `k` of the one-dimensional forward transform of eight
/// samples, scaled by `2^13`.
#[verifier::opaque]
pub open spec fn fdct_raw(
    k: int,
    d0: int,
    d1: int,
    d2: int,
    d3: int,
    d4: int,
    d5: int,
    d6: int,
    d7: int,
) -> int {
    let s0 = d0 + d7;
    let s1 = d1 + d6;
    let s2 = d2 + d5;
    let s3 = d3 + d4;
    let a0 = d0 - d7;
    let a1 = d1 - d6;
    let a2 = d2 - d5;
    let a3 = d3 - d4;
    if k == 0 {
        8192 * (s0 + s1 + s2 + s3)
    } else if k == 1 {
        11363 * a0 + 9633 * a1 + 6437 * a2 + 2260 * a3
    } else if k == 2 {
        10703 * (s0 - s3) + 4433 * (s1 - s2)
    } else if k == 3 {
        9633 * a0 - 2259 * a1 - 11362 * a2 - 6436 * a3
    } else if k == 4 {
        8192 * (s0 + s3 - s1 - s2)
    } else if k == 5 {
        6437 * a0 - 11362 * a1 + 2261 * a2 + 9633 * a3
    } else if k == 6 {
        4433 * (s0 - s3) - 10704 * (s1 - s2)
    } else {
        2260 * a0 - 6436 * a1 + 9633 * a2 - 11363 * a3
    }
}

/// Frequency `k` as the row pass rounds it, keeping two extra bits of
/// precision.
#[verifier::opaque]
pub open spec fn fdct_row_freq(
    k: int,
    d0: int,
    d1: int,
    d2: int,
    d3: int,
    d4: int,
    d5: int,
    d6: int,
    d7: int,
) -> i16 {
    wrap16(round_div(fdct_raw(k, d0, d1, d2, d3, d4, d5, d6, d7), 2048)) as i16
}

/// Frequency `k` as the column pass rounds it, removing the extra
/// precision again.
#[verifier::opaque]
pub open spec fn fdct_col_freq(
    k: int,
    d0: int,
    d1: int,
    d2: int,
    d3: int,
    d4: int,
    d5: int,
    d6: int,
    d7: int,
) -> i16 {
    wrap16(round_div(fdct_raw(k, d0, d1, d2, d3, d4, d5, d6, d7), 32768)) as i16
}

/// Entry `k` of row `r` after the row pass.
pub open spec fn fdct_row_out(b: Seq<i16>, r: int, k: int) -> i16 {
    fdct_row_freq(
        k,
        b[8 * r] as int,
        b[8 * r + 1] as int,
        b[8 * r + 2] as int,
        b[8 * r + 3] as int,
        b[8 * r + 4] as int,
        b[8 * r + 5] as int,
        b[8 * r + 6] as int,
        b[8 * r + 7] as int,
    )
}

/// Entry `k` of column `c` after the column pass.
pub open spec fn fdct_col_out(b: Seq<i16>, c: int, k: int) -> i16 {
    fdct_col_freq(
        k,
        b[c] as int,
        b[c + 8] as int,
        b[c + 16] as int,
        b[c + 24] as int,
        b[c + 32] as int,
        b[c + 40] as int,
        b[c + 48] as int,
        b[c + 56] as int,
    )
}

/// The block after the row pass.
pub open spec fn fdct_rows(b: Seq<i16>) -> Seq<i16> {
    Seq::new(64, |i: int| fdct_row_out(b, i / 8, i % 8))
}

/// The block after a column pass.
pub open spec fn fdct_cols(b: Seq<i16>) -> Seq<i16> {
    Seq::new(64, |i: int| fdct_col_out(b, i % 8, i / 8))
}

/// The forward 8x8 DCT.
pub open spec fn fdct_block(b: Seq<i16>) -> Seq<i16> {
    fdct_cols(fdct_rows(b))
}

/// The two products of the odd part that can leave 32 bits stay inside.
/// `a0..a3` are the differences of the samples that mirror each other.
pub open spec fn odd_part_fits(a0: int, a1: int, a2: int, a3: int) -> bool {
    &&& fits_i32(20995 * (a1 + a2))
    &&& fits_i32(9633 * (a0 + a1 + a2 + a3))
}

/// Row `r` stays within 32-bit arithmetic.
pub open spec fn fdct_row_fits(b: Seq<i16>, r: int) -> bool {
    odd_part_fits(
        b[8 * r] - b[8 * r + 7],
        b[8 * r + 1] - b[8 * r + 6],
        b[8 * r + 2] - b[8 * r + 5],
        b[8 * r + 3] - b[8 * r + 4],
    )
}

/// Column `c` stays within 32-bit arithmetic.
pub open spec fn fdct_col_fits(b: Seq<i16>, c: int) -> bool {
    odd_part_fits(b[c] - b[c + 56], b[c + 8] - b[c + 48], b[c + 16] - b[c + 40], b[c + 24] - b[c + 32])
}

/// Both passes over the block stay within 32-bit arithmetic.
pub open spec fn fdct_fits(b: Seq<i16>) -> bool {
    &&& forall|r: int| 0 <= r < 8 ==> #[trigger] fdct_row_fits(b, r)
    &&& forall|c: int| 0 <= c < 8 ==> #[trigger] fdct_col_fits(fdct_rows(b), c)
}

/// Round-and-shift by 2.
fn descale2(x: i32) -> (r: i32)
    requires
        x <= 0x7fff_ffff - 2,
    ensures
        r == round_div(x as int, 4),
        r == round_div(8192 * x, 32768),
{
    proof {
        lemma_shr_i32((x + 2) as i32);
    }
    (x + 2) >> 2
}

/// Round-and-shift by 11.
fn descale11(x: i32) -> (r: i32)
    requires
        x <= 0x7fff_ffff - 1024,
    ensures
        r == round_div(x as int, 2048),
{
    proof {
        lemma_shr_i32((x + 1024) as i32);
    }
    (x + 1024) >> 11
}

/// Round-and-shift by 15.
fn descale15(x: i32) -> (r: i32)
    requires
        x <= 0x7fff_ffff - 16384,
    ensures
        r == round_div(x as int, 32768),
{
    proof {
        lemma_shr_i32((x + 16384) as i32);
    }
    (x + 16384) >> 15
}

/// One-dimensional forward transform. Entries 0 and 4 are left without the
/// `2^13` scale, which a plain sum does not need.
fn fdct_1d(
    d0: i16,
    d1: i16,
    d2: i16,
    d3: i16,
    d4: i16,
    d5: i16,
    d6: i16,
    d7: i16,
) -> (r: (i32, i32, i32, i32, i32, i32, i32, i32))
    requires
        odd_part_fits(d0 - d7, d1 - d6, d2 - d5, d3 - d4),
    ensures
        8192 * r.0 == fdct_raw(0, d0 as int, d1 as int, d2 as int, d3 as int, d4 as int, d5 as int, d6 as int, d7 as int),
        r.1 == fdct_raw(1, d0 as int, d1 as int, d2 as int, d3 as int, d4 as int, d5 as int, d6 as int, d7 as int),
        r.2 == fdct_raw(2, d0 as int, d1 as int, d2 as int, d3 as int, d4 as int, d5 as int, d6 as int, d7 as int),
        r.3 == fdct_raw(3, d0 as int, d1 as int, d2 as int, d3 as int, d4 as int, d5 as int, d6 as int, d7 as int),
        8192 * r.4 == fdct_raw(4, d0 as int, d1 as int, d2 as int, d3 as int, d4 as int, d5 as int, d6 as int, d7 as int),
        r.5 == fdct_raw(5, d0 as int, d1 as int, d2 as int, d3 as int, d4 as int, d5 as int, d6 as int, d7 as int),
        r.6 == fdct_raw(6, d0 as int, d1 as int, d2 as int, d3 as int, d4 as int, d5 as int, d6 as int, d7 as int),
        r.7 == fdct_raw(7, d0 as int, d1 as int, d2 as int, d3 as int, d4 as int, d5 as int, d6 as int, d7 as int),
        -262144 <= r.0 <= 262144,
        -262144 <= r.4 <= 262144,
        r.1 <= 2_000_000_000,
        r.2 <= 2_000_000_000,
        r.3 <= 2_000_000_000,
        r.5 <= 2_000_000_000,
        r.6 <= 2_000_000_000,
        r.7 <= 2_000_000_000,
{
    reveal(fdct_raw);
    let tmp0 = d0 as i32 + d7 as i32;
    let tmp7 = d0 as i32 - d7 as i32;
    let tmp1 = d1 as i32 + d6 as i32;
    let tmp6 = d1 as i32 - d6 as i32;
    let tmp2 = d2 as i32 + d5 as i32;
    let tmp5 = d2 as i32 - d5 as i32;
    let tmp3 = d3 as i32 + d4 as i32;
    let tmp4 = d3 as i32 - d4 as i32;

    // Even part.
    let tmp10 = tmp0 + tmp3;
    let tmp13 = tmp0 - tmp3;
    let tmp11 = tmp1 + tmp2;
    let tmp12 = tmp1 - tmp2;
    let z1 = (tmp12 + tmp13) * 4433;
    let r2 = z1 + tmp13 * 6270;
    let r6 = z1 - tmp12 * 15137;

    // Odd part.
    let z1 = tmp4 + tmp7;
    let z2 = tmp5 + tmp6;
    let z3 = tmp4 + tmp6;
    let z4 = tmp5 + tmp7;
    let z5 = (z3 + z4) * 9633;
    let t4 = tmp4 * 2446;
    let t5 = tmp5 * 16819;
    let t6 = tmp6 * 25172;
    let t7 = tmp7 * 12299;
    let z1 = -(z1 * 7373);
    let z2 = -(z2 * 20995);
    let z3 = -(z3 * 16069);
    let z4 = -(z4 * 3196);
    let z3 = z3 + z5;
    let z4 = z4 + z5;
    (
        tmp10 + tmp11,
        t7 + z1 + z4,
        r2,
        t6 + z2 + z3,
        tmp10 - tmp11,
        t5 + z2 + z4,
        r6,
        t4 + z1 + z3,
    )
}

/// One row of eight samples.
fn fdct_row8(
    d0: i16,
    d1: i16,
    d2: i16,
    d3: i16,
    d4: i16,
    d5: i16,
    d6: i16,
    d7: i16,
) -> (out: [i16; 8])
    requires
        odd_part_fits(d0 - d7, d1 - d6, d2 - d5, d3 - d4),
    ensures
        forall|k: int|
            0 <= k < 8 ==> #[trigger] out[k] == fdct_row_freq(
                k,
                d0 as int,
                d1 as int,
                d2 as int,
                d3 as int,
                d4 as int,
                d5 as int,
                d6 as int,
                d7 as int,
            ),
{
    reveal(fdct_row_freq);
    let r = fdct_1d(d0, d1, d2, d3, d4, d5, d6, d7);
    [
        trunc16(4 * r.0),
        trunc16(descale11(r.1)),
        trunc16(descale11(r.2)),
        trunc16(descale11(r.3)),
        trunc16(4 * r.4),
        trunc16(descale11(r.5)),
        trunc16(descale11(r.6)),
        trunc16(descale11(r.7)),
    ]
}

/// One column of eight entries.
fn fdct_col8(
    d0: i16,
    d1: i16,
    d2: i16,
    d3: i16,
    d4: i16,
    d5: i16,
    d6: i16,
    d7: i16,
) -> (out: [i16; 8])
    requires
        odd_part_fits(d0 - d7, d1 - d6, d2 - d5, d3 - d4),
    ensures
        forall|k: int|
            0 <= k < 8 ==> #[trigger] out[k] == fdct_col_freq(
                k,
                d0 as int,
                d1 as int,
                d2 as int,
                d3 as int,
                d4 as int,
                d5 as int,
                d6 as int,
                d7 as int,
            ),
{
    reveal(fdct_col_freq);
    let r = fdct_1d(d0, d1, d2, d3, d4, d5, d6, d7);
    [
        trunc16(descale2(r.0)),
        trunc16(descale15(r.1)),
        trunc16(descale15(r.2)),
        trunc16(descale15(r.3)),
        trunc16(descale2(r.4)),
        trunc16(descale15(r.5)),
        trunc16(descale15(r.6)),
        trunc16(descale15(r.7)),
    ]
}

/// Transforms row `row` in place.
fn fdct_row(data: &mut [i16; 64], row: usize)
    requires
        row < 8,
        fdct_row_fits(old(data)@, row as int),
    ensures
        forall|i: int|
            0 <= i < 64 ==> final(data)@[i] == if i / 8 == row {
                fdct_row_out(old(data)@, row as int, i % 8)
            } else {
                old(data)@[i]
            },
{
    let off: usize = row * 8;
    let out = fdct_row8(
        data[off],
        data[off + 1],
        data[off + 2],
        data[off + 3],
        data[off + 4],
        data[off + 5],
        data[off + 6],
        data[off + 7],
    );
    let ghost before = data@;
    for k in 0..8usize
        invariant
            row < 8,
            off == 8 * row,
            forall|i: int| 0 <= i < 8 ==> out[i] == fdct_row_out(before, row as int, i),
            forall|i: int|
                0 <= i < 64 ==> data@[i] == if i / 8 == row && i % 8 < k {
                    fdct_row_out(before, row as int, i % 8)
                } else {
                    before[i]
                },
    {
        data[off + k] = out[k];
    }
}

/// Transforms column `col` in place.
fn fdct_col(data: &mut [i16; 64], col: usize)
    requires
        col < 8,
        fdct_col_fits(old(data)@, col as int),
    ensures
        forall|i: int|
            0 <= i < 64 ==> final(data)@[i] == if i % 8 == col {
                fdct_col_out(old(data)@, col as int, i / 8)
            } else {
                old(data)@[i]
            },
{
    let out = fdct_col8(
        data[col],
        data[col + 8],
        data[col + 16],
        data[col + 24],
        data[col + 32],
        data[col + 40],
        data[col + 48],
        data[col + 56],
    );
    let ghost before = data@;
    for k in 0..8usize
        invariant
            col < 8,
            forall|i: int| 0 <= i < 8 ==> out[i] == fdct_col_out(before, col as int, i),
            forall|i: int|
                0 <= i < 64 ==> data@[i] == if i % 8 == col && i / 8 < k {
                    fdct_col_out(before, col as int, i / 8)
                } else {
                    before[i]
                },
    {
        data[8 * k + col] = out[k];
    }
}

/// Rows are transformed independently of each other.
proof fn lemma_row_is_local(a: Seq<i16>, b: Seq<i16>, r: int)
    requires
        0 <= r < 8,
        forall|i: int| 8 * r <= i < 8 * r + 8 ==> a[i] == b[i],
    ensures
        fdct_row_fits(a, r) == fdct_row_fits(b, r),
        forall|k: int| #[trigger] fdct_row_out(a, r, k) == fdct_row_out(b, r, k),
{
}

/// Columns are transformed independently of each other.
proof fn lemma_col_is_local(a: Seq<i16>, b: Seq<i16>, c: int)
    requires
        0 <= c < 8,
        forall|i: int| 0 <= i < 64 && i % 8 == c ==> a[i] == b[i],
    ensures
        fdct_col_fits(a, c) == fdct_col_fits(b, c),
        forall|k: int| #[trigger] fdct_col_out(a, c, k) == fdct_col_out(b, c, k),
{
}

/// Forward 8x8 DCT, in place, over level-shifted samples in row-major
/// order. The coefficients are scaled by eight.
pub fn fdct_islow(data: &mut [i16; 64])
    requires
        fdct_fits(old(data)@),
    ensures
        final(data)@ == fdct_block(old(data)@),
{
    let ghost input = data@;
    for row in 0..8usize
        invariant
            fdct_fits(input),
            forall|i: int|
                0 <= i < 64 ==> data@[i] == if i / 8 < row {
                    fdct_row_out(input, i / 8, i % 8)
                } else {
                    input[i]
                },
    {
        proof {
            assert(fdct_row_fits(input, row as int));
            lemma_row_is_local(data@, input, row as int);
        }
        fdct_row(data, row);
    }
    let ghost mid = data@;
    assert(mid =~= fdct_rows(input));
    for col in 0..8usize
        invariant
            fdct_fits(input),
            mid == fdct_rows(input),
            forall|i: int|
                0 <= i < 64 ==> data@[i] == if i % 8 < col {
                    fdct_col_out(mid, i % 8, i / 8)
                } else {
                    mid[i]
                },
    {
        proof {
            assert(fdct_col_fits(mid, col as int));
            lemma_col_is_local(data@, mid, col as int);
        }
        fdct_col(data, col);
    }
    assert(data@ =~= fdct_cols(mid));
}

/// Forward 8x8 DCT, in place, in the 16-bit arithmetic of
/// [`crate::arch::neon::dct::fdct_islow`].
pub fn fdct_islow_neon(data: &mut [i16; 64])
    ensures
        final(data)@ == neon_fdct_block(old(data)@),
{
    crate::arch::neon::dct::fdct_islow(data);
}

/// A row or column whose entries are at most `m` in magnitude comes out at
/// most `65536 * m`.
proof fn lemma_raw_bound(k: int, m: int, d0: int, d1: int, d2: int, d3: int, d4: int, d5: int, d6: int, d7: int)
    requires
        0 <= k < 8,
        -m <= d0 <= m,
        -m <= d1 <= m,
        -m <= d2 <= m,
        -m <= d3 <= m,
        -m <= d4 <= m,
        -m <= d5 <= m,
        -m <= d6 <= m,
        -m <= d7 <= m,
    ensures
        -65536 * m <= fdct_raw(k, d0, d1, d2, d3, d4, d5, d6, d7) <= 65536 * m,
{
    reveal(fdct_raw);
}

/// Blocks whose entries are at most 799 in magnitude, level-shifted 8-bit
/// samples among them, meet the precondition of [`fdct_islow`].
pub proof fn law_fdct_accepts_samples(b: Seq<i16>)
    requires
        b.len() == 64,
        forall|i: int| 0 <= i < 64 ==> -799 <= #[trigger] b[i] <= 799,
    ensures
        fdct_fits(b),
{
    assert forall|r: int| 0 <= r < 8 implies #[trigger] fdct_row_fits(b, r) by {}
    let mid = fdct_rows(b);
    assert forall|i: int| 0 <= i < 64 implies -25568 <= #[trigger] mid[i] <= 25568 by {
        reveal(fdct_row_freq);
        let r = i / 8;
        lemma_raw_bound(
            i % 8,
            799,
            b[8 * r] as int,
            b[8 * r + 1] as int,
            b[8 * r + 2] as int,
            b[8 * r + 3] as int,
            b[8 * r + 4] as int,
            b[8 * r + 5] as int,
            b[8 * r + 6] as int,
            b[8 * r + 7] as int,
        );
    }
    assert forall|c: int| 0 <= c < 8 implies #[trigger] fdct_col_fits(mid, c) by {}
}

/// The transform of a constant block `c` is `64 * c` in the DC entry and
/// zero everywhere else.
pub proof fn law_fdct_of_constant(c: i16)
    requires
        -512 <= c <= 511,
    ensures
        fdct_block(Seq::new(64, |i: int| c)) == Seq::new(
            64,
            |i: int| if i == 0 { (64 * c) as i16 } else { 0i16 },
        ),
{
    let b = Seq::new(64, |i: int| c);
    let mid = fdct_rows(b);
    assert forall|i: int| 0 <= i < 64 implies #[trigger] mid[i] == if i % 8 == 0 { 32 * c } else { 0 } by {
        reveal(fdct_row_freq);
        reveal(fdct_raw);
    }
    assert forall|i: int| 0 <= i < 64 implies #[trigger] fdct_cols(mid)[i] == if i == 0 { 64 * c } else { 0 } by {
        reveal(fdct_col_freq);
        reveal(fdct_raw);
    }
    assert(fdct_cols(mid) =~= Seq::new(64, |i: int| if i == 0 { (64 * c) as i16 } else { 0i16 }));
}

/// The square root of two times the cosine of `m` sixteenths of a half turn,
/// in millionths.
pub open spec fn root2_cosine(m: int) -> int {
    let r = m % 32;
    let h = if r > 16 {
        32 - r
    } else {
        r
    };
    let q = if h > 8 {
        16 - h
    } else {
        h
    };
    let c = if q == 0 {
        1414214
    } else if q == 1 {
        1387040
    } else if q == 2 {
        1306563
    } else if q == 3 {
        1175876
    } else if q == 4 {
        1000000
    } else if q == 5 {
        785695
    } else if q == 6 {
        541196
    } else if q == 7 {
        275899
    } else {
        0int
    };
    if h > 8 {
        -c
    } else {
        c
    }
}

/// Sample `x` of the `k`-th basis function of the cosine transform, in
/// millionths: one for the constant function, and the square root of two
/// times the cosine of `(2 x + 1) k` sixteenths of a half turn for the others.
pub open spec fn basis(k: int, x: int) -> int {
    if k == 0 {
        1000000
    } else {
        root2_cosine((2 * x + 1) * k)
    }
}

/// How far a number is from zero.
pub open spec fn size(x: int) -> int {
    if x < 0 {
        -x
    } else {
        x
    }
}

/// The one-dimensional forward transform is the cosine transform: frequency
/// `k` is the sum of the samples, each times that sample of the `k`-th basis
/// function, scaled by `2^13`. The multipliers are off by no more than 1.2.
pub proof fn law_fdct_is_the_cosine_transform(
    k: int,
    d0: int,
    d1: int,
    d2: int,
    d3: int,
    d4: int,
    d5: int,
    d6: int,
    d7: int,
)
    requires
        0 <= k < 8,
    ensures
        ({
            let exact = basis(k, 0) * d0 + basis(k, 1) * d1 + basis(k, 2) * d2 + basis(k, 3) * d3 + basis(k, 4) * d4 + basis(k, 5) * d5 + basis(k, 6) * d6 + basis(k, 7) * d7;
            let slack = 1200000 * (size(d0) + size(d1) + size(d2) + size(d3) + size(d4) + size(d5) + size(d6) + size(d7));
            -slack <= 1000000 * fdct_raw(k, d0, d1, d2, d3, d4, d5, d6, d7) - 8192 * exact <= slack
        }),
{
    if k == 0 {
        lemma_frequency_0(d0, d1, d2, d3, d4, d5, d6, d7);
    } else if k == 1 {
        lemma_frequency_1(d0, d1, d2, d3, d4, d5, d6, d7);
    } else if k == 2 {
        lemma_frequency_2(d0, d1, d2, d3, d4, d5, d6, d7);
    } else if k == 3 {
        lemma_frequency_3(d0, d1, d2, d3, d4, d5, d6, d7);
    } else if k == 4 {
        lemma_frequency_4(d0, d1, d2, d3, d4, d5, d6, d7);
    } else if k == 5 {
        lemma_frequency_5(d0, d1, d2, d3, d4, d5, d6, d7);
    } else if k == 6 {
        lemma_frequency_6(d0, d1, d2, d3, d4, d5, d6, d7);
    } else if k == 7 {
        lemma_frequency_7(d0, d1, d2, d3, d4, d5, d6, d7);
    }
}

/// A sum of products with small factors is small.
pub proof fn lemma_small_sum(m: int, e0: int, e1: int, e2: int, e3: int, e4: int, e5: int, e6: int, e7: int, d0: int, d1: int, d2: int, d3: int, d4: int, d5: int, d6: int, d7: int)
    requires
        -m <= e0 <= m,
        -m <= e1 <= m,
        -m <= e2 <= m,
        -m <= e3 <= m,
        -m <= e4 <= m,
        -m <= e5 <= m,
        -m <= e6 <= m,
        -m <= e7 <= m,
    ensures
        -(m * (size(d0) + size(d1) + size(d2) + size(d3) + size(d4) + size(d5) + size(d6) + size(d7))) <= e0 * d0 + e1 * d1 + e2 * d2 + e3 * d3 + e4 * d4 + e5 * d5 + e6 * d6 + e7 * d7 <= m * (size(d0) + size(d1) + size(d2) + size(d3) + size(d4) + size(d5) + size(d6) + size(d7)),
{
    lemma_small_product(m, e0, d0);
    lemma_small_product(m, e1, d1);
    lemma_small_product(m, e2, d2);
    lemma_small_product(m, e3, d3);
    lemma_small_product(m, e4, d4);
    lemma_small_product(m, e5, d5);
    lemma_small_product(m, e6, d6);
    lemma_small_product(m, e7, d7);
    assert(m * (size(d0) + size(d1) + size(d2) + size(d3) + size(d4) + size(d5) + size(d6) + size(d7)) == m * size(d0) + m * size(d1) + m * size(d2) + m * size(d3) + m * size(d4) + m * size(d5) + m * size(d6) + m * size(d7)) by (nonlinear_arith);
}

/// A product with a small factor is small.
proof fn lemma_small_product(m: int, e: int, d: int)
    requires
        -m <= e <= m,
    ensures
        -(m * size(d)) <= e * d <= m * size(d),
{
    let a = size(d);
    if d >= 0 {
        assert(-(m * a) <= e * a <= m * a) by (nonlinear_arith)
            requires
                -m <= e <= m,
                a >= 0,
        ;
    } else {
        assert(-(m * a) <= e * d <= m * a) by (nonlinear_arith)
            requires
                -m <= e <= m,
                a >= 0,
                d == -a,
        ;
    }
}

/// Frequency 0.
proof fn lemma_frequency_0(
    d0: int,
    d1: int,
    d2: int,
    d3: int,
    d4: int,
    d5: int,
    d6: int,
    d7: int,
)
    ensures
        ({
            let exact = basis(0, 0) * d0 + basis(0, 1) * d1 + basis(0, 2) * d2 + basis(0, 3) * d3 + basis(0, 4) * d4 + basis(0, 5) * d5 + basis(0, 6) * d6 + basis(0, 7) * d7;
            let slack = 1200000 * (size(d0) + size(d1) + size(d2) + size(d3) + size(d4) + size(d5) + size(d6) + size(d7));
            -slack <= 1000000 * fdct_raw(0, d0, d1, d2, d3, d4, d5, d6, d7) - 8192 * exact <= slack
        }),
{
    lemma_basis_values(0);
    let exact = 1000000 * d0 + 1000000 * d1 + 1000000 * d2 + 1000000 * d3 + 1000000 * d4 + 1000000 * d5 + 1000000 * d6 + 1000000 * d7;
    assert(basis(0, 0) * d0 + basis(0, 1) * d1 + basis(0, 2) * d2 + basis(0, 3) * d3 + basis(0, 4) * d4 + basis(0, 5) * d5 + basis(0, 6) * d6 + basis(0, 7) * d7 == exact) by {
        assert(basis(0, 0) * d0 == 1000000 * d0);
        assert(basis(0, 1) * d1 == 1000000 * d1);
        assert(basis(0, 2) * d2 == 1000000 * d2);
        assert(basis(0, 3) * d3 == 1000000 * d3);
        assert(basis(0, 4) * d4 == 1000000 * d4);
        assert(basis(0, 5) * d5 == 1000000 * d5);
        assert(basis(0, 6) * d6 == 1000000 * d6);
        assert(basis(0, 7) * d7 == 1000000 * d7);
    }
    assert(1000000 * fdct_raw(0, d0, d1, d2, d3, d4, d5, d6, d7) - 8192 * exact == 0 * d0 + 0 * d1 + 0 * d2 + 0 * d3 + 0 * d4 + 0 * d5 + 0 * d6 + 0 * d7) by {
        reveal(fdct_raw);
    }
    lemma_small_sum(1200000, 0, 0, 0, 0, 0, 0, 0, 0, d0, d1, d2, d3, d4, d5, d6, d7);
}

/// Frequency 1.
proof fn lemma_frequency_1(
    d0: int,
    d1: int,
    d2: int,
    d3: int,
    d4: int,
    d5: int,
    d6: int,
    d7: int,
)
    ensures
        ({
            let exact = basis(1, 0) * d0 + basis(1, 1) * d1 + basis(1, 2) * d2 + basis(1, 3) * d3 + basis(1, 4) * d4 + basis(1, 5) * d5 + basis(1, 6) * d6 + basis(1, 7) * d7;
            let slack = 1200000 * (size(d0) + size(d1) + size(d2) + size(d3) + size(d4) + size(d5) + size(d6) + size(d7));
            -slack <= 1000000 * fdct_raw(1, d0, d1, d2, d3, d4, d5, d6, d7) - 8192 * exact <= slack
        }),
{
    lemma_basis_values(1);
    let exact = 1387040 * d0 + 1175876 * d1 + 785695 * d2 + 275899 * d3 + (-275899) * d4 + (-785695) * d5 + (-1175876) * d6 + (-1387040) * d7;
    assert(basis(1, 0) * d0 + basis(1, 1) * d1 + basis(1, 2) * d2 + basis(1, 3) * d3 + basis(1, 4) * d4 + basis(1, 5) * d5 + basis(1, 6) * d6 + basis(1, 7) * d7 == exact) by {
        assert(basis(1, 0) * d0 == 1387040 * d0);
        assert(basis(1, 1) * d1 == 1175876 * d1);
        assert(basis(1, 2) * d2 == 785695 * d2);
        assert(basis(1, 3) * d3 == 275899 * d3);
        assert(basis(1, 4) * d4 == (-275899) * d4);
        assert(basis(1, 5) * d5 == (-785695) * d5);
        assert(basis(1, 6) * d6 == (-1175876) * d6);
        assert(basis(1, 7) * d7 == (-1387040) * d7);
    }
    assert(1000000 * fdct_raw(1, d0, d1, d2, d3, d4, d5, d6, d7) - 8192 * exact == 368320 * d0 + 223808 * d1 + 586560 * d2 + (-164608) * d3 + 164608 * d4 + (-586560) * d5 + (-223808) * d6 + (-368320) * d7) by {
        reveal(fdct_raw);
    }
    lemma_small_sum(1200000, 368320, 223808, 586560, -164608, 164608, -586560, -223808, -368320, d0, d1, d2, d3, d4, d5, d6, d7);
}

/// Frequency 2.
proof fn lemma_frequency_2(
    d0: int,
    d1: int,
    d2: int,
    d3: int,
    d4: int,
    d5: int,
    d6: int,
    d7: int,
)
    ensures
        ({
            let exact = basis(2, 0) * d0 + basis(2, 1) * d1 + basis(2, 2) * d2 + basis(2, 3) * d3 + basis(2, 4) * d4 + basis(2, 5) * d5 + basis(2, 6) * d6 + basis(2, 7) * d7;
            let slack = 1200000 * (size(d0) + size(d1) + size(d2) + size(d3) + size(d4) + size(d5) + size(d6) + size(d7));
            -slack <= 1000000 * fdct_raw(2, d0, d1, d2, d3, d4, d5, d6, d7) - 8192 * exact <= slack
        }),
{
    lemma_basis_values(2);
    let exact = 1306563 * d0 + 541196 * d1 + (-541196) * d2 + (-1306563) * d3 + (-1306563) * d4 + (-541196) * d5 + 541196 * d6 + 1306563 * d7;
    assert(basis(2, 0) * d0 + basis(2, 1) * d1 + basis(2, 2) * d2 + basis(2, 3) * d3 + basis(2, 4) * d4 + basis(2, 5) * d5 + basis(2, 6) * d6 + basis(2, 7) * d7 == exact) by {
        assert(basis(2, 0) * d0 == 1306563 * d0);
        assert(basis(2, 1) * d1 == 541196 * d1);
        assert(basis(2, 2) * d2 == (-541196) * d2);
        assert(basis(2, 3) * d3 == (-1306563) * d3);
        assert(basis(2, 4) * d4 == (-1306563) * d4);
        assert(basis(2, 5) * d5 == (-541196) * d5);
        assert(basis(2, 6) * d6 == 541196 * d6);
        assert(basis(2, 7) * d7 == 1306563 * d7);
    }
    assert(1000000 * fdct_raw(2, d0, d1, d2, d3, d4, d5, d6, d7) - 8192 * exact == (-364096) * d0 + (-477632) * d1 + 477632 * d2 + 364096 * d3 + 364096 * d4 + 477632 * d5 + (-477632) * d6 + (-364096) * d7) by {
        reveal(fdct_raw);
    }
    lemma_small_sum(1200000, -364096, -477632, 477632, 364096, 364096, 477632, -477632, -364096, d0, d1, d2, d3, d4, d5, d6, d7);
}

/// Frequency 3.
proof fn lemma_frequency_3(
    d0: int,
    d1: int,
    d2: int,
    d3: int,
    d4: int,
    d5: int,
    d6: int,
    d7: int,
)
    ensures
        ({
            let exact = basis(3, 0) * d0 + basis(3, 1) * d1 + basis(3, 2) * d2 + basis(3, 3) * d3 + basis(3, 4) * d4 + basis(3, 5) * d5 + basis(3, 6) * d6 + basis(3, 7) * d7;
            let slack = 1200000 * (size(d0) + size(d1) + size(d2) + size(d3) + size(d4) + size(d5) + size(d6) + size(d7));
            -slack <= 1000000 * fdct_raw(3, d0, d1, d2, d3, d4, d5, d6, d7) - 8192 * exact <= slack
        }),
{
    lemma_basis_values(3);
    let exact = 1175876 * d0 + (-275899) * d1 + (-1387040) * d2 + (-785695) * d3 + 785695 * d4 + 1387040 * d5 + 275899 * d6 + (-1175876) * d7;
    assert(basis(3, 0) * d0 + basis(3, 1) * d1 + basis(3, 2) * d2 + basis(3, 3) * d3 + basis(3, 4) * d4 + basis(3, 5) * d5 + basis(3, 6) * d6 + basis(3, 7) * d7 == exact) by {
        assert(basis(3, 0) * d0 == 1175876 * d0);
        assert(basis(3, 1) * d1 == (-275899) * d1);
        assert(basis(3, 2) * d2 == (-1387040) * d2);
        assert(basis(3, 3) * d3 == (-785695) * d3);
        assert(basis(3, 4) * d4 == 785695 * d4);
        assert(basis(3, 5) * d5 == 1387040 * d5);
        assert(basis(3, 6) * d6 == 275899 * d6);
        assert(basis(3, 7) * d7 == (-1175876) * d7);
    }
    assert(1000000 * fdct_raw(3, d0, d1, d2, d3, d4, d5, d6, d7) - 8192 * exact == 223808 * d0 + 1164608 * d1 + 631680 * d2 + 413440 * d3 + (-413440) * d4 + (-631680) * d5 + (-1164608) * d6 + (-223808) * d7) by {
        reveal(fdct_raw);
    }
    lemma_small_sum(1200000, 223808, 1164608, 631680, 413440, -413440, -631680, -1164608, -223808, d0, d1, d2, d3, d4, d5, d6, d7);
}

/// Frequency 4.
proof fn lemma_frequency_4(
    d0: int,
    d1: int,
    d2: int,
    d3: int,
    d4: int,
    d5: int,
    d6: int,
    d7: int,
)
    ensures
        ({
            let exact = basis(4, 0) * d0 + basis(4, 1) * d1 + basis(4, 2) * d2 + basis(4, 3) * d3 + basis(4, 4) * d4 + basis(4, 5) * d5 + basis(4, 6) * d6 + basis(4, 7) * d7;
            let slack = 1200000 * (size(d0) + size(d1) + size(d2) + size(d3) + size(d4) + size(d5) + size(d6) + size(d7));
            -slack <= 1000000 * fdct_raw(4, d0, d1, d2, d3, d4, d5, d6, d7) - 8192 * exact <= slack
        }),
{
    lemma_basis_values(4);
    let exact = 1000000 * d0 + (-1000000) * d1 + (-1000000) * d2 + 1000000 * d3 + 1000000 * d4 + (-1000000) * d5 + (-1000000) * d6 + 1000000 * d7;
    assert(basis(4, 0) * d0 + basis(4, 1) * d1 + basis(4, 2) * d2 + basis(4, 3) * d3 + basis(4, 4) * d4 + basis(4, 5) * d5 + basis(4, 6) * d6 + basis(4, 7) * d7 == exact) by {
        assert(basis(4, 0) * d0 == 1000000 * d0);
        assert(basis(4, 1) * d1 == (-1000000) * d1);
        assert(basis(4, 2) * d2 == (-1000000) * d2);
        assert(basis(4, 3) * d3 == 1000000 * d3);
        assert(basis(4, 4) * d4 == 1000000 * d4);
        assert(basis(4, 5) * d5 == (-1000000) * d5);
        assert(basis(4, 6) * d6 == (-1000000) * d6);
        assert(basis(4, 7) * d7 == 1000000 * d7);
    }
    assert(1000000 * fdct_raw(4, d0, d1, d2, d3, d4, d5, d6, d7) - 8192 * exact == 0 * d0 + 0 * d1 + 0 * d2 + 0 * d3 + 0 * d4 + 0 * d5 + 0 * d6 + 0 * d7) by {
        reveal(fdct_raw);
    }
    lemma_small_sum(1200000, 0, 0, 0, 0, 0, 0, 0, 0, d0, d1, d2, d3, d4, d5, d6, d7);
}

/// Frequency 5.
proof fn lemma_frequency_5(
    d0: int,
    d1: int,
    d2: int,
    d3: int,
    d4: int,
    d5: int,
    d6: int,
    d7: int,
)
    ensures
        ({
            let exact = basis(5, 0) * d0 + basis(5, 1) * d1 + basis(5, 2) * d2 + basis(5, 3) * d3 + basis(5, 4) * d4 + basis(5, 5) * d5 + basis(5, 6) * d6 + basis(5, 7) * d7;
            let slack = 1200000 * (size(d0) + size(d1) + size(d2) + size(d3) + size(d4) + size(d5) + size(d6) + size(d7));
            -slack <= 1000000 * fdct_raw(5, d0, d1, d2, d3, d4, d5, d6, d7) - 8192 * exact <= slack
        }),
{
    lemma_basis_values(5);
    let exact = 785695 * d0 + (-1387040) * d1 + 275899 * d2 + 1175876 * d3 + (-1175876) * d4 + (-275899) * d5 + 1387040 * d6 + (-785695) * d7;
    assert(basis(5, 0) * d0 + basis(5, 1) * d1 + basis(5, 2) * d2 + basis(5, 3) * d3 + basis(5, 4) * d4 + basis(5, 5) * d5 + basis(5, 6) * d6 + basis(5, 7) * d7 == exact) by {
        assert(basis(5, 0) * d0 == 785695 * d0);
        assert(basis(5, 1) * d1 == (-1387040) * d1);
        assert(basis(5, 2) * d2 == 275899 * d2);
        assert(basis(5, 3) * d3 == 1175876 * d3);
        assert(basis(5, 4) * d4 == (-1175876) * d4);
        assert(basis(5, 5) * d5 == (-275899) * d5);
        assert(basis(5, 6) * d6 == 1387040 * d6);
        assert(basis(5, 7) * d7 == (-785695) * d7);
    }
    assert(1000000 * fdct_raw(5, d0, d1, d2, d3, d4, d5, d6, d7) - 8192 * exact == 586560 * d0 + 631680 * d1 + 835392 * d2 + 223808 * d3 + (-223808) * d4 + (-835392) * d5 + (-631680) * d6 + (-586560) * d7) by {
        reveal(fdct_raw);
    }
    lemma_small_sum(1200000, 586560, 631680, 835392, 223808, -223808, -835392, -631680, -586560, d0, d1, d2, d3, d4, d5, d6, d7);
}

/// Frequency 6.
proof fn lemma_frequency_6(
    d0: int,
    d1: int,
    d2: int,
    d3: int,
    d4: int,
    d5: int,
    d6: int,
    d7: int,
)
    ensures
        ({
            let exact = basis(6, 0) * d0 + basis(6, 1) * d1 + basis(6, 2) * d2 + basis(6, 3) * d3 + basis(6, 4) * d4 + basis(6, 5) * d5 + basis(6, 6) * d6 + basis(6, 7) * d7;
            let slack = 1200000 * (size(d0) + size(d1) + size(d2) + size(d3) + size(d4) + size(d5) + size(d6) + size(d7));
            -slack <= 1000000 * fdct_raw(6, d0, d1, d2, d3, d4, d5, d6, d7) - 8192 * exact <= slack
        }),
{
    lemma_basis_values(6);
    let exact = 541196 * d0 + (-1306563) * d1 + 1306563 * d2 + (-541196) * d3 + (-541196) * d4 + 1306563 * d5 + (-1306563) * d6 + 541196 * d7;
    assert(basis(6, 0) * d0 + basis(6, 1) * d1 + basis(6, 2) * d2 + basis(6, 3) * d3 + basis(6, 4) * d4 + basis(6, 5) * d5 + basis(6, 6) * d6 + basis(6, 7) * d7 == exact) by {
        assert(basis(6, 0) * d0 == 541196 * d0);
        assert(basis(6, 1) * d1 == (-1306563) * d1);
        assert(basis(6, 2) * d2 == 1306563 * d2);
        assert(basis(6, 3) * d3 == (-541196) * d3);
        assert(basis(6, 4) * d4 == (-541196) * d4);
        assert(basis(6, 5) * d5 == 1306563 * d5);
        assert(basis(6, 6) * d6 == (-1306563) * d6);
        assert(basis(6, 7) * d7 == 541196 * d7);
    }
    assert(1000000 * fdct_raw(6, d0, d1, d2, d3, d4, d5, d6, d7) - 8192 * exact == (-477632) * d0 + (-635904) * d1 + 635904 * d2 + 477632 * d3 + 477632 * d4 + 635904 * d5 + (-635904) * d6 + (-477632) * d7) by {
        reveal(fdct_raw);
    }
    lemma_small_sum(1200000, -477632, -635904, 635904, 477632, 477632, 635904, -635904, -477632, d0, d1, d2, d3, d4, d5, d6, d7);
}

/// Frequency 7.
proof fn lemma_frequency_7(
    d0: int,
    d1: int,
    d2: int,
    d3: int,
    d4: int,
    d5: int,
    d6: int,
    d7: int,
)
    ensures
        ({
            let exact = basis(7, 0) * d0 + basis(7, 1) * d1 + basis(7, 2) * d2 + basis(7, 3) * d3 + basis(7, 4) * d4 + basis(7, 5) * d5 + basis(7, 6) * d6 + basis(7, 7) * d7;
            let slack = 1200000 * (size(d0) + size(d1) + size(d2) + size(d3) + size(d4) + size(d5) + size(d6) + size(d7));
            -slack <= 1000000 * fdct_raw(7, d0, d1, d2, d3, d4, d5, d6, d7) - 8192 * exact <= slack
        }),
{
    lemma_basis_values(7);
    let exact = 275899 * d0 + (-785695) * d1 + 1175876 * d2 + (-1387040) * d3 + 1387040 * d4 + (-1175876) * d5 + 785695 * d6 + (-275899) * d7;
    assert(basis(7, 0) * d0 + basis(7, 1) * d1 + basis(7, 2) * d2 + basis(7, 3) * d3 + basis(7, 4) * d4 + basis(7, 5) * d5 + basis(7, 6) * d6 + basis(7, 7) * d7 == exact) by {
        assert(basis(7, 0) * d0 == 275899 * d0);
        assert(basis(7, 1) * d1 == (-785695) * d1);
        assert(basis(7, 2) * d2 == 1175876 * d2);
        assert(basis(7, 3) * d3 == (-1387040) * d3);
        assert(basis(7, 4) * d4 == 1387040 * d4);
        assert(basis(7, 5) * d5 == (-1175876) * d5);
        assert(basis(7, 6) * d6 == 785695 * d6);
        assert(basis(7, 7) * d7 == (-275899) * d7);
    }
    assert(1000000 * fdct_raw(7, d0, d1, d2, d3, d4, d5, d6, d7) - 8192 * exact == (-164608) * d0 + 413440 * d1 + 223808 * d2 + (-368320) * d3 + 368320 * d4 + (-223808) * d5 + (-413440) * d6 + 164608 * d7) by {
        reveal(fdct_raw);
    }
    lemma_small_sum(1200000, -164608, 413440, 223808, -368320, 368320, -223808, -413440, 164608, d0, d1, d2, d3, d4, d5, d6, d7);
}

/// The values of the `k`-th basis function.
pub proof fn lemma_basis_values(k: int)
    ensures
        k == 0 ==> basis(0, 0) == 1000000 && basis(0, 1) == 1000000 && basis(0, 2) == 1000000 && basis(0, 3) == 1000000 && basis(0, 4) == 1000000 && basis(0, 5) == 1000000 && basis(0, 6) == 1000000 && basis(0, 7) == 1000000,
        k == 1 ==> basis(1, 0) == 1387040 && basis(1, 1) == 1175876 && basis(1, 2) == 785695 && basis(1, 3) == 275899 && basis(1, 4) == -275899 && basis(1, 5) == -785695 && basis(1, 6) == -1175876 && basis(1, 7) == -1387040,
        k == 2 ==> basis(2, 0) == 1306563 && basis(2, 1) == 541196 && basis(2, 2) == -541196 && basis(2, 3) == -1306563 && basis(2, 4) == -1306563 && basis(2, 5) == -541196 && basis(2, 6) == 541196 && basis(2, 7) == 1306563,
        k == 3 ==> basis(3, 0) == 1175876 && basis(3, 1) == -275899 && basis(3, 2) == -1387040 && basis(3, 3) == -785695 && basis(3, 4) == 785695 && basis(3, 5) == 1387040 && basis(3, 6) == 275899 && basis(3, 7) == -1175876,
        k == 4 ==> basis(4, 0) == 1000000 && basis(4, 1) == -1000000 && basis(4, 2) == -1000000 && basis(4, 3) == 1000000 && basis(4, 4) == 1000000 && basis(4, 5) == -1000000 && basis(4, 6) == -1000000 && basis(4, 7) == 1000000,
        k == 5 ==> basis(5, 0) == 785695 && basis(5, 1) == -1387040 && basis(5, 2) == 275899 && basis(5, 3) == 1175876 && basis(5, 4) == -1175876 && basis(5, 5) == -275899 && basis(5, 6) == 1387040 && basis(5, 7) == -785695,
        k == 6 ==> basis(6, 0) == 541196 && basis(6, 1) == -1306563 && basis(6, 2) == 1306563 && basis(6, 3) == -541196 && basis(6, 4) == -541196 && basis(6, 5) == 1306563 && basis(6, 6) == -1306563 && basis(6, 7) == 541196,
        k == 7 ==> basis(7, 0) == 275899 && basis(7, 1) == -785695 && basis(7, 2) == 1175876 && basis(7, 3) == -1387040 && basis(7, 4) == 1387040 && basis(7, 5) == -1175876 && basis(7, 6) == 785695 && basis(7, 7) == -275899,
{
}

/// A block whose rows are all alike has horizontal frequencies only, which
/// stand in the first row of the result.
pub proof fn law_fdct_keeps_horizontal_frequencies(f: Seq<i16>, i: int)
    requires
        f.len() == 8,
        forall|x: int| 0 <= x < 8 ==> -500 <= #[trigger] f[x] <= 500,
        0 <= i < 64,
    ensures
        fdct_block(Seq::new(64, |j: int| f[j % 8]))[i] == if i / 8 == 0 {
            2 * round_div(fdct_raw(i % 8, f[0] as int, f[1] as int, f[2] as int, f[3] as int, f[4] as int, f[5] as int, f[6] as int, f[7] as int), 2048)
        } else {
            0
        },
{
    let a = Seq::new(64, |j: int| f[j % 8]);
    let mid = fdct_rows(a);
    let c = i % 8;
    assert forall|r: int| 0 <= r < 8 implies #[trigger] mid[c + 8 * r] == round_div(fdct_raw(c, f[0] as int, f[1] as int, f[2] as int, f[3] as int, f[4] as int, f[5] as int, f[6] as int, f[7] as int), 2048) by {
        lemma_same_row(f, r, c);
    }
    assert(mid[c + 8 * 0] == mid[c]);
    lemma_raw_bound(c, 500, f[0] as int, f[1] as int, f[2] as int, f[3] as int, f[4] as int, f[5] as int, f[6] as int, f[7] as int);
    lemma_constant_column(mid, c, i / 8);
}

/// Entry `c` of row `r` of a block whose rows are all alike.
proof fn lemma_same_row(f: Seq<i16>, r: int, c: int)
    requires
        f.len() == 8,
        forall|x: int| 0 <= x < 8 ==> -500 <= #[trigger] f[x] <= 500,
        0 <= r < 8,
        0 <= c < 8,
    ensures
        fdct_rows(Seq::new(64, |j: int| f[j % 8]))[c + 8 * r] == round_div(fdct_raw(c, f[0] as int, f[1] as int, f[2] as int, f[3] as int, f[4] as int, f[5] as int, f[6] as int, f[7] as int), 2048),
{
    reveal(fdct_row_freq);
    lemma_raw_bound(c, 500, f[0] as int, f[1] as int, f[2] as int, f[3] as int, f[4] as int, f[5] as int, f[6] as int, f[7] as int);
    let i = c + 8 * r;
    assert(i / 8 == r && i % 8 == c);
}

/// A block whose columns are all alike has vertical frequencies only, which
/// stand in the first column of the result.
pub proof fn law_fdct_keeps_vertical_frequencies(f: Seq<i16>, i: int)
    requires
        f.len() == 8,
        forall|x: int| 0 <= x < 8 ==> -500 <= #[trigger] f[x] <= 500,
        0 <= i < 64,
    ensures
        fdct_block(Seq::new(64, |j: int| f[j / 8]))[i] == if i % 8 == 0 {
            round_div(fdct_raw(i / 8, f[0] as int, f[1] as int, f[2] as int, f[3] as int, f[4] as int, f[5] as int, f[6] as int, f[7] as int), 1024)
        } else {
            0
        },
{
    let a = Seq::new(64, |j: int| f[j / 8]);
    let mid = fdct_rows(a);
    let (c, k) = (i % 8, i / 8);
    assert forall|r: int| 0 <= r < 8 implies #[trigger] mid[c + 8 * r] == if c == 0 {
        32 * f[r]
    } else {
        0
    } by {
        lemma_same_column(f, r, c);
    }
    assert(mid[c + 8 * 0] == if c == 0 { 32 * f[0] } else { 0 });
    assert(mid[c + 8 * 1] == if c == 0 { 32 * f[1] } else { 0 });
    assert(mid[c + 8 * 2] == if c == 0 { 32 * f[2] } else { 0 });
    assert(mid[c + 8 * 3] == if c == 0 { 32 * f[3] } else { 0 });
    assert(mid[c + 8 * 4] == if c == 0 { 32 * f[4] } else { 0 });
    assert(mid[c + 8 * 5] == if c == 0 { 32 * f[5] } else { 0 });
    assert(mid[c + 8 * 6] == if c == 0 { 32 * f[6] } else { 0 });
    assert(mid[c + 8 * 7] == if c == 0 { 32 * f[7] } else { 0 });
    lemma_raw_scales(k, f[0] as int, f[1] as int, f[2] as int, f[3] as int, f[4] as int, f[5] as int, f[6] as int, f[7] as int);
    lemma_raw_bound(k, 500, f[0] as int, f[1] as int, f[2] as int, f[3] as int, f[4] as int, f[5] as int, f[6] as int, f[7] as int);
    reveal(fdct_col_freq);
    if c != 0 {
        reveal(fdct_raw);
    }
}

/// Entry `c` of row `r` of a block whose columns are all alike.
proof fn lemma_same_column(f: Seq<i16>, r: int, c: int)
    requires
        f.len() == 8,
        forall|x: int| 0 <= x < 8 ==> -500 <= #[trigger] f[x] <= 500,
        0 <= r < 8,
        0 <= c < 8,
    ensures
        fdct_rows(Seq::new(64, |j: int| f[j / 8]))[c + 8 * r] == if c == 0 {
            32 * f[r]
        } else {
            0
        },
{
    reveal(fdct_row_freq);
    reveal(fdct_raw);
    let i = c + 8 * r;
    assert(i / 8 == r && i % 8 == c);
}

/// A column of equal entries has no frequency but the zeroth.
proof fn lemma_constant_column(b: Seq<i16>, c: int, k: int)
    requires
        b.len() == 64,
        0 <= c < 8,
        0 <= k < 8,
        -16100 <= b[c] <= 16100,
        forall|r: int| 0 <= r < 8 ==> #[trigger] b[c + 8 * r] == b[c],
    ensures
        fdct_col_out(b, c, k) == if k == 0 {
            2 * b[c]
        } else {
            0
        },
{
    reveal(fdct_raw);
    reveal(fdct_col_freq);
    assert(b[c + 8 * 0] == b[c]);
    assert(b[c + 8 * 1] == b[c]);
    assert(b[c + 8 * 2] == b[c]);
    assert(b[c + 8 * 3] == b[c]);
    assert(b[c + 8 * 4] == b[c]);
    assert(b[c + 8 * 5] == b[c]);
    assert(b[c + 8 * 6] == b[c]);
    assert(b[c + 8 * 7] == b[c]);
}

/// The transform of samples that are 32 times as large.
proof fn lemma_raw_scales(
    k: int,
    d0: int,
    d1: int,
    d2: int,
    d3: int,
    d4: int,
    d5: int,
    d6: int,
    d7: int,
)
    ensures
        fdct_raw(k, 32 * d0, 32 * d1, 32 * d2, 32 * d3, 32 * d4, 32 * d5, 32 * d6, 32 * d7) == 32 * fdct_raw(k, d0, d1, d2, d3, d4, d5, d6, d7),
{
    reveal(fdct_raw);
}

} // verus!
