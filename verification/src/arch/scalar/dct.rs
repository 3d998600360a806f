//! Forward and inverse 8x8 DCT, integer Loeffler/Ligtenberg/Moschytz
//! ("islow") form. The multipliers are listed in [`crate::dct`].

use vstd::prelude::*;

use crate::fixed::{clamp_to_u8, lemma_shr18_i64};

verus! {

use crate::dct::{
    basis, fdct_block, fdct_fits, fdct_raw, law_fdct_of_constant, lemma_basis_values, lemma_small_sum, size,
};
use crate::fixed::{clamp_u8, round_div};

/// Sample `x` of the one-dimensional inverse transform of eight
/// frequencies, scaled by `2^13`.
#[verifier::opaque]
pub open spec fn idct_raw(
    x: int,
    c0: int,
    c1: int,
    c2: int,
    c3: int,
    c4: int,
    c5: int,
    c6: int,
    c7: int,
) -> int {
    let e0 = 8192 * (c0 + c4) + 10703 * c2 + 4433 * c6;
    let e1 = 8192 * (c0 - c4) + 4433 * c2 - 10704 * c6;
    let e2 = 8192 * (c0 - c4) - 4433 * c2 + 10704 * c6;
    let e3 = 8192 * (c0 + c4) - 10703 * c2 - 4433 * c6;
    let o0 = 11363 * c1 + 9633 * c3 + 6437 * c5 + 2260 * c7;
    let o1 = 9633 * c1 - 2259 * c3 - 11362 * c5 - 6436 * c7;
    let o2 = 6437 * c1 - 11362 * c3 + 2261 * c5 + 9633 * c7;
    let o3 = 2260 * c1 - 6436 * c3 + 9633 * c5 - 11363 * c7;
    if x == 0 {
        e0 + o0
    } else if x == 1 {
        e1 + o1
    } else if x == 2 {
        e2 + o2
    } else if x == 3 {
        e3 + o3
    } else if x == 4 {
        e3 - o3
    } else if x == 5 {
        e2 - o2
    } else if x == 6 {
        e1 - o1
    } else {
        e0 - o0
    }
}

/// Sample `x` as the column pass rounds it, keeping two extra bits of
/// precision.
#[verifier::opaque]
pub open spec fn idct_col_sample(
    x: int,
    c0: int,
    c1: int,
    c2: int,
    c3: int,
    c4: int,
    c5: int,
    c6: int,
    c7: int,
) -> int {
    round_div(idct_raw(x, c0, c1, c2, c3, c4, c5, c6, c7), 2048)
}

/// Sample `x` as the row pass leaves it: rounded, level-shifted by 128 and
/// limited to a byte.
#[verifier::opaque]
pub open spec fn idct_row_sample(
    x: int,
    c0: int,
    c1: int,
    c2: int,
    c3: int,
    c4: int,
    c5: int,
    c6: int,
    c7: int,
) -> u8 {
    clamp_u8(round_div(idct_raw(x, c0, c1, c2, c3, c4, c5, c6, c7), 262144) + 128) as u8
}

/// Entry `x` of column `c` after the column pass.
pub open spec fn idct_col_out(coef: Seq<i16>, c: int, x: int) -> int {
    idct_col_sample(
        x,
        coef[c] as int,
        coef[c + 8] as int,
        coef[c + 16] as int,
        coef[c + 24] as int,
        coef[c + 32] as int,
        coef[c + 40] as int,
        coef[c + 48] as int,
        coef[c + 56] as int,
    )
}

/// Sample `x` of row `r` after the row pass.
pub open spec fn idct_row_out(ws: Seq<int>, r: int, x: int) -> u8 {
    idct_row_sample(
        x,
        ws[8 * r],
        ws[8 * r + 1],
        ws[8 * r + 2],
        ws[8 * r + 3],
        ws[8 * r + 4],
        ws[8 * r + 5],
        ws[8 * r + 6],
        ws[8 * r + 7],
    )
}

/// The block after the column pass.
pub open spec fn idct_cols(coef: Seq<i16>) -> Seq<int> {
    Seq::new(64, |i: int| idct_col_out(coef, i % 8, i / 8))
}

/// The inverse 8x8 DCT of dequantized coefficients in natural order.
pub open spec fn idct_block(coef: Seq<i16>) -> Seq<u8> {
    Seq::new(64, |i: int| idct_row_out(idct_cols(coef), i / 8, i % 8))
}

/// Forward 8x8 DCT, in place. See [`crate::dct::fdct_islow`].
pub fn fdct_islow(data: &mut [i16; 64])
    requires
        fdct_fits(old(data)@),
    ensures
        final(data)@ == fdct_block(old(data)@),
{
    crate::dct::fdct_islow(data);
}

/// The half of the inverse transform that the even frequencies feed.
fn idct_even(c0: i32, c2: i32, c4: i32, c6: i32) -> (e: (i64, i64, i64, i64))
    requires
        -0x10_0000 <= c0 <= 0x10_0000,
        -0x10_0000 <= c2 <= 0x10_0000,
        -0x10_0000 <= c4 <= 0x10_0000,
        -0x10_0000 <= c6 <= 0x10_0000,
    ensures
        e.0 == 8192 * (c0 + c4) + 10703 * c2 + 4433 * c6,
        e.1 == 8192 * (c0 - c4) + 4433 * c2 - 10704 * c6,
        e.2 == 8192 * (c0 - c4) - 4433 * c2 + 10704 * c6,
        e.3 == 8192 * (c0 + c4) - 10703 * c2 - 4433 * c6,
{
    let z2 = c2 as i64;
    let z3 = c6 as i64;
    let z1 = (z2 + z3) * 4433;
    let tmp2 = z1 - z3 * 15137;
    let tmp3 = z1 + z2 * 6270;
    let tmp0 = (c0 as i64 + c4 as i64) * 8192;
    let tmp1 = (c0 as i64 - c4 as i64) * 8192;
    (tmp0 + tmp3, tmp1 + tmp2, tmp1 - tmp2, tmp0 - tmp3)
}

/// The half of the inverse transform that the odd frequencies feed.
fn idct_odd(c1: i32, c3: i32, c5: i32, c7: i32) -> (o: (i64, i64, i64, i64))
    requires
        -0x10_0000 <= c1 <= 0x10_0000,
        -0x10_0000 <= c3 <= 0x10_0000,
        -0x10_0000 <= c5 <= 0x10_0000,
        -0x10_0000 <= c7 <= 0x10_0000,
    ensures
        o.0 == 11363 * c1 + 9633 * c3 + 6437 * c5 + 2260 * c7,
        o.1 == 9633 * c1 - 2259 * c3 - 11362 * c5 - 6436 * c7,
        o.2 == 6437 * c1 - 11362 * c3 + 2261 * c5 + 9633 * c7,
        o.3 == 2260 * c1 - 6436 * c3 + 9633 * c5 - 11363 * c7,
{
    let t0 = c7 as i64;
    let t1 = c5 as i64;
    let t2 = c3 as i64;
    let t3 = c1 as i64;
    let z5 = (t0 + t1 + t2 + t3) * 9633;
    let z1 = (t0 + t3) * 7373;
    let z2 = (t1 + t2) * 20995;
    let z3 = z5 - (t0 + t2) * 16069;
    let z4 = z5 - (t1 + t3) * 3196;
    (t3 * 12299 - z1 + z4, t2 * 25172 - z2 + z3, t1 * 16819 - z2 + z4, t0 * 2446 - z1 + z3)
}

/// The frequencies are plain 16-bit coefficients.
spec fn in_small_range(c0: i32, c1: i32, c2: i32, c3: i32, c4: i32, c5: i32, c6: i32, c7: i32) -> bool {
    &&& -32768 <= c0 <= 32767
    &&& -32768 <= c1 <= 32767
    &&& -32768 <= c2 <= 32767
    &&& -32768 <= c3 <= 32767
    &&& -32768 <= c4 <= 32767
    &&& -32768 <= c5 <= 32767
    &&& -32768 <= c6 <= 32767
    &&& -32768 <= c7 <= 32767
}

/// Range of the column pass.
spec fn small_raw(x: i64) -> bool {
    -2_100_000_000 <= x <= 2_100_000_000
}

/// Range of the row pass.
spec fn large_raw(x: i64) -> bool {
    -0x20_0000_0000 <= x <= 0x20_0000_0000
}

/// One-dimensional inverse transform.
fn idct_1d(
    c0: i32,
    c1: i32,
    c2: i32,
    c3: i32,
    c4: i32,
    c5: i32,
    c6: i32,
    c7: i32,
) -> (r: (i64, i64, i64, i64, i64, i64, i64, i64))
    requires
        -0x10_0000 <= c0 <= 0x10_0000,
        -0x10_0000 <= c1 <= 0x10_0000,
        -0x10_0000 <= c2 <= 0x10_0000,
        -0x10_0000 <= c3 <= 0x10_0000,
        -0x10_0000 <= c4 <= 0x10_0000,
        -0x10_0000 <= c5 <= 0x10_0000,
        -0x10_0000 <= c6 <= 0x10_0000,
        -0x10_0000 <= c7 <= 0x10_0000,
    ensures
        r.0 == idct_raw(0, c0 as int, c1 as int, c2 as int, c3 as int, c4 as int, c5 as int, c6 as int, c7 as int),
        r.1 == idct_raw(1, c0 as int, c1 as int, c2 as int, c3 as int, c4 as int, c5 as int, c6 as int, c7 as int),
        r.2 == idct_raw(2, c0 as int, c1 as int, c2 as int, c3 as int, c4 as int, c5 as int, c6 as int, c7 as int),
        r.3 == idct_raw(3, c0 as int, c1 as int, c2 as int, c3 as int, c4 as int, c5 as int, c6 as int, c7 as int),
        r.4 == idct_raw(4, c0 as int, c1 as int, c2 as int, c3 as int, c4 as int, c5 as int, c6 as int, c7 as int),
        r.5 == idct_raw(5, c0 as int, c1 as int, c2 as int, c3 as int, c4 as int, c5 as int, c6 as int, c7 as int),
        r.6 == idct_raw(6, c0 as int, c1 as int, c2 as int, c3 as int, c4 as int, c5 as int, c6 as int, c7 as int),
        in_small_range(c0, c1, c2, c3, c4, c5, c6, c7) ==> small_raw(r.0) && small_raw(r.1) && small_raw(r.2)
            && small_raw(r.3) && small_raw(r.4) && small_raw(r.5) && small_raw(r.6) && small_raw(r.7),
        large_raw(r.0) && large_raw(r.1) && large_raw(r.2) && large_raw(r.3) && large_raw(r.4) && large_raw(
            r.5,
        ) && large_raw(r.6) && large_raw(r.7),
        r.7 == idct_raw(7, c0 as int, c1 as int, c2 as int, c3 as int, c4 as int, c5 as int, c6 as int, c7 as int),
{
    reveal(idct_raw);
    let e = idct_even(c0, c2, c4, c6);
    let o = idct_odd(c1, c3, c5, c7);
    (e.0 + o.0, e.1 + o.1, e.2 + o.2, e.3 + o.3, e.3 - o.3, e.2 - o.2, e.1 - o.1, e.0 - o.0)
}

/// Round-and-shift by 11.
fn descale11(x: i64) -> (r: i32)
    requires
        small_raw(x),
    ensures
        r == round_div(x as int, 2048),
        -0x10_0000 <= r <= 0x10_0000,
{
    let y: i32 = (x + 1024) as i32;
    proof {
        crate::fixed::lemma_shr_i32(y);
    }
    y >> 11
}

/// Round-and-shift by 18, level shift, and range limit.
fn descale18(x: i64) -> (r: u8)
    requires
        large_raw(x),
    ensures
        r == clamp_u8(round_div(x as int, 262144) + 128),
{
    let y: i64 = x + 131072 + 33554432;
    proof {
        lemma_shr18_i64(y);
    }
    clamp_to_u8((y >> 18) as i32)
}

/// One column of eight coefficients.
fn idct_col8(c0: i16, c1: i16, c2: i16, c3: i16, c4: i16, c5: i16, c6: i16, c7: i16) -> (out: [i32; 8])
    ensures
        forall|x: int|
            0 <= x < 8 ==> #[trigger] out[x] == idct_col_sample(
                x,
                c0 as int,
                c1 as int,
                c2 as int,
                c3 as int,
                c4 as int,
                c5 as int,
                c6 as int,
                c7 as int,
            ) && -0x10_0000 <= out[x] <= 0x10_0000,
{
    reveal(idct_col_sample);
    let r = idct_1d(c0 as i32, c1 as i32, c2 as i32, c3 as i32, c4 as i32, c5 as i32, c6 as i32, c7 as i32);
    [
        descale11(r.0),
        descale11(r.1),
        descale11(r.2),
        descale11(r.3),
        descale11(r.4),
        descale11(r.5),
        descale11(r.6),
        descale11(r.7),
    ]
}

/// One row of eight workspace entries.
fn idct_row8(c0: i32, c1: i32, c2: i32, c3: i32, c4: i32, c5: i32, c6: i32, c7: i32) -> (out: [u8; 8])
    requires
        -0x10_0000 <= c0 <= 0x10_0000,
        -0x10_0000 <= c1 <= 0x10_0000,
        -0x10_0000 <= c2 <= 0x10_0000,
        -0x10_0000 <= c3 <= 0x10_0000,
        -0x10_0000 <= c4 <= 0x10_0000,
        -0x10_0000 <= c5 <= 0x10_0000,
        -0x10_0000 <= c6 <= 0x10_0000,
        -0x10_0000 <= c7 <= 0x10_0000,
    ensures
        forall|x: int|
            0 <= x < 8 ==> #[trigger] out[x] == idct_row_sample(
                x,
                c0 as int,
                c1 as int,
                c2 as int,
                c3 as int,
                c4 as int,
                c5 as int,
                c6 as int,
                c7 as int,
            ),
{
    reveal(idct_row_sample);
    let r = idct_1d(c0, c1, c2, c3, c4, c5, c6, c7);
    [
        descale18(r.0),
        descale18(r.1),
        descale18(r.2),
        descale18(r.3),
        descale18(r.4),
        descale18(r.5),
        descale18(r.6),
        descale18(r.7),
    ]
}

/// Column pass over column `col`.
fn idct_col(coef: &[i16; 64], ws: &mut [i32; 64], col: usize)
    requires
        col < 8,
    ensures
        forall|i: int|
            0 <= i < 64 ==> final(ws)@[i] == if i % 8 == col {
                idct_col_out(coef@, col as int, i / 8)
            } else {
                old(ws)@[i] as int
            },
        forall|i: int|
            0 <= i < 64 && i % 8 == col ==> -0x10_0000 <= #[trigger] final(ws)@[i] <= 0x10_0000,
{
    let out = idct_col8(
        coef[col],
        coef[col + 8],
        coef[col + 16],
        coef[col + 24],
        coef[col + 32],
        coef[col + 40],
        coef[col + 48],
        coef[col + 56],
    );
    let ghost before = ws@;
    for k in 0..8usize
        invariant
            col < 8,
            forall|i: int|
                0 <= i < 8 ==> out[i] == idct_col_out(coef@, col as int, i) && -0x10_0000 <= out[i]
                    <= 0x10_0000,
            forall|i: int|
                0 <= i < 64 ==> ws@[i] == if i % 8 == col && i / 8 < k {
                    out@[i / 8]
                } else {
                    before[i]
                },
    {
        ws[8 * k + col] = out[k];
    }
}

/// Row pass over row `row`.
fn idct_row(ws: &[i32; 64], output: &mut [u8; 64], row: usize)
    requires
        row < 8,
        forall|i: int| 0 <= i < 64 ==> -0x10_0000 <= #[trigger] ws[i] <= 0x10_0000,
    ensures
        forall|i: int|
            0 <= i < 64 ==> final(output)@[i] == if i / 8 == row {
                idct_row_out(ws@.map_values(|x: i32| x as int), row as int, i % 8)
            } else {
                old(output)@[i]
            },
{
    let off: usize = row * 8;
    let ghost w = ws@.map_values(|x: i32| x as int);
    let out = idct_row8(
        ws[off],
        ws[off + 1],
        ws[off + 2],
        ws[off + 3],
        ws[off + 4],
        ws[off + 5],
        ws[off + 6],
        ws[off + 7],
    );
    let ghost before = output@;
    for k in 0..8usize
        invariant
            row < 8,
            off == 8 * row,
            forall|i: int| 0 <= i < 8 ==> out[i] == idct_row_out(w, row as int, i),
            forall|i: int|
                0 <= i < 64 ==> output@[i] == if i / 8 == row && i % 8 < k {
                    idct_row_out(w, row as int, i % 8)
                } else {
                    before[i]
                },
    {
        output[off + k] = out[k];
    }
}

/// Inverse 8x8 DCT. `coef` is in natural order and already dequantized;
/// `output` receives 8x8 samples in natural order.
///
/// The column pass stays within 32 bits and the row pass runs in 64, so
/// every `i16` input is accepted.
pub fn idct_islow(coef: &[i16; 64], output: &mut [u8; 64])
    ensures
        final(output)@ == idct_block(coef@),
{
    let mut ws: [i32; 64] = [0i32; 64];
    for col in 0..8usize
        invariant
            forall|i: int|
                0 <= i < 64 && i % 8 < col ==> #[trigger] ws@[i] == idct_col_out(coef@, i % 8, i / 8)
                    && -0x10_0000 <= ws@[i] <= 0x10_0000,
    {
        idct_col(coef, &mut ws, col);
    }
    assert(ws@.map_values(|x: i32| x as int) =~= idct_cols(coef@));
    for row in 0..8usize
        invariant
            ws@.map_values(|x: i32| x as int) == idct_cols(coef@),
            forall|i: int| 0 <= i < 64 ==> -0x10_0000 <= #[trigger] ws@[i] <= 0x10_0000,
            forall|i: int|
                0 <= i < 64 && i / 8 < row ==> output@[i] == idct_row_out(
                    idct_cols(coef@),
                    i / 8,
                    i % 8,
                ),
    {
        idct_row(&ws, output, row);
    }
    assert(output@ =~= idct_block(coef@));
}

/// A block with only a DC coefficient decodes to a flat block: the
/// coefficient divided by eight, rounded, level-shifted and limited.
pub proof fn law_idct_of_dc(coef: Seq<i16>)
    requires
        coef.len() == 64,
        forall|i: int| 1 <= i < 64 ==> #[trigger] coef[i] == 0,
    ensures
        forall|i: int|
            0 <= i < 64 ==> #[trigger] idct_block(coef)[i] == clamp_u8(round_div(coef[0] as int, 8) + 128),
{
    let ws = idct_cols(coef);
    assert forall|i: int| 0 <= i < 64 implies #[trigger] ws[i] == if i % 8 == 0 { 4 * coef[0] } else { 0 } by {
        reveal(idct_col_sample);
        reveal(idct_raw);
    }
    assert forall|i: int| 0 <= i < 64 implies #[trigger] idct_block(coef)[i] == clamp_u8(
        round_div(coef[0] as int, 8) + 128,
    ) by {
        reveal(idct_row_sample);
        reveal(idct_raw);
    }
}

/// A flat block of samples comes back from its transform, whose factor of
/// eight divides out.
pub proof fn law_flat_block_round_trips(c: i16)
    requires
        -128 <= c <= 127,
    ensures
        ({
            let freq = fdct_block(Seq::new(64, |i: int| c));
            let coef = Seq::new(64, |i: int| (freq[i] as int / 8) as i16);
            &&& forall|i: int| 0 <= i < 64 ==> #[trigger] freq[i] % 8 == 0
            &&& forall|i: int| 0 <= i < 64 ==> #[trigger] idct_block(coef)[i] == c + 128
        }),
{
    law_fdct_of_constant(c);
    let freq = fdct_block(Seq::new(64, |i: int| c));
    let coef = Seq::new(64, |i: int| (freq[i] as int / 8) as i16);
    law_idct_of_dc(coef);
}

/// The one-dimensional inverse transform is the inverse cosine transform:
/// sample `x` is the sum of the basis functions at `x`, each times its
/// frequency, scaled by `2^13`. The multipliers are off by no more than 1.2.
pub proof fn law_idct_is_the_inverse_cosine_transform(
    x: int,
    c0: int,
    c1: int,
    c2: int,
    c3: int,
    c4: int,
    c5: int,
    c6: int,
    c7: int,
)
    requires
        0 <= x < 8,
    ensures
        ({
            let exact = basis(0, x) * c0 + basis(1, x) * c1 + basis(2, x) * c2 + basis(3, x) * c3 + basis(4, x) * c4 + basis(5, x) * c5 + basis(6, x) * c6 + basis(7, x) * c7;
            let slack = 1200000 * (size(c0) + size(c1) + size(c2) + size(c3) + size(c4) + size(c5) + size(c6) + size(c7));
            -slack <= 1000000 * idct_raw(x, c0, c1, c2, c3, c4, c5, c6, c7) - 8192 * exact <= slack
        }),
{
    if x == 0 {
        lemma_sample_0(c0, c1, c2, c3, c4, c5, c6, c7);
    } else if x == 1 {
        lemma_sample_1(c0, c1, c2, c3, c4, c5, c6, c7);
    } else if x == 2 {
        lemma_sample_2(c0, c1, c2, c3, c4, c5, c6, c7);
    } else if x == 3 {
        lemma_sample_3(c0, c1, c2, c3, c4, c5, c6, c7);
    } else if x == 4 {
        lemma_sample_4(c0, c1, c2, c3, c4, c5, c6, c7);
    } else if x == 5 {
        lemma_sample_5(c0, c1, c2, c3, c4, c5, c6, c7);
    } else if x == 6 {
        lemma_sample_6(c0, c1, c2, c3, c4, c5, c6, c7);
    } else if x == 7 {
        lemma_sample_7(c0, c1, c2, c3, c4, c5, c6, c7);
    }
}

/// Sample 0.
proof fn lemma_sample_0(
    c0: int,
    c1: int,
    c2: int,
    c3: int,
    c4: int,
    c5: int,
    c6: int,
    c7: int,
)
    ensures
        ({
            let exact = basis(0, 0) * c0 + basis(1, 0) * c1 + basis(2, 0) * c2 + basis(3, 0) * c3 + basis(4, 0) * c4 + basis(5, 0) * c5 + basis(6, 0) * c6 + basis(7, 0) * c7;
            let slack = 1200000 * (size(c0) + size(c1) + size(c2) + size(c3) + size(c4) + size(c5) + size(c6) + size(c7));
            -slack <= 1000000 * idct_raw(0, c0, c1, c2, c3, c4, c5, c6, c7) - 8192 * exact <= slack
        }),
{
    lemma_basis_values(0);
    lemma_basis_values(1);
    lemma_basis_values(2);
    lemma_basis_values(3);
    lemma_basis_values(4);
    lemma_basis_values(5);
    lemma_basis_values(6);
    lemma_basis_values(7);
    let exact = 1000000 * c0 + 1387040 * c1 + 1306563 * c2 + 1175876 * c3 + 1000000 * c4 + 785695 * c5 + 541196 * c6 + 275899 * c7;
    assert(basis(0, 0) * c0 + basis(1, 0) * c1 + basis(2, 0) * c2 + basis(3, 0) * c3 + basis(4, 0) * c4 + basis(5, 0) * c5 + basis(6, 0) * c6 + basis(7, 0) * c7 == exact) by {
        assert(basis(0, 0) * c0 == 1000000 * c0);
        assert(basis(1, 0) * c1 == 1387040 * c1);
        assert(basis(2, 0) * c2 == 1306563 * c2);
        assert(basis(3, 0) * c3 == 1175876 * c3);
        assert(basis(4, 0) * c4 == 1000000 * c4);
        assert(basis(5, 0) * c5 == 785695 * c5);
        assert(basis(6, 0) * c6 == 541196 * c6);
        assert(basis(7, 0) * c7 == 275899 * c7);
    }
    assert(1000000 * idct_raw(0, c0, c1, c2, c3, c4, c5, c6, c7) - 8192 * exact == 0 * c0 + 368320 * c1 + (-364096) * c2 + 223808 * c3 + 0 * c4 + 586560 * c5 + (-477632) * c6 + (-164608) * c7) by {
        reveal(idct_raw);
    }
    lemma_small_sum(1200000, 0, 368320, -364096, 223808, 0, 586560, -477632, -164608, c0, c1, c2, c3, c4, c5, c6, c7);
}

/// Sample 1.
proof fn lemma_sample_1(
    c0: int,
    c1: int,
    c2: int,
    c3: int,
    c4: int,
    c5: int,
    c6: int,
    c7: int,
)
    ensures
        ({
            let exact = basis(0, 1) * c0 + basis(1, 1) * c1 + basis(2, 1) * c2 + basis(3, 1) * c3 + basis(4, 1) * c4 + basis(5, 1) * c5 + basis(6, 1) * c6 + basis(7, 1) * c7;
            let slack = 1200000 * (size(c0) + size(c1) + size(c2) + size(c3) + size(c4) + size(c5) + size(c6) + size(c7));
            -slack <= 1000000 * idct_raw(1, c0, c1, c2, c3, c4, c5, c6, c7) - 8192 * exact <= slack
        }),
{
    lemma_basis_values(0);
    lemma_basis_values(1);
    lemma_basis_values(2);
    lemma_basis_values(3);
    lemma_basis_values(4);
    lemma_basis_values(5);
    lemma_basis_values(6);
    lemma_basis_values(7);
    let exact = 1000000 * c0 + 1175876 * c1 + 541196 * c2 + (-275899) * c3 + (-1000000) * c4 + (-1387040) * c5 + (-1306563) * c6 + (-785695) * c7;
    assert(basis(0, 1) * c0 + basis(1, 1) * c1 + basis(2, 1) * c2 + basis(3, 1) * c3 + basis(4, 1) * c4 + basis(5, 1) * c5 + basis(6, 1) * c6 + basis(7, 1) * c7 == exact) by {
        assert(basis(0, 1) * c0 == 1000000 * c0);
        assert(basis(1, 1) * c1 == 1175876 * c1);
        assert(basis(2, 1) * c2 == 541196 * c2);
        assert(basis(3, 1) * c3 == (-275899) * c3);
        assert(basis(4, 1) * c4 == (-1000000) * c4);
        assert(basis(5, 1) * c5 == (-1387040) * c5);
        assert(basis(6, 1) * c6 == (-1306563) * c6);
        assert(basis(7, 1) * c7 == (-785695) * c7);
    }
    assert(1000000 * idct_raw(1, c0, c1, c2, c3, c4, c5, c6, c7) - 8192 * exact == 0 * c0 + 223808 * c1 + (-477632) * c2 + 1164608 * c3 + 0 * c4 + 631680 * c5 + (-635904) * c6 + 413440 * c7) by {
        reveal(idct_raw);
    }
    lemma_small_sum(1200000, 0, 223808, -477632, 1164608, 0, 631680, -635904, 413440, c0, c1, c2, c3, c4, c5, c6, c7);
}

/// Sample 2.
proof fn lemma_sample_2(
    c0: int,
    c1: int,
    c2: int,
    c3: int,
    c4: int,
    c5: int,
    c6: int,
    c7: int,
)
    ensures
        ({
            let exact = basis(0, 2) * c0 + basis(1, 2) * c1 + basis(2, 2) * c2 + basis(3, 2) * c3 + basis(4, 2) * c4 + basis(5, 2) * c5 + basis(6, 2) * c6 + basis(7, 2) * c7;
            let slack = 1200000 * (size(c0) + size(c1) + size(c2) + size(c3) + size(c4) + size(c5) + size(c6) + size(c7));
            -slack <= 1000000 * idct_raw(2, c0, c1, c2, c3, c4, c5, c6, c7) - 8192 * exact <= slack
        }),
{
    lemma_basis_values(0);
    lemma_basis_values(1);
    lemma_basis_values(2);
    lemma_basis_values(3);
    lemma_basis_values(4);
    lemma_basis_values(5);
    lemma_basis_values(6);
    lemma_basis_values(7);
    let exact = 1000000 * c0 + 785695 * c1 + (-541196) * c2 + (-1387040) * c3 + (-1000000) * c4 + 275899 * c5 + 1306563 * c6 + 1175876 * c7;
    assert(basis(0, 2) * c0 + basis(1, 2) * c1 + basis(2, 2) * c2 + basis(3, 2) * c3 + basis(4, 2) * c4 + basis(5, 2) * c5 + basis(6, 2) * c6 + basis(7, 2) * c7 == exact) by {
        assert(basis(0, 2) * c0 == 1000000 * c0);
        assert(basis(1, 2) * c1 == 785695 * c1);
        assert(basis(2, 2) * c2 == (-541196) * c2);
        assert(basis(3, 2) * c3 == (-1387040) * c3);
        assert(basis(4, 2) * c4 == (-1000000) * c4);
        assert(basis(5, 2) * c5 == 275899 * c5);
        assert(basis(6, 2) * c6 == 1306563 * c6);
        assert(basis(7, 2) * c7 == 1175876 * c7);
    }
    assert(1000000 * idct_raw(2, c0, c1, c2, c3, c4, c5, c6, c7) - 8192 * exact == 0 * c0 + 586560 * c1 + 477632 * c2 + 631680 * c3 + 0 * c4 + 835392 * c5 + 635904 * c6 + 223808 * c7) by {
        reveal(idct_raw);
    }
    lemma_small_sum(1200000, 0, 586560, 477632, 631680, 0, 835392, 635904, 223808, c0, c1, c2, c3, c4, c5, c6, c7);
}

/// Sample 3.
proof fn lemma_sample_3(
    c0: int,
    c1: int,
    c2: int,
    c3: int,
    c4: int,
    c5: int,
    c6: int,
    c7: int,
)
    ensures
        ({
            let exact = basis(0, 3) * c0 + basis(1, 3) * c1 + basis(2, 3) * c2 + basis(3, 3) * c3 + basis(4, 3) * c4 + basis(5, 3) * c5 + basis(6, 3) * c6 + basis(7, 3) * c7;
            let slack = 1200000 * (size(c0) + size(c1) + size(c2) + size(c3) + size(c4) + size(c5) + size(c6) + size(c7));
            -slack <= 1000000 * idct_raw(3, c0, c1, c2, c3, c4, c5, c6, c7) - 8192 * exact <= slack
        }),
{
    lemma_basis_values(0);
    lemma_basis_values(1);
    lemma_basis_values(2);
    lemma_basis_values(3);
    lemma_basis_values(4);
    lemma_basis_values(5);
    lemma_basis_values(6);
    lemma_basis_values(7);
    let exact = 1000000 * c0 + 275899 * c1 + (-1306563) * c2 + (-785695) * c3 + 1000000 * c4 + 1175876 * c5 + (-541196) * c6 + (-1387040) * c7;
    assert(basis(0, 3) * c0 + basis(1, 3) * c1 + basis(2, 3) * c2 + basis(3, 3) * c3 + basis(4, 3) * c4 + basis(5, 3) * c5 + basis(6, 3) * c6 + basis(7, 3) * c7 == exact) by {
        assert(basis(0, 3) * c0 == 1000000 * c0);
        assert(basis(1, 3) * c1 == 275899 * c1);
        assert(basis(2, 3) * c2 == (-1306563) * c2);
        assert(basis(3, 3) * c3 == (-785695) * c3);
        assert(basis(4, 3) * c4 == 1000000 * c4);
        assert(basis(5, 3) * c5 == 1175876 * c5);
        assert(basis(6, 3) * c6 == (-541196) * c6);
        assert(basis(7, 3) * c7 == (-1387040) * c7);
    }
    assert(1000000 * idct_raw(3, c0, c1, c2, c3, c4, c5, c6, c7) - 8192 * exact == 0 * c0 + (-164608) * c1 + 364096 * c2 + 413440 * c3 + 0 * c4 + 223808 * c5 + 477632 * c6 + (-368320) * c7) by {
        reveal(idct_raw);
    }
    lemma_small_sum(1200000, 0, -164608, 364096, 413440, 0, 223808, 477632, -368320, c0, c1, c2, c3, c4, c5, c6, c7);
}

/// Sample 4.
proof fn lemma_sample_4(
    c0: int,
    c1: int,
    c2: int,
    c3: int,
    c4: int,
    c5: int,
    c6: int,
    c7: int,
)
    ensures
        ({
            let exact = basis(0, 4) * c0 + basis(1, 4) * c1 + basis(2, 4) * c2 + basis(3, 4) * c3 + basis(4, 4) * c4 + basis(5, 4) * c5 + basis(6, 4) * c6 + basis(7, 4) * c7;
            let slack = 1200000 * (size(c0) + size(c1) + size(c2) + size(c3) + size(c4) + size(c5) + size(c6) + size(c7));
            -slack <= 1000000 * idct_raw(4, c0, c1, c2, c3, c4, c5, c6, c7) - 8192 * exact <= slack
        }),
{
    lemma_basis_values(0);
    lemma_basis_values(1);
    lemma_basis_values(2);
    lemma_basis_values(3);
    lemma_basis_values(4);
    lemma_basis_values(5);
    lemma_basis_values(6);
    lemma_basis_values(7);
    let exact = 1000000 * c0 + (-275899) * c1 + (-1306563) * c2 + 785695 * c3 + 1000000 * c4 + (-1175876) * c5 + (-541196) * c6 + 1387040 * c7;
    assert(basis(0, 4) * c0 + basis(1, 4) * c1 + basis(2, 4) * c2 + basis(3, 4) * c3 + basis(4, 4) * c4 + basis(5, 4) * c5 + basis(6, 4) * c6 + basis(7, 4) * c7 == exact) by {
        assert(basis(0, 4) * c0 == 1000000 * c0);
        assert(basis(1, 4) * c1 == (-275899) * c1);
        assert(basis(2, 4) * c2 == (-1306563) * c2);
        assert(basis(3, 4) * c3 == 785695 * c3);
        assert(basis(4, 4) * c4 == 1000000 * c4);
        assert(basis(5, 4) * c5 == (-1175876) * c5);
        assert(basis(6, 4) * c6 == (-541196) * c6);
        assert(basis(7, 4) * c7 == 1387040 * c7);
    }
    assert(1000000 * idct_raw(4, c0, c1, c2, c3, c4, c5, c6, c7) - 8192 * exact == 0 * c0 + 164608 * c1 + 364096 * c2 + (-413440) * c3 + 0 * c4 + (-223808) * c5 + 477632 * c6 + 368320 * c7) by {
        reveal(idct_raw);
    }
    lemma_small_sum(1200000, 0, 164608, 364096, -413440, 0, -223808, 477632, 368320, c0, c1, c2, c3, c4, c5, c6, c7);
}

/// Sample 5.
proof fn lemma_sample_5(
    c0: int,
    c1: int,
    c2: int,
    c3: int,
    c4: int,
    c5: int,
    c6: int,
    c7: int,
)
    ensures
        ({
            let exact = basis(0, 5) * c0 + basis(1, 5) * c1 + basis(2, 5) * c2 + basis(3, 5) * c3 + basis(4, 5) * c4 + basis(5, 5) * c5 + basis(6, 5) * c6 + basis(7, 5) * c7;
            let slack = 1200000 * (size(c0) + size(c1) + size(c2) + size(c3) + size(c4) + size(c5) + size(c6) + size(c7));
            -slack <= 1000000 * idct_raw(5, c0, c1, c2, c3, c4, c5, c6, c7) - 8192 * exact <= slack
        }),
{
    lemma_basis_values(0);
    lemma_basis_values(1);
    lemma_basis_values(2);
    lemma_basis_values(3);
    lemma_basis_values(4);
    lemma_basis_values(5);
    lemma_basis_values(6);
    lemma_basis_values(7);
    let exact = 1000000 * c0 + (-785695) * c1 + (-541196) * c2 + 1387040 * c3 + (-1000000) * c4 + (-275899) * c5 + 1306563 * c6 + (-1175876) * c7;
    assert(basis(0, 5) * c0 + basis(1, 5) * c1 + basis(2, 5) * c2 + basis(3, 5) * c3 + basis(4, 5) * c4 + basis(5, 5) * c5 + basis(6, 5) * c6 + basis(7, 5) * c7 == exact) by {
        assert(basis(0, 5) * c0 == 1000000 * c0);
        assert(basis(1, 5) * c1 == (-785695) * c1);
        assert(basis(2, 5) * c2 == (-541196) * c2);
        assert(basis(3, 5) * c3 == 1387040 * c3);
        assert(basis(4, 5) * c4 == (-1000000) * c4);
        assert(basis(5, 5) * c5 == (-275899) * c5);
        assert(basis(6, 5) * c6 == 1306563 * c6);
        assert(basis(7, 5) * c7 == (-1175876) * c7);
    }
    assert(1000000 * idct_raw(5, c0, c1, c2, c3, c4, c5, c6, c7) - 8192 * exact == 0 * c0 + (-586560) * c1 + 477632 * c2 + (-631680) * c3 + 0 * c4 + (-835392) * c5 + 635904 * c6 + (-223808) * c7) by {
        reveal(idct_raw);
    }
    lemma_small_sum(1200000, 0, -586560, 477632, -631680, 0, -835392, 635904, -223808, c0, c1, c2, c3, c4, c5, c6, c7);
}

/// Sample 6.
proof fn lemma_sample_6(
    c0: int,
    c1: int,
    c2: int,
    c3: int,
    c4: int,
    c5: int,
    c6: int,
    c7: int,
)
    ensures
        ({
            let exact = basis(0, 6) * c0 + basis(1, 6) * c1 + basis(2, 6) * c2 + basis(3, 6) * c3 + basis(4, 6) * c4 + basis(5, 6) * c5 + basis(6, 6) * c6 + basis(7, 6) * c7;
            let slack = 1200000 * (size(c0) + size(c1) + size(c2) + size(c3) + size(c4) + size(c5) + size(c6) + size(c7));
            -slack <= 1000000 * idct_raw(6, c0, c1, c2, c3, c4, c5, c6, c7) - 8192 * exact <= slack
        }),
{
    lemma_basis_values(0);
    lemma_basis_values(1);
    lemma_basis_values(2);
    lemma_basis_values(3);
    lemma_basis_values(4);
    lemma_basis_values(5);
    lemma_basis_values(6);
    lemma_basis_values(7);
    let exact = 1000000 * c0 + (-1175876) * c1 + 541196 * c2 + 275899 * c3 + (-1000000) * c4 + 1387040 * c5 + (-1306563) * c6 + 785695 * c7;
    assert(basis(0, 6) * c0 + basis(1, 6) * c1 + basis(2, 6) * c2 + basis(3, 6) * c3 + basis(4, 6) * c4 + basis(5, 6) * c5 + basis(6, 6) * c6 + basis(7, 6) * c7 == exact) by {
        assert(basis(0, 6) * c0 == 1000000 * c0);
        assert(basis(1, 6) * c1 == (-1175876) * c1);
        assert(basis(2, 6) * c2 == 541196 * c2);
        assert(basis(3, 6) * c3 == 275899 * c3);
        assert(basis(4, 6) * c4 == (-1000000) * c4);
        assert(basis(5, 6) * c5 == 1387040 * c5);
        assert(basis(6, 6) * c6 == (-1306563) * c6);
        assert(basis(7, 6) * c7 == 785695 * c7);
    }
    assert(1000000 * idct_raw(6, c0, c1, c2, c3, c4, c5, c6, c7) - 8192 * exact == 0 * c0 + (-223808) * c1 + (-477632) * c2 + (-1164608) * c3 + 0 * c4 + (-631680) * c5 + (-635904) * c6 + (-413440) * c7) by {
        reveal(idct_raw);
    }
    lemma_small_sum(1200000, 0, -223808, -477632, -1164608, 0, -631680, -635904, -413440, c0, c1, c2, c3, c4, c5, c6, c7);
}

/// Sample 7.
proof fn lemma_sample_7(
    c0: int,
    c1: int,
    c2: int,
    c3: int,
    c4: int,
    c5: int,
    c6: int,
    c7: int,
)
    ensures
        ({
            let exact = basis(0, 7) * c0 + basis(1, 7) * c1 + basis(2, 7) * c2 + basis(3, 7) * c3 + basis(4, 7) * c4 + basis(5, 7) * c5 + basis(6, 7) * c6 + basis(7, 7) * c7;
            let slack = 1200000 * (size(c0) + size(c1) + size(c2) + size(c3) + size(c4) + size(c5) + size(c6) + size(c7));
            -slack <= 1000000 * idct_raw(7, c0, c1, c2, c3, c4, c5, c6, c7) - 8192 * exact <= slack
        }),
{
    lemma_basis_values(0);
    lemma_basis_values(1);
    lemma_basis_values(2);
    lemma_basis_values(3);
    lemma_basis_values(4);
    lemma_basis_values(5);
    lemma_basis_values(6);
    lemma_basis_values(7);
    let exact = 1000000 * c0 + (-1387040) * c1 + 1306563 * c2 + (-1175876) * c3 + 1000000 * c4 + (-785695) * c5 + 541196 * c6 + (-275899) * c7;
    assert(basis(0, 7) * c0 + basis(1, 7) * c1 + basis(2, 7) * c2 + basis(3, 7) * c3 + basis(4, 7) * c4 + basis(5, 7) * c5 + basis(6, 7) * c6 + basis(7, 7) * c7 == exact) by {
        assert(basis(0, 7) * c0 == 1000000 * c0);
        assert(basis(1, 7) * c1 == (-1387040) * c1);
        assert(basis(2, 7) * c2 == 1306563 * c2);
        assert(basis(3, 7) * c3 == (-1175876) * c3);
        assert(basis(4, 7) * c4 == 1000000 * c4);
        assert(basis(5, 7) * c5 == (-785695) * c5);
        assert(basis(6, 7) * c6 == 541196 * c6);
        assert(basis(7, 7) * c7 == (-275899) * c7);
    }
    assert(1000000 * idct_raw(7, c0, c1, c2, c3, c4, c5, c6, c7) - 8192 * exact == 0 * c0 + (-368320) * c1 + (-364096) * c2 + (-223808) * c3 + 0 * c4 + (-586560) * c5 + (-477632) * c6 + 164608 * c7) by {
        reveal(idct_raw);
    }
    lemma_small_sum(1200000, 0, -368320, -364096, -223808, 0, -586560, -477632, 164608, c0, c1, c2, c3, c4, c5, c6, c7);
}

/// Sample `x` of eight.
pub open spec fn sample_of(
    x: int,
    d0: int,
    d1: int,
    d2: int,
    d3: int,
    d4: int,
    d5: int,
    d6: int,
    d7: int,
) -> int {
    if x == 0 {
        d0
    } else if x == 1 {
        d1
    } else if x == 2 {
        d2
    } else if x == 3 {
        d3
    } else if x == 4 {
        d4
    } else if x == 5 {
        d5
    } else if x == 6 {
        d6
    } else {
        d7
    }
}

/// The inverse transform undoes the forward one, up to their scales: of
/// eight samples that go through both, each comes back `8 * 2^26` times as
/// large, with an error that is below six hundred-thousandths of the samples.
pub proof fn law_idct_undoes_fdct(
    x: int,
    d0: int,
    d1: int,
    d2: int,
    d3: int,
    d4: int,
    d5: int,
    d6: int,
    d7: int,
)
    requires
        0 <= x < 8,
    ensures
        ({
            let back = idct_raw(
                x,
                fdct_raw(0, d0, d1, d2, d3, d4, d5, d6, d7),
                fdct_raw(1, d0, d1, d2, d3, d4, d5, d6, d7),
                fdct_raw(2, d0, d1, d2, d3, d4, d5, d6, d7),
                fdct_raw(3, d0, d1, d2, d3, d4, d5, d6, d7),
                fdct_raw(4, d0, d1, d2, d3, d4, d5, d6, d7),
                fdct_raw(5, d0, d1, d2, d3, d4, d5, d6, d7),
                fdct_raw(6, d0, d1, d2, d3, d4, d5, d6, d7),
                fdct_raw(7, d0, d1, d2, d3, d4, d5, d6, d7),
            );
            let slack = 32000 * (size(d0) + size(d1) + size(d2) + size(d3) + size(d4) + size(d5) + size(d6) + size(d7));
            -slack <= back - 536870912 * sample_of(x, d0, d1, d2, d3, d4, d5, d6, d7) <= slack
        }),
{
    if x == 0 {
        lemma_comes_back_0(d0, d1, d2, d3, d4, d5, d6, d7);
    } else if x == 1 {
        lemma_comes_back_1(d0, d1, d2, d3, d4, d5, d6, d7);
    } else if x == 2 {
        lemma_comes_back_2(d0, d1, d2, d3, d4, d5, d6, d7);
    } else if x == 3 {
        lemma_comes_back_3(d0, d1, d2, d3, d4, d5, d6, d7);
    } else if x == 4 {
        lemma_comes_back_4(d0, d1, d2, d3, d4, d5, d6, d7);
    } else if x == 5 {
        lemma_comes_back_5(d0, d1, d2, d3, d4, d5, d6, d7);
    } else if x == 6 {
        lemma_comes_back_6(d0, d1, d2, d3, d4, d5, d6, d7);
    } else if x == 7 {
        lemma_comes_back_7(d0, d1, d2, d3, d4, d5, d6, d7);
    }
}

/// Sample 0 comes back.
proof fn lemma_comes_back_0(
    d0: int,
    d1: int,
    d2: int,
    d3: int,
    d4: int,
    d5: int,
    d6: int,
    d7: int,
)
    ensures
        ({
            let back = idct_raw(
                0,
                fdct_raw(0, d0, d1, d2, d3, d4, d5, d6, d7),
                fdct_raw(1, d0, d1, d2, d3, d4, d5, d6, d7),
                fdct_raw(2, d0, d1, d2, d3, d4, d5, d6, d7),
                fdct_raw(3, d0, d1, d2, d3, d4, d5, d6, d7),
                fdct_raw(4, d0, d1, d2, d3, d4, d5, d6, d7),
                fdct_raw(5, d0, d1, d2, d3, d4, d5, d6, d7),
                fdct_raw(6, d0, d1, d2, d3, d4, d5, d6, d7),
                fdct_raw(7, d0, d1, d2, d3, d4, d5, d6, d7),
            );
            let slack = 32000 * (size(d0) + size(d1) + size(d2) + size(d3) + size(d4) + size(d5) + size(d6) + size(d7));
            -slack <= back - 536870912 * d0 <= slack
        }),
{
    let back = idct_raw(
        0,
        fdct_raw(0, d0, d1, d2, d3, d4, d5, d6, d7),
        fdct_raw(1, d0, d1, d2, d3, d4, d5, d6, d7),
        fdct_raw(2, d0, d1, d2, d3, d4, d5, d6, d7),
        fdct_raw(3, d0, d1, d2, d3, d4, d5, d6, d7),
        fdct_raw(4, d0, d1, d2, d3, d4, d5, d6, d7),
        fdct_raw(5, d0, d1, d2, d3, d4, d5, d6, d7),
        fdct_raw(6, d0, d1, d2, d3, d4, d5, d6, d7),
        fdct_raw(7, d0, d1, d2, d3, d4, d5, d6, d7),
    );
    assert(back - 536870912 * d0 == 7541 * d0 + 11845 * d1 + 22555 * d2 + 21663 * d3 + 2397 * d4 + (-13689) * d5 + (-20711) * d6 + (-31601) * d7) by {
        reveal(idct_raw);
        reveal(fdct_raw);
    }
    lemma_small_sum(32000, 7541, 11845, 22555, 21663, 2397, -13689, -20711, -31601, d0, d1, d2, d3, d4, d5, d6, d7);
}

/// Sample 1 comes back.
proof fn lemma_comes_back_1(
    d0: int,
    d1: int,
    d2: int,
    d3: int,
    d4: int,
    d5: int,
    d6: int,
    d7: int,
)
    ensures
        ({
            let back = idct_raw(
                1,
                fdct_raw(0, d0, d1, d2, d3, d4, d5, d6, d7),
                fdct_raw(1, d0, d1, d2, d3, d4, d5, d6, d7),
                fdct_raw(2, d0, d1, d2, d3, d4, d5, d6, d7),
                fdct_raw(3, d0, d1, d2, d3, d4, d5, d6, d7),
                fdct_raw(4, d0, d1, d2, d3, d4, d5, d6, d7),
                fdct_raw(5, d0, d1, d2, d3, d4, d5, d6, d7),
                fdct_raw(6, d0, d1, d2, d3, d4, d5, d6, d7),
                fdct_raw(7, d0, d1, d2, d3, d4, d5, d6, d7),
            );
            let slack = 32000 * (size(d0) + size(d1) + size(d2) + size(d3) + size(d4) + size(d5) + size(d6) + size(d7));
            -slack <= back - 536870912 * d1 <= slack
        }),
{
    let back = idct_raw(
        1,
        fdct_raw(0, d0, d1, d2, d3, d4, d5, d6, d7),
        fdct_raw(1, d0, d1, d2, d3, d4, d5, d6, d7),
        fdct_raw(2, d0, d1, d2, d3, d4, d5, d6, d7),
        fdct_raw(3, d0, d1, d2, d3, d4, d5, d6, d7),
        fdct_raw(4, d0, d1, d2, d3, d4, d5, d6, d7),
        fdct_raw(5, d0, d1, d2, d3, d4, d5, d6, d7),
        fdct_raw(6, d0, d1, d2, d3, d4, d5, d6, d7),
        fdct_raw(7, d0, d1, d2, d3, d4, d5, d6, d7),
    );
    assert(back - 536870912 * d1 == 11845 * d0 + (-11169) * d1 + (-22468) * d2 + (-3941) * d3 + 12807 * d4 + 3714 * d5 + 29923 * d6 + (-20711) * d7) by {
        reveal(idct_raw);
        reveal(fdct_raw);
    }
    lemma_small_sum(32000, 11845, -11169, -22468, -3941, 12807, 3714, 29923, -20711, d0, d1, d2, d3, d4, d5, d6, d7);
}

/// Sample 2 comes back.
proof fn lemma_comes_back_2(
    d0: int,
    d1: int,
    d2: int,
    d3: int,
    d4: int,
    d5: int,
    d6: int,
    d7: int,
)
    ensures
        ({
            let back = idct_raw(
                2,
                fdct_raw(0, d0, d1, d2, d3, d4, d5, d6, d7),
                fdct_raw(1, d0, d1, d2, d3, d4, d5, d6, d7),
                fdct_raw(2, d0, d1, d2, d3, d4, d5, d6, d7),
                fdct_raw(3, d0, d1, d2, d3, d4, d5, d6, d7),
                fdct_raw(4, d0, d1, d2, d3, d4, d5, d6, d7),
                fdct_raw(5, d0, d1, d2, d3, d4, d5, d6, d7),
                fdct_raw(6, d0, d1, d2, d3, d4, d5, d6, d7),
                fdct_raw(7, d0, d1, d2, d3, d4, d5, d6, d7),
            );
            let slack = 32000 * (size(d0) + size(d1) + size(d2) + size(d3) + size(d4) + size(d5) + size(d6) + size(d7));
            -slack <= back - 536870912 * d2 <= slack
        }),
{
    let back = idct_raw(
        2,
        fdct_raw(0, d0, d1, d2, d3, d4, d5, d6, d7),
        fdct_raw(1, d0, d1, d2, d3, d4, d5, d6, d7),
        fdct_raw(2, d0, d1, d2, d3, d4, d5, d6, d7),
        fdct_raw(3, d0, d1, d2, d3, d4, d5, d6, d7),
        fdct_raw(4, d0, d1, d2, d3, d4, d5, d6, d7),
        fdct_raw(5, d0, d1, d2, d3, d4, d5, d6, d7),
        fdct_raw(6, d0, d1, d2, d3, d4, d5, d6, d7),
        fdct_raw(7, d0, d1, d2, d3, d4, d5, d6, d7),
    );
    assert(back - 536870912 * d2 == 22555 * d0 + (-22468) * d1 + 10744 * d2 + (-10547) * d3 + 1681 * d4 + 8010 * d5 + 3714 * d6 + (-13689) * d7) by {
        reveal(idct_raw);
        reveal(fdct_raw);
    }
    lemma_small_sum(32000, 22555, -22468, 10744, -10547, 1681, 8010, 3714, -13689, d0, d1, d2, d3, d4, d5, d6, d7);
}

/// Sample 3 comes back.
proof fn lemma_comes_back_3(
    d0: int,
    d1: int,
    d2: int,
    d3: int,
    d4: int,
    d5: int,
    d6: int,
    d7: int,
)
    ensures
        ({
            let back = idct_raw(
                3,
                fdct_raw(0, d0, d1, d2, d3, d4, d5, d6, d7),
                fdct_raw(1, d0, d1, d2, d3, d4, d5, d6, d7),
                fdct_raw(2, d0, d1, d2, d3, d4, d5, d6, d7),
                fdct_raw(3, d0, d1, d2, d3, d4, d5, d6, d7),
                fdct_raw(4, d0, d1, d2, d3, d4, d5, d6, d7),
                fdct_raw(5, d0, d1, d2, d3, d4, d5, d6, d7),
                fdct_raw(6, d0, d1, d2, d3, d4, d5, d6, d7),
                fdct_raw(7, d0, d1, d2, d3, d4, d5, d6, d7),
            );
            let slack = 32000 * (size(d0) + size(d1) + size(d2) + size(d3) + size(d4) + size(d5) + size(d6) + size(d7));
            -slack <= back - 536870912 * d3 <= slack
        }),
{
    let back = idct_raw(
        3,
        fdct_raw(0, d0, d1, d2, d3, d4, d5, d6, d7),
        fdct_raw(1, d0, d1, d2, d3, d4, d5, d6, d7),
        fdct_raw(2, d0, d1, d2, d3, d4, d5, d6, d7),
        fdct_raw(3, d0, d1, d2, d3, d4, d5, d6, d7),
        fdct_raw(4, d0, d1, d2, d3, d4, d5, d6, d7),
        fdct_raw(5, d0, d1, d2, d3, d4, d5, d6, d7),
        fdct_raw(6, d0, d1, d2, d3, d4, d5, d6, d7),
        fdct_raw(7, d0, d1, d2, d3, d4, d5, d6, d7),
    );
    assert(back - 536870912 * d3 == 21663 * d0 + (-3941) * d1 + (-10547) * d2 + (-5332) * d3 + (-18728) * d4 + 1681 * d5 + 12807 * d6 + 2397 * d7) by {
        reveal(idct_raw);
        reveal(fdct_raw);
    }
    lemma_small_sum(32000, 21663, -3941, -10547, -5332, -18728, 1681, 12807, 2397, d0, d1, d2, d3, d4, d5, d6, d7);
}

/// Sample 4 comes back.
proof fn lemma_comes_back_4(
    d0: int,
    d1: int,
    d2: int,
    d3: int,
    d4: int,
    d5: int,
    d6: int,
    d7: int,
)
    ensures
        ({
            let back = idct_raw(
                4,
                fdct_raw(0, d0, d1, d2, d3, d4, d5, d6, d7),
                fdct_raw(1, d0, d1, d2, d3, d4, d5, d6, d7),
                fdct_raw(2, d0, d1, d2, d3, d4, d5, d6, d7),
                fdct_raw(3, d0, d1, d2, d3, d4, d5, d6, d7),
                fdct_raw(4, d0, d1, d2, d3, d4, d5, d6, d7),
                fdct_raw(5, d0, d1, d2, d3, d4, d5, d6, d7),
                fdct_raw(6, d0, d1, d2, d3, d4, d5, d6, d7),
                fdct_raw(7, d0, d1, d2, d3, d4, d5, d6, d7),
            );
            let slack = 32000 * (size(d0) + size(d1) + size(d2) + size(d3) + size(d4) + size(d5) + size(d6) + size(d7));
            -slack <= back - 536870912 * d4 <= slack
        }),
{
    let back = idct_raw(
        4,
        fdct_raw(0, d0, d1, d2, d3, d4, d5, d6, d7),
        fdct_raw(1, d0, d1, d2, d3, d4, d5, d6, d7),
        fdct_raw(2, d0, d1, d2, d3, d4, d5, d6, d7),
        fdct_raw(3, d0, d1, d2, d3, d4, d5, d6, d7),
        fdct_raw(4, d0, d1, d2, d3, d4, d5, d6, d7),
        fdct_raw(5, d0, d1, d2, d3, d4, d5, d6, d7),
        fdct_raw(6, d0, d1, d2, d3, d4, d5, d6, d7),
        fdct_raw(7, d0, d1, d2, d3, d4, d5, d6, d7),
    );
    assert(back - 536870912 * d4 == 2397 * d0 + 12807 * d1 + 1681 * d2 + (-18728) * d3 + (-5332) * d4 + (-10547) * d5 + (-3941) * d6 + 21663 * d7) by {
        reveal(idct_raw);
        reveal(fdct_raw);
    }
    lemma_small_sum(32000, 2397, 12807, 1681, -18728, -5332, -10547, -3941, 21663, d0, d1, d2, d3, d4, d5, d6, d7);
}

/// Sample 5 comes back.
proof fn lemma_comes_back_5(
    d0: int,
    d1: int,
    d2: int,
    d3: int,
    d4: int,
    d5: int,
    d6: int,
    d7: int,
)
    ensures
        ({
            let back = idct_raw(
                5,
                fdct_raw(0, d0, d1, d2, d3, d4, d5, d6, d7),
                fdct_raw(1, d0, d1, d2, d3, d4, d5, d6, d7),
                fdct_raw(2, d0, d1, d2, d3, d4, d5, d6, d7),
                fdct_raw(3, d0, d1, d2, d3, d4, d5, d6, d7),
                fdct_raw(4, d0, d1, d2, d3, d4, d5, d6, d7),
                fdct_raw(5, d0, d1, d2, d3, d4, d5, d6, d7),
                fdct_raw(6, d0, d1, d2, d3, d4, d5, d6, d7),
                fdct_raw(7, d0, d1, d2, d3, d4, d5, d6, d7),
            );
            let slack = 32000 * (size(d0) + size(d1) + size(d2) + size(d3) + size(d4) + size(d5) + size(d6) + size(d7));
            -slack <= back - 536870912 * d5 <= slack
        }),
{
    let back = idct_raw(
        5,
        fdct_raw(0, d0, d1, d2, d3, d4, d5, d6, d7),
        fdct_raw(1, d0, d1, d2, d3, d4, d5, d6, d7),
        fdct_raw(2, d0, d1, d2, d3, d4, d5, d6, d7),
        fdct_raw(3, d0, d1, d2, d3, d4, d5, d6, d7),
        fdct_raw(4, d0, d1, d2, d3, d4, d5, d6, d7),
        fdct_raw(5, d0, d1, d2, d3, d4, d5, d6, d7),
        fdct_raw(6, d0, d1, d2, d3, d4, d5, d6, d7),
        fdct_raw(7, d0, d1, d2, d3, d4, d5, d6, d7),
    );
    assert(back - 536870912 * d5 == (-13689) * d0 + 3714 * d1 + 8010 * d2 + 1681 * d3 + (-10547) * d4 + 10744 * d5 + (-22468) * d6 + 22555 * d7) by {
        reveal(idct_raw);
        reveal(fdct_raw);
    }
    lemma_small_sum(32000, -13689, 3714, 8010, 1681, -10547, 10744, -22468, 22555, d0, d1, d2, d3, d4, d5, d6, d7);
}

/// Sample 6 comes back.
proof fn lemma_comes_back_6(
    d0: int,
    d1: int,
    d2: int,
    d3: int,
    d4: int,
    d5: int,
    d6: int,
    d7: int,
)
    ensures
        ({
            let back = idct_raw(
                6,
                fdct_raw(0, d0, d1, d2, d3, d4, d5, d6, d7),
                fdct_raw(1, d0, d1, d2, d3, d4, d5, d6, d7),
                fdct_raw(2, d0, d1, d2, d3, d4, d5, d6, d7),
                fdct_raw(3, d0, d1, d2, d3, d4, d5, d6, d7),
                fdct_raw(4, d0, d1, d2, d3, d4, d5, d6, d7),
                fdct_raw(5, d0, d1, d2, d3, d4, d5, d6, d7),
                fdct_raw(6, d0, d1, d2, d3, d4, d5, d6, d7),
                fdct_raw(7, d0, d1, d2, d3, d4, d5, d6, d7),
            );
            let slack = 32000 * (size(d0) + size(d1) + size(d2) + size(d3) + size(d4) + size(d5) + size(d6) + size(d7));
            -slack <= back - 536870912 * d6 <= slack
        }),
{
    let back = idct_raw(
        6,
        fdct_raw(0, d0, d1, d2, d3, d4, d5, d6, d7),
        fdct_raw(1, d0, d1, d2, d3, d4, d5, d6, d7),
        fdct_raw(2, d0, d1, d2, d3, d4, d5, d6, d7),
        fdct_raw(3, d0, d1, d2, d3, d4, d5, d6, d7),
        fdct_raw(4, d0, d1, d2, d3, d4, d5, d6, d7),
        fdct_raw(5, d0, d1, d2, d3, d4, d5, d6, d7),
        fdct_raw(6, d0, d1, d2, d3, d4, d5, d6, d7),
        fdct_raw(7, d0, d1, d2, d3, d4, d5, d6, d7),
    );
    assert(back - 536870912 * d6 == (-20711) * d0 + 29923 * d1 + 3714 * d2 + 12807 * d3 + (-3941) * d4 + (-22468) * d5 + (-11169) * d6 + 11845 * d7) by {
        reveal(idct_raw);
        reveal(fdct_raw);
    }
    lemma_small_sum(32000, -20711, 29923, 3714, 12807, -3941, -22468, -11169, 11845, d0, d1, d2, d3, d4, d5, d6, d7);
}

/// Sample 7 comes back.
proof fn lemma_comes_back_7(
    d0: int,
    d1: int,
    d2: int,
    d3: int,
    d4: int,
    d5: int,
    d6: int,
    d7: int,
)
    ensures
        ({
            let back = idct_raw(
                7,
                fdct_raw(0, d0, d1, d2, d3, d4, d5, d6, d7),
                fdct_raw(1, d0, d1, d2, d3, d4, d5, d6, d7),
                fdct_raw(2, d0, d1, d2, d3, d4, d5, d6, d7),
                fdct_raw(3, d0, d1, d2, d3, d4, d5, d6, d7),
                fdct_raw(4, d0, d1, d2, d3, d4, d5, d6, d7),
                fdct_raw(5, d0, d1, d2, d3, d4, d5, d6, d7),
                fdct_raw(6, d0, d1, d2, d3, d4, d5, d6, d7),
                fdct_raw(7, d0, d1, d2, d3, d4, d5, d6, d7),
            );
            let slack = 32000 * (size(d0) + size(d1) + size(d2) + size(d3) + size(d4) + size(d5) + size(d6) + size(d7));
            -slack <= back - 536870912 * d7 <= slack
        }),
{
    let back = idct_raw(
        7,
        fdct_raw(0, d0, d1, d2, d3, d4, d5, d6, d7),
        fdct_raw(1, d0, d1, d2, d3, d4, d5, d6, d7),
        fdct_raw(2, d0, d1, d2, d3, d4, d5, d6, d7),
        fdct_raw(3, d0, d1, d2, d3, d4, d5, d6, d7),
        fdct_raw(4, d0, d1, d2, d3, d4, d5, d6, d7),
        fdct_raw(5, d0, d1, d2, d3, d4, d5, d6, d7),
        fdct_raw(6, d0, d1, d2, d3, d4, d5, d6, d7),
        fdct_raw(7, d0, d1, d2, d3, d4, d5, d6, d7),
    );
    assert(back - 536870912 * d7 == (-31601) * d0 + (-20711) * d1 + (-13689) * d2 + 2397 * d3 + 21663 * d4 + 22555 * d5 + 11845 * d6 + 7541 * d7) by {
        reveal(idct_raw);
        reveal(fdct_raw);
    }
    lemma_small_sum(32000, -31601, -20711, -13689, 2397, 21663, 22555, 11845, 7541, d0, d1, d2, d3, d4, d5, d6, d7);
}

/// Coefficients of the first row alone make all rows of the samples alike.
pub proof fn law_idct_keeps_horizontal_frequencies(f: Seq<i16>, i: int)
    requires
        f.len() == 8,
        0 <= i < 64,
    ensures
        idct_block(Seq::new(64, |j: int| if j / 8 == 0 { f[j] } else { 0i16 }))[i] == clamp_u8(
            round_div(idct_raw(i % 8, f[0] as int, f[1] as int, f[2] as int, f[3] as int, f[4] as int, f[5] as int, f[6] as int, f[7] as int), 65536) + 128,
        ),
{
    let row = Seq::new(64, |j: int| if j / 8 == 0 { f[j] } else { 0i16 });
    let ws = idct_cols(row);
    let r = i / 8;
    assert forall|c: int| 0 <= c < 8 implies #[trigger] ws[8 * r + c] == 4 * f[c] by {
        reveal(idct_raw);
        reveal(idct_col_sample);
        assert((8 * r + c) % 8 == c && (8 * r + c) / 8 == r);
    }
    assert(ws[8 * r + 0] == 4 * f[0]);
    lemma_raw_scales(i % 8, f[0] as int, f[1] as int, f[2] as int, f[3] as int, f[4] as int, f[5] as int, f[6] as int, f[7] as int);
    reveal(idct_row_sample);
}

/// Coefficients of the first column alone make all columns of the samples
/// alike.
pub proof fn law_idct_keeps_vertical_frequencies(f: Seq<i16>, i: int)
    requires
        f.len() == 8,
        0 <= i < 64,
    ensures
        idct_block(Seq::new(64, |j: int| if j % 8 == 0 { f[j / 8] } else { 0i16 }))[i] == clamp_u8(
            round_div(round_div(idct_raw(i / 8, f[0] as int, f[1] as int, f[2] as int, f[3] as int, f[4] as int, f[5] as int, f[6] as int, f[7] as int), 2048), 32) + 128,
        ),
{
    let col = Seq::new(64, |j: int| if j % 8 == 0 { f[j / 8] } else { 0i16 });
    let ws = idct_cols(col);
    let r = i / 8;
    assert forall|c: int| 0 <= c < 8 implies #[trigger] ws[8 * r + c] == if c == 0 {
        round_div(idct_raw(r, f[0] as int, f[1] as int, f[2] as int, f[3] as int, f[4] as int, f[5] as int, f[6] as int, f[7] as int), 2048)
    } else {
        0
    } by {
        lemma_single_column(f, r, c);
    }
    assert(ws[8 * r + 0] == round_div(idct_raw(r, f[0] as int, f[1] as int, f[2] as int, f[3] as int, f[4] as int, f[5] as int, f[6] as int, f[7] as int), 2048));
    reveal(idct_row_sample);
    let v = ws[8 * r];
    assert(idct_raw(i % 8, v, 0, 0, 0, 0, 0, 0, 0) == 8192 * v) by {
        reveal(idct_raw);
    }
}

/// Entry `c` of row `r` after the column pass of a block with one column.
proof fn lemma_single_column(f: Seq<i16>, r: int, c: int)
    requires
        f.len() == 8,
        0 <= r < 8,
        0 <= c < 8,
    ensures
        idct_cols(Seq::new(64, |j: int| if j % 8 == 0 { f[j / 8] } else { 0i16 }))[8 * r + c] == if c == 0 {
            round_div(idct_raw(r, f[0] as int, f[1] as int, f[2] as int, f[3] as int, f[4] as int, f[5] as int, f[6] as int, f[7] as int), 2048)
        } else {
            0
        },
{
    reveal(idct_col_sample);
    assert((8 * r + c) % 8 == c && (8 * r + c) / 8 == r);
    if c != 0 {
        reveal(idct_raw);
    }
}

/// The inverse transform of frequencies that are four times as large.
proof fn lemma_raw_scales(
    x: int,
    c0: int,
    c1: int,
    c2: int,
    c3: int,
    c4: int,
    c5: int,
    c6: int,
    c7: int,
)
    ensures
        idct_raw(x, 4 * c0, 4 * c1, 4 * c2, 4 * c3, 4 * c4, 4 * c5, 4 * c6, 4 * c7) == 4 * idct_raw(x, c0, c1, c2, c3, c4, c5, c6, c7),
{
    reveal(idct_raw);
}

} // verus!
