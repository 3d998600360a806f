//! Fixed-point arithmetic shared by the transform and color kernels:
//! wrapping and saturating narrowing, rounding shifts, and the facts
//! that tie machine shifts to floor division.

use vstd::prelude::*;

verus! {

/// `x` reduced to the range of `i16`, the way a truncating cast does it.
pub open spec fn wrap16(x: int) -> int {
    (x + 32768) % 65536 - 32768
}

/// `x` reduced to the range of `i32`, the way a truncating cast does it.
pub open spec fn wrap32(x: int) -> int {
    (x + 0x8000_0000) % 0x1_0000_0000 - 0x8000_0000
}

/// `x` limited to the range of `i16`.
pub open spec fn sat16(x: int) -> int {
    if x < -32768 {
        -32768
    } else if x > 32767 {
        32767
    } else {
        x
    }
}

/// `x` limited to the range of `u8`.
pub open spec fn clamp_u8(x: int) -> int {
    if x < 0 {
        0
    } else if x > 255 {
        255
    } else {
        x
    }
}

/// `x / unit` rounded to the nearest integer, halves towards positive
/// infinity. `unit` is an even positive number.
pub open spec fn round_div(x: int, unit: int) -> int {
    (x + unit / 2) / unit
}

/// The value fits in `i32`.
pub open spec fn fits_i32(x: int) -> bool {
    -0x8000_0000 <= x <= 0x7fff_ffff
}

/// The smaller of two integers.
pub open spec fn min_int(a: int, b: int) -> int {
    if a <= b {
        a
    } else {
        b
    }
}

/// Truncating cast from `i32` to `i16`.
pub fn trunc16(x: i32) -> (r: i16)
    ensures
        r == wrap16(x as int),
{
    assert((x as i16) == (x + 32768) % 65536 - 32768) by (bit_vector);
    x as i16
}

/// The product of two numbers, kept to 16 bits.
#[verifier::rlimit(40)]
#[verifier::spinoff_prover]
pub fn mul16(a: i16, b: i16) -> (r: i16)
    ensures
        r == wrap16(a * b),
{
    a.wrapping_mul(b)
}

/// Saturating cast from `i32` to `u8`.
pub fn clamp_to_u8(x: i32) -> (r: u8)
    ensures
        r == clamp_u8(x as int),
{
    if x < 0 {
        0
    } else if x > 255 {
        255
    } else {
        x as u8
    }
}

/// Saturating cast from `i32` to `i16`.
pub fn saturate16(x: i32) -> (r: i16)
    ensures
        r == sat16(x as int),
{
    if x < -32768 {
        -32768
    } else if x > 32767 {
        32767
    } else {
        x as i16
    }
}

/// Arithmetic right shifts of `i32` are floor divisions.
pub proof fn lemma_shr_i32(x: i32)
    ensures
        x >> 2 == x as int / 4,
        x >> 3 == x as int / 8,
        x >> 11 == x as int / 2048,
        x >> 15 == x as int / 32768,
        x >> 16 == x as int / 65536,
        x >> 18 == x as int / 262144,
{
    assert(x >> 2 == x / 4) by (bit_vector);
    assert(x >> 3 == x / 8) by (bit_vector);
    assert(x >> 11 == x / 2048) by (bit_vector);
    assert(x >> 15 == x / 32768) by (bit_vector);
    assert(x >> 16 == x / 65536) by (bit_vector);
    assert(x >> 18 == x / 262144) by (bit_vector);
}

/// Arithmetic right shift of `i64` by 18 is a floor division.
pub proof fn lemma_shr18_i64(x: i64)
    ensures
        x >> 18 == x as int / 262144,
{
    assert(x >> 18 == x / 262144) by (bit_vector);
}

/// Right shifts of `u32` are divisions.
pub proof fn lemma_shr_u32(x: u32)
    ensures
        x >> 1 == x as int / 2,
        x >> 2 == x as int / 4,
        x >> 16 == x as int / 65536,
{
    assert(x >> 1 == x / 2) by (bit_vector);
    assert(x >> 2 == x / 4) by (bit_vector);
    assert(x >> 16 == x / 65536) by (bit_vector);
}

/// A product may be reduced before or after multiplying.
pub proof fn lemma_wrap16_mul(a: int, b: int)
    ensures
        wrap16(wrap16(a) * wrap16(b)) == wrap16(a * b),
{
    let qa = (a + 32768) / 65536;
    let qb = (b + 32768) / 65536;
    let wa = wrap16(a);
    let wb = wrap16(b);
    assert(a == 65536 * qa + wa);
    assert(b == 65536 * qb + wb);
    let q = 65536 * (qa * qb) + qa * wb + wa * qb;
    assert(a * b == 65536 * q + wa * wb) by (nonlinear_arith)
        requires
            a == 65536 * qa + wa,
            b == 65536 * qb + wb,
            q == 65536 * (qa * qb) + qa * wb + wa * qb,
    ;
    assert((65536 * q + wa * wb + 32768) % 65536 == (wa * wb + 32768) % 65536);
}

/// Rounding gives the nearest multiple; of two that are equally near, the
/// larger.
pub proof fn law_rounding_is_to_the_nearest(x: int, unit: int)
    requires
        unit > 0,
        unit % 2 == 0,
    ensures
        -unit < 2 * (unit * round_div(x, unit) - x) <= unit,
{
    let r = round_div(x, unit);
    vstd::arithmetic::div_mod::lemma_fundamental_div_mod(x + unit / 2, unit);
    vstd::arithmetic::div_mod::lemma_mod_bound(x + unit / 2, unit);
}

/// Limiting moves a number no further than it must: a number in range stays,
/// and one outside goes to the end that it lies beyond.
pub proof fn law_limiting_is_to_the_nearest(x: int, y: int)
    ensures
        0 <= clamp_u8(x) <= 255,
        0 <= y <= 255 && x <= y ==> x <= clamp_u8(x) <= y || x < 0 && clamp_u8(x) == 0,
        0 <= y <= 255 && y <= x ==> y <= clamp_u8(x) <= x || x > 255 && clamp_u8(x) == 255,
        -32768 <= sat16(x) <= 32767,
        -32768 <= y <= 32767 && x <= y ==> x <= sat16(x) <= y || x < -32768 && sat16(x) == -32768,
        -32768 <= y <= 32767 && y <= x ==> y <= sat16(x) <= x || x > 32767 && sat16(x) == 32767,
{
}

/// Reducing a number to 16 or 32 bits keeps it if it fits, and moves it by a
/// whole number of turns if not.
pub proof fn law_reduction_is_by_whole_turns(x: int)
    ensures
        -32768 <= wrap16(x) <= 32767,
        (x - wrap16(x)) % 65536 == 0,
        -0x8000_0000 <= wrap32(x) <= 0x7fff_ffff,
        (x - wrap32(x)) % 0x1_0000_0000 == 0,
{
}

} // verus!
