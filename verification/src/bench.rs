//! The image that timings are taken on.

use vstd::arithmetic::div_mod::lemma_fundamental_div_mod_converse;
use vstd::prelude::*;

verus! {

/// Byte `c` of the pixel at `(x, y)` of the test image: smooth gradients
/// with some high-frequency detail, and opaque alpha.
pub open spec fn image_byte(x: u32, y: u32, c: int) -> u8 {
    if c == 0 {
        ((x ^ y) & 0xFF) as u8
    } else if c == 1 {
        (x.wrapping_add(y) & 0xFF) as u8
    } else if c == 2 {
        ((x.wrapping_mul(7) ^ y.wrapping_mul(13)) & 0xFF) as u8
    } else {
        255
    }
}

/// The test image of width `w` and height `h`, packed RGBA row by row.
pub open spec fn image(w: u32, h: u32) -> Seq<u8> {
    Seq::new(
        (w * h * 4) as nat,
        |k: int| image_byte((k / 4 % w as int) as u32, (k / 4 / w as int) as u32, k % 4),
    )
}

/// Where the pixel at `(x, y)` stands.
proof fn lemma_pixel_place(x: int, y: int, w: int, h: int)
    requires
        0 <= x < w,
        0 <= y < h,
    ensures
        0 <= y * w + x < w * h,
        (y * w + x) / w == y,
        (y * w + x) % w == x,
{
    assert(0 <= y * w + x < w * h) by (nonlinear_arith)
        requires
            0 <= x < w,
            0 <= y < h,
    ;
    lemma_fundamental_div_mod_converse(y * w + x, w, y, x);
}

/// Makes the test image of width `w` and height `h`, packed RGBA.
pub fn make_image(w: u32, h: u32) -> (v: Vec<u8>)
    requires
        w * h * 4 <= u32::MAX,
    ensures
        v@ == image(w, h),
{
    assert(0 <= w * h <= w * h * 4) by (nonlinear_arith)
        requires
            0 <= w,
            0 <= h,
    ;
    let mut v: Vec<u8> = Vec::with_capacity((w * h * 4) as usize);
    assert(0 * w == 0) by (nonlinear_arith);
    for y in 0..h
        invariant
            v@.len() == 4 * (y * w),
            forall|k: int| 0 <= k < v@.len() ==> #[trigger] v@[k] == image(w, h)[k],
    {
        for x in 0..w
            invariant
                y < h,
                v@.len() == 4 * (y * w + x),
                forall|k: int| 0 <= k < v@.len() ==> #[trigger] v@[k] == image(w, h)[k],
        {
            proof {
                lemma_pixel_place(x as int, y as int, w as int, h as int);
            }
            v.push(((x ^ y) & 0xFF) as u8);
            v.push((x.wrapping_add(y) & 0xFF) as u8);
            v.push(((x.wrapping_mul(7) ^ y.wrapping_mul(13)) & 0xFF) as u8);
            v.push(255);
        }
        assert((y + 1) * w == y * w + w) by (nonlinear_arith);
    }
    assert(h * w == w * h) by (nonlinear_arith);
    assert(v@ =~= image(w, h));
    v
}

/// Byte `c` of the pixel in column `x` and row `y` stands four bytes to a
/// pixel from the start, and the fourth byte of every pixel is opaque.
pub proof fn law_image_is_packed_by_rows(w: u32, h: u32, x: u32, y: u32, c: int)
    requires
        x < w,
        y < h,
        0 <= c < 4,
    ensures
        ({
            let at = 4 * (y * w + x) + c;
            &&& 0 <= at < image(w, h).len()
            &&& image(w, h)[at] == image_byte(x, y, c)
            &&& c == 3 ==> image(w, h)[at] == 255
        }),
{
    lemma_pixel_place(x as int, y as int, w as int, h as int);
    let at = 4 * (y * w + x) + c;
    assert(at / 4 == y * w + x && at % 4 == c);
    assert(w * h * 4 == 4 * (w * h)) by (nonlinear_arith);
}

/// The first row and the first column of the image run through the levels:
/// red by one a pixel, green by one in both directions, blue by seven across
/// and thirteen down. Red is zero on the diagonal.
pub proof fn law_image_channels(x: u32, y: u32)
    requires
        x <= 0xFFFF,
        y <= 0xFFFF,
    ensures
        image_byte(x, 0, 0) == x % 256,
        image_byte(0, y, 0) == y % 256,
        image_byte(x, x, 0) == 0,
        image_byte(x, y, 1) == (x + y) % 256,
        image_byte(x, 0, 2) == (7 * x) % 256,
        image_byte(0, y, 2) == (13 * y) % 256,
{
    assert(x ^ 0 == x && 0 ^ y == y && x ^ x == 0) by (bit_vector);
    let (s, a, b) = ((x + y) as u32, (7 * x) as u32, (13 * y) as u32);
    assert(a ^ 0 == a && 0 ^ b == b) by (bit_vector);
    assert(x & 0xFF == x % 256 && y & 0xFF == y % 256 && s & 0xFF == s % 256 && a & 0xFF == a % 256 && b & 0xFF
        == b % 256 && 0u32 & 0xFF == 0) by (bit_vector);
}

} // verus!
