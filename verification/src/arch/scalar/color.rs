//! Color conversion between RGB and YCbCr rows, and 2:1 chroma resampling.
//!
//! Forward transform, in 16-bit fixed point:
//!
//! ```text
//! Y  =  0.29900 R + 0.58700 G + 0.11400 B
//! Cb = -0.16874 R - 0.33126 G + 0.50000 B + 128
//! Cr =  0.50000 R - 0.41869 G - 0.08131 B + 128
//! ```
//!
//! Inverse transform, likewise:
//!
//! ```text
//! R = Y                        + 1.40200 (Cr - 128)
//! G = Y - 0.34414 (Cb - 128)   - 0.71414 (Cr - 128)
//! B = Y + 1.77200 (Cb - 128)
//! ```

use vstd::prelude::*;

use crate::color::PixelLayout;
use crate::fixed::{clamp_to_u8, lemma_shr_i32, lemma_shr_u32};

verus! {

use crate::fixed::clamp_u8;

/// Luma of an RGB pixel.
pub open spec fn luma(r: u8, g: u8, b: u8) -> u8 {
    ((19595 * r + 38470 * g + 7471 * b + 32768) / 65536) as u8
}

/// Blue-difference chroma of an RGB pixel, centered on 128. The rounding
/// bias is one unit short of a half.
pub open spec fn chroma_blue(r: u8, g: u8, b: u8) -> u8 {
    ((8421375 - 11059 * r - 21709 * g + 32768 * b) / 65536) as u8
}

/// Red-difference chroma of an RGB pixel, centered on 128.
pub open spec fn chroma_red(r: u8, g: u8, b: u8) -> u8 {
    ((8421375 + 32768 * r - 27439 * g - 5329 * b) / 65536) as u8
}

/// Red of a YCbCr sample.
pub open spec fn ycc_red(y: u8, cb: u8, cr: u8) -> u8 {
    clamp_u8(y + (91881 * (cr - 128) + 32768) / 65536) as u8
}

/// Green of a YCbCr sample.
pub open spec fn ycc_green(y: u8, cb: u8, cr: u8) -> u8 {
    clamp_u8(y - (22554 * (cb - 128) + 46802 * (cr - 128) + 32768) / 65536) as u8
}

/// Blue of a YCbCr sample.
pub open spec fn ycc_blue(y: u8, cb: u8, cr: u8) -> u8 {
    clamp_u8(y + (116130 * (cb - 128) + 32768) / 65536) as u8
}

/// The `i`-th pixel of a packed row, as its red, green and blue bytes.
pub open spec fn pixel_at(pixels: Seq<u8>, layout: PixelLayout, i: int) -> (u8, u8, u8) {
    (
        pixels[i * layout.bpp + layout.r_off],
        pixels[i * layout.bpp + layout.g_off],
        pixels[i * layout.bpp + layout.b_off],
    )
}

/// The bytes of one pixel after a color has been stored in it. The alpha
/// or pad byte of a four-byte pixel becomes `0xFF`.
pub open spec fn store_pixel(old_bytes: Seq<u8>, layout: PixelLayout, r: u8, g: u8, b: u8) -> Seq<u8> {
    let rgb = old_bytes.update(layout.r_off as int, r).update(layout.g_off as int, g).update(
        layout.b_off as int,
        b,
    );
    if layout.bpp == 4 {
        rgb.update(6 - layout.r_off - layout.g_off - layout.b_off, 0xFF)
    } else {
        rgb
    }
}

/// Byte `o` of a pixel of the given color. A byte that holds no color is
/// `0xFF`.
pub open spec fn pixel_byte(layout: PixelLayout, o: int, y: u8, cb: u8, cr: u8) -> u8 {
    if o == layout.r_off {
        ycc_red(y, cb, cr)
    } else if o == layout.g_off {
        ycc_green(y, cb, cr)
    } else if o == layout.b_off {
        ycc_blue(y, cb, cr)
    } else {
        0xFF
    }
}

/// Byte `k` of a row of `n` pixels after conversion from YCbCr.
pub open spec fn rgb_row_byte(
    old_bytes: Seq<u8>,
    y: Seq<u8>,
    cb: Seq<u8>,
    cr: Seq<u8>,
    layout: PixelLayout,
    k: int,
) -> u8 {
    let bpp = layout.bpp as int;
    let i = k / bpp;
    store_pixel(
        old_bytes.subrange(i * bpp, i * bpp + bpp),
        layout,
        ycc_red(y[i], cb[i], cr[i]),
        ycc_green(y[i], cb[i], cr[i]),
        ycc_blue(y[i], cb[i], cr[i]),
    )[k % bpp]
}

/// The product `i * bpp` leaves room for a whole pixel in a row that holds
/// more than `i` of them.
proof fn lemma_pixel_fits(i: int, n: int, bpp: int, len: int)
    requires
        0 <= i < n,
        0 <= bpp,
        n * bpp <= len,
    ensures
        0 <= i * bpp,
        i * bpp + bpp <= len,
{
    assert(i * bpp + bpp <= n * bpp) by (nonlinear_arith)
        requires
            0 <= i < n,
            0 <= bpp,
    ;
    assert(0 <= i * bpp) by (nonlinear_arith)
        requires
            0 <= i,
            0 <= bpp,
    ;
}

/// Forward transform of one pixel.
fn rgb_to_ycc(r: u8, g: u8, b: u8) -> (ycc: (u8, u8, u8))
    ensures
        ycc.0 == luma(r, g, b),
        ycc.1 == chroma_blue(r, g, b),
        ycc.2 == chroma_red(r, g, b),
{
    let r32 = r as u32;
    let g32 = g as u32;
    let b32 = b as u32;
    let y: u32 = 19595 * r32 + 38470 * g32 + 7471 * b32 + 32768;
    let cb: u32 = 8421375 - 11059 * r32 - 21709 * g32 + 32768 * b32;
    let cr: u32 = 8421375 + 32768 * r32 - 27439 * g32 - 5329 * b32;
    proof {
        lemma_shr_u32(y);
        lemma_shr_u32(cb);
        lemma_shr_u32(cr);
    }
    ((y >> 16) as u8, (cb >> 16) as u8, (cr >> 16) as u8)
}

/// Inverse transform of one sample.
fn ycc_to_rgb(y: u8, cb: u8, cr: u8) -> (rgb: (u8, u8, u8))
    ensures
        rgb.0 == ycc_red(y, cb, cr),
        rgb.1 == ycc_green(y, cb, cr),
        rgb.2 == ycc_blue(y, cb, cr),
{
    let yi = y as i32;
    let cbi = cb as i32 - 128;
    let cri = cr as i32 - 128;
    let dr: i32 = 91881 * cri + 32768;
    let dg: i32 = 22554 * cbi + 46802 * cri + 32768;
    let db: i32 = 116130 * cbi + 32768;
    proof {
        lemma_shr_i32(dr);
        lemma_shr_i32(dg);
        lemma_shr_i32(db);
    }
    (clamp_to_u8(yi + (dr >> 16)), clamp_to_u8(yi - (dg >> 16)), clamp_to_u8(yi + (db >> 16)))
}

/// Converts one row of `n` pixels to YCbCr, chroma centered on 128.
/// Samples past the first `n` of the three outputs are left alone.
pub fn rgb_row_to_ycc(
    pixels: &[u8],
    layout: PixelLayout,
    n: usize,
    y: &mut [u8],
    cb: &mut [u8],
    cr: &mut [u8],
)
    requires
        layout.offsets_in_pixel(),
        n * layout.bpp <= pixels@.len(),
        old(y)@.len() >= n,
        old(cb)@.len() >= n,
        old(cr)@.len() >= n,
    ensures
        final(y)@.len() == old(y)@.len(),
        final(cb)@.len() == old(cb)@.len(),
        final(cr)@.len() == old(cr)@.len(),
        forall|i: int|
            0 <= i < n ==> #[trigger] final(y)@[i] == ({
                let p = pixel_at(pixels@, layout, i);
                luma(p.0, p.1, p.2)
            }),
        forall|i: int|
            0 <= i < n ==> #[trigger] final(cb)@[i] == ({
                let p = pixel_at(pixels@, layout, i);
                chroma_blue(p.0, p.1, p.2)
            }),
        forall|i: int|
            0 <= i < n ==> #[trigger] final(cr)@[i] == ({
                let p = pixel_at(pixels@, layout, i);
                chroma_red(p.0, p.1, p.2)
            }),
        forall|i: int| n <= i < old(y)@.len() ==> #[trigger] final(y)@[i] == old(y)@[i],
        forall|i: int| n <= i < old(cb)@.len() ==> #[trigger] final(cb)@[i] == old(cb)@[i],
        forall|i: int| n <= i < old(cr)@.len() ==> #[trigger] final(cr)@[i] == old(cr)@[i],
{
    let len: usize = pixels.len();
    let ghost y0 = y@;
    let ghost cb0 = cb@;
    let ghost cr0 = cr@;
    for i in 0..n
        invariant
            layout.offsets_in_pixel(),
            n * layout.bpp <= len,
            len == pixels@.len(),
            y@.len() == y0.len() >= n,
            cb@.len() == cb0.len() >= n,
            cr@.len() == cr0.len() >= n,
            forall|k: int|
                0 <= k < i ==> #[trigger] y@[k] == ({
                    let p = pixel_at(pixels@, layout, k);
                    luma(p.0, p.1, p.2)
                }),
            forall|k: int|
                0 <= k < i ==> #[trigger] cb@[k] == ({
                    let p = pixel_at(pixels@, layout, k);
                    chroma_blue(p.0, p.1, p.2)
                }),
            forall|k: int|
                0 <= k < i ==> #[trigger] cr@[k] == ({
                    let p = pixel_at(pixels@, layout, k);
                    chroma_red(p.0, p.1, p.2)
                }),
            forall|k: int| n <= k < y0.len() ==> #[trigger] y@[k] == y0[k],
            forall|k: int| n <= k < cb0.len() ==> #[trigger] cb@[k] == cb0[k],
            forall|k: int| n <= k < cr0.len() ==> #[trigger] cr@[k] == cr0[k],
    {
        proof {
            lemma_pixel_fits(i as int, n as int, layout.bpp as int, len as int);
        }
        let p: usize = i * layout.bpp;
        let ycc = rgb_to_ycc(pixels[p + layout.r_off], pixels[p + layout.g_off], pixels[p + layout.b_off]);
        y[i] = ycc.0;
        cb[i] = ycc.1;
        cr[i] = ycc.2;
    }
}

/// Converts one row of `n` YCbCr samples to RGB in `layout`. The alpha or
/// pad byte of a four-byte pixel is set to `0xFF`; bytes past the first
/// `n` pixels are left alone.
pub fn ycc_row_to_rgb(y: &[u8], cb: &[u8], cr: &[u8], out: &mut [u8], n: usize, layout: PixelLayout)
    requires
        layout.offsets_in_pixel(),
        layout.bpp == 4 ==> 3 <= layout.r_off + layout.g_off + layout.b_off <= 6,
        n * layout.bpp <= old(out)@.len(),
        y@.len() >= n,
        cb@.len() >= n,
        cr@.len() >= n,
    ensures
        final(out)@.len() == old(out)@.len(),
        forall|k: int|
            0 <= k < old(out)@.len() ==> #[trigger] final(out)@[k] == if k < n * layout.bpp {
                rgb_row_byte(old(out)@, y@, cb@, cr@, layout, k)
            } else {
                old(out)@[k]
            },
{
    let len: usize = out.len();
    let ghost before = out@;
    let ghost bpp = layout.bpp as int;
    assert(0 * bpp == 0);
    for i in 0..n
        invariant
            layout.offsets_in_pixel(),
            layout.bpp == 4 ==> 3 <= layout.r_off + layout.g_off + layout.b_off <= 6,
            bpp == layout.bpp,
            n * bpp <= len,
            len == before.len(),
            out@.len() == before.len(),
            y@.len() >= n,
            cb@.len() >= n,
            cr@.len() >= n,
            forall|k: int|
                0 <= k < before.len() ==> #[trigger] out@[k] == if k < i * bpp {
                    rgb_row_byte(before, y@, cb@, cr@, layout, k)
                } else {
                    before[k]
                },
    {
        proof {
            lemma_pixel_fits(i as int, n as int, bpp, len as int);
        }
        let rgb = ycc_to_rgb(y[i], cb[i], cr[i]);
        let p: usize = i * layout.bpp;
        let ghost mid = out@;
        out[p + layout.r_off] = rgb.0;
        out[p + layout.g_off] = rgb.1;
        out[p + layout.b_off] = rgb.2;
        if layout.bpp == 4 {
            let a_off: usize = 6 - layout.r_off - layout.g_off - layout.b_off;
            out[p + a_off] = 0xFF;
        }
        proof {
            assert((i + 1) * bpp == i * bpp + bpp) by (nonlinear_arith);
            assert forall|k: int| 0 <= k < before.len() implies #[trigger] out@[k] == if k < (i + 1) * bpp {
                rgb_row_byte(before, y@, cb@, cr@, layout, k)
            } else {
                before[k]
            } by {
                if p <= k < p + bpp {
                    assert(k == bpp * i + (k - p)) by (nonlinear_arith)
                        requires
                            p == i * bpp,
                    ;
                    vstd::arithmetic::div_mod::lemma_fundamental_div_mod_converse(k, bpp, i as int, k - p);
                }
            }
        }
    }
}

/// Entry `(j, i)` of a 16x16 plane reduced to 8x8: the mean of a 2x2
/// square, level-shifted. The rounding bias alternates between one and two
/// along a row.
pub open spec fn h2v2_average(src: Seq<u8>, j: int, i: int) -> i16 {
    let sum = src[32 * j + 2 * i] + src[32 * j + 2 * i + 1] + src[32 * j + 2 * i + 16] + src[32 * j + 2 * i
        + 17];
    let bias = if i % 2 == 0 { 1int } else { 2int };
    ((sum + bias) / 4 - 128) as i16
}

/// Entry `(j, i)` of a 16x8 plane reduced to 8x8: the mean of two
/// neighbors, level-shifted. The rounding bias alternates between zero and
/// one along a row.
pub open spec fn h2v1_average(src: Seq<u8>, j: int, i: int) -> i16 {
    let sum = src[16 * j + 2 * i] + src[16 * j + 2 * i + 1];
    let bias = if i % 2 == 0 { 0int } else { 1int };
    ((sum + bias) / 2 - 128) as i16
}

/// A 16x16 plane reduced to 8x8.
pub open spec fn h2v2_downsampled(src: Seq<u8>) -> Seq<i16> {
    Seq::new(64, |k: int| h2v2_average(src, k / 8, k % 8))
}

/// A 16x8 plane reduced to 8x8.
pub open spec fn h2v1_downsampled(src: Seq<u8>) -> Seq<i16> {
    Seq::new(64, |k: int| h2v1_average(src, k / 8, k % 8))
}

/// An 8x8 plane doubled in both axes by replication.
pub open spec fn h2v2_upsampled(src: Seq<u8>) -> Seq<u8> {
    Seq::new(256, |k: int| src[8 * (k / 32) + (k % 16) / 2])
}

/// An 8x8 plane doubled horizontally by replication.
pub open spec fn h2v1_upsampled(src: Seq<u8>) -> Seq<u8> {
    Seq::new(128, |k: int| src[k / 2])
}

/// Reduces a 16x16 plane to 8x8 by a biased 2x2 average.
pub fn h2v2_downsample(src: &[u8; 256], dst: &mut [i16; 64])
    ensures
        final(dst)@ == h2v2_downsampled(src@),
{
    for k in 0..64usize
        invariant
            forall|m: int| 0 <= m < k ==> dst@[m] == h2v2_downsampled(src@)[m],
    {
        let j: usize = k / 8;
        let i: usize = k % 8;
        let at: usize = 32 * j + 2 * i;
        let bias: u32 = if i % 2 == 0 {
            1
        } else {
            2
        };
        let sum: u32 = src[at] as u32 + src[at + 1] as u32 + src[at + 16] as u32 + src[at + 17] as u32;
        let t: u32 = sum + bias;
        proof {
            lemma_shr_u32(t);
        }
        dst[k] = ((t >> 2) as i16) - 128;
    }
    assert(dst@ =~= h2v2_downsampled(src@));
}

/// Reduces a 16x8 plane to 8x8 by averaging horizontal pairs.
pub fn h2v1_downsample(src: &[u8; 128], dst: &mut [i16; 64])
    ensures
        final(dst)@ == h2v1_downsampled(src@),
{
    for k in 0..64usize
        invariant
            forall|m: int| 0 <= m < k ==> dst@[m] == h2v1_downsampled(src@)[m],
    {
        let j: usize = k / 8;
        let i: usize = k % 8;
        let at: usize = 16 * j + 2 * i;
        let bias: u32 = if i % 2 == 0 {
            0
        } else {
            1
        };
        let t: u32 = src[at] as u32 + src[at + 1] as u32 + bias;
        proof {
            lemma_shr_u32(t);
        }
        dst[k] = ((t >> 1) as i16) - 128;
    }
    assert(dst@ =~= h2v1_downsampled(src@));
}

/// Doubles an 8x8 plane in both axes by replication.
pub fn h2v2_upsample(src: &[u8; 64], dst: &mut [u8; 256])
    ensures
        final(dst)@ == h2v2_upsampled(src@),
{
    for k in 0..256usize
        invariant
            forall|m: int| 0 <= m < k ==> dst@[m] == h2v2_upsampled(src@)[m],
    {
        dst[k] = src[8 * (k / 32) + (k % 16) / 2];
    }
    assert(dst@ =~= h2v2_upsampled(src@));
}

/// Doubles an 8x8 plane horizontally by replication.
pub fn h2v1_upsample(src: &[u8; 64], dst: &mut [u8; 128])
    ensures
        final(dst)@ == h2v1_upsampled(src@),
{
    for k in 0..128usize
        invariant
            forall|m: int| 0 <= m < k ==> dst@[m] == h2v1_upsampled(src@)[m],
    {
        dst[k] = src[k / 2];
    }
    assert(dst@ =~= h2v1_upsampled(src@));
}

/// Reducing a replicated plane gives the plane back, level-shifted.
pub proof fn law_downsample_undoes_upsample(src: Seq<u8>)
    requires
        src.len() == 64,
    ensures
        h2v2_downsampled(h2v2_upsampled(src)) == Seq::new(64, |i: int| (src[i] - 128) as i16),
        h2v1_downsampled(h2v1_upsampled(src)) == Seq::new(64, |i: int| (src[i] - 128) as i16),
{
    let want = Seq::new(64, |i: int| (src[i] - 128) as i16);
    let (up, wide) = (h2v2_upsampled(src), h2v1_upsampled(src));
    let (a, b) = (h2v2_downsampled(up), h2v1_downsampled(wide));
    assert forall|k: int| 0 <= k < 64 implies #[trigger] a[k] == want[k] && b[k] == want[k] by {
        lemma_down_up_at(src, k % 8, k / 8);
    }
    assert(a =~= want);
    assert(b =~= want);
}

/// A gray pixel has its own level as luma and neutral chroma.
pub proof fn law_gray_has_neutral_chroma(v: u8)
    ensures
        luma(v, v, v) == v,
        chroma_blue(v, v, v) == 128,
        chroma_red(v, v, v) == 128,
{
}

/// A sample with neutral chroma is a gray pixel of that level.
pub proof fn law_neutral_chroma_is_gray(y: u8)
    ensures
        ycc_red(y, 128, 128) == y,
        ycc_green(y, 128, 128) == y,
        ycc_blue(y, 128, 128) == y,
{
}

/// Luma and chroma are the weighted sums of the conversion that JFIF files
/// use, rounded: the result is within 0.51 of
/// `0.299 R + 0.587 G + 0.114 B`, `128 - 0.168736 R - 0.331264 G + 0.5 B`
/// and `128 + 0.5 R - 0.418688 G - 0.081312 B`.
pub proof fn law_forward_weights(r: u8, g: u8, b: u8)
    ensures
        -510000 <= 1000000 * luma(r, g, b) - (299000 * r + 587000 * g + 114000 * b) <= 510000,
        -510000 <= 1000000 * chroma_blue(r, g, b) - (128000000 - 168736 * r - 331264 * g + 500000 * b)
            <= 510000,
        -510000 <= 1000000 * chroma_red(r, g, b) - (128000000 + 500000 * r - 418688 * g - 81312 * b)
            <= 510000,
{
}

/// `v` is within `slack` millionths of `exact` millionths, or stands at the
/// end of the range of a byte that `exact` lies beyond.
pub open spec fn rounds_to_byte(v: u8, exact: int, slack: int) -> bool {
    if exact < 0 {
        1000000 * v <= slack
    } else if exact > 255000000 {
        1000000 * v >= 255000000 - slack
    } else {
        -slack <= 1000000 * v - exact <= slack
    }
}

/// Red, green and blue are the weighted sums of the inverse conversion,
/// rounded and limited to a byte: within 0.51 of `Y + 1.402 (Cr - 128)`,
/// `Y - 0.344136 (Cb - 128) - 0.714136 (Cr - 128)` and
/// `Y + 1.772 (Cb - 128)`.
pub proof fn law_inverse_weights(y: u8, cb: u8, cr: u8)
    ensures
        rounds_to_byte(ycc_red(y, cb, cr), 1000000 * y + 1402000 * (cr - 128), 510000),
        rounds_to_byte(
            ycc_green(y, cb, cr),
            1000000 * y - 344136 * (cb - 128) - 714136 * (cr - 128),
            510000,
        ),
        rounds_to_byte(ycc_blue(y, cb, cr), 1000000 * y + 1772000 * (cb - 128), 510000),
{
}

/// More blue-difference chroma makes a sample bluer and less green; more
/// red-difference chroma makes it redder and less green.
pub proof fn law_chroma_moves_colors(y: u8, cb: u8, cr: u8, more_cb: u8, more_cr: u8)
    requires
        cb <= more_cb,
        cr <= more_cr,
    ensures
        ycc_red(y, cb, cr) <= ycc_red(y, cb, more_cr),
        ycc_green(y, cb, cr) >= ycc_green(y, cb, more_cr),
        ycc_green(y, cb, cr) >= ycc_green(y, more_cb, cr),
        ycc_blue(y, cb, cr) <= ycc_blue(y, more_cb, cr),
        ycc_red(y, cb, cr) == ycc_red(y, more_cb, cr),
        ycc_blue(y, cb, cr) == ycc_blue(y, cb, more_cr),
{
}

/// A color that is converted to YCbCr and back keeps each of its channels
/// within two levels.
pub proof fn law_colors_round_trip(r: u8, g: u8, b: u8)
    ensures
        ({
            let (y, cb, cr) = (luma(r, g, b), chroma_blue(r, g, b), chroma_red(r, g, b));
            &&& -2 <= ycc_red(y, cb, cr) - r <= 2
            &&& -2 <= ycc_green(y, cb, cr) - g <= 2
            &&& -2 <= ycc_blue(y, cb, cr) - b <= 2
        }),
{
    law_forward_weights(r, g, b);
    let (y, cb, cr) = (luma(r, g, b), chroma_blue(r, g, b), chroma_red(r, g, b));
    law_inverse_weights(y, cb, cr);
}

/// A row that holds converted pixels holds their colors where its layout
/// says, and `0xFF` in the byte of a four-byte pixel that holds no color.
pub proof fn law_converted_pixels_read_back(
    before: Seq<u8>,
    y: Seq<u8>,
    cb: Seq<u8>,
    cr: Seq<u8>,
    layout: PixelLayout,
    n: int,
    i: int,
    o: int,
)
    requires
        layout.offsets_in_pixel(),
        layout.r_off != layout.g_off,
        layout.r_off != layout.b_off,
        layout.g_off != layout.b_off,
        layout.bpp == 3 || layout.bpp == 4,
        0 <= i < n,
        n * layout.bpp <= before.len(),
        0 <= o < layout.bpp,
    ensures
        ({
            let row = Seq::new(before.len(), |k: int| rgb_row_byte(before, y, cb, cr, layout, k));
            &&& pixel_at(row, layout, i) == (
                ycc_red(y[i], cb[i], cr[i]),
                ycc_green(y[i], cb[i], cr[i]),
                ycc_blue(y[i], cb[i], cr[i]),
            )
            &&& o != layout.r_off && o != layout.g_off && o != layout.b_off ==> row[i * layout.bpp + o] == 0xFF
        }),
{
    let bpp = layout.bpp as int;
    lemma_pixel_fits(i, n, bpp, before.len() as int);
    lemma_byte_of_pixel(i, bpp, layout.r_off as int);
    lemma_byte_of_pixel(i, bpp, layout.g_off as int);
    lemma_byte_of_pixel(i, bpp, layout.b_off as int);
    lemma_byte_of_pixel(i, bpp, o);
}

/// Byte `o` of pixel `i`.
proof fn lemma_byte_of_pixel(i: int, bpp: int, o: int)
    requires
        0 <= i,
        0 <= o < bpp,
    ensures
        (i * bpp + o) / bpp == i,
        (i * bpp + o) % bpp == o,
{
    vstd::arithmetic::div_mod::lemma_fundamental_div_mod_converse(i * bpp + o, bpp, i, o);
}

/// `v` is `sum / n` rounded to the nearest integer; a tie goes up if `up`
/// holds, and down if not.
pub open spec fn is_rounded_mean(v: int, sum: int, n: int, up: bool) -> bool {
    let twice = 2 * (n * v - sum);
    &&& -n <= twice <= n
    &&& twice == n ==> up
    &&& twice == -n ==> !up
}

/// Each chroma sample of a reduced plane is the mean of the square or pair
/// of samples that it stands for, rounded to the nearest level. Ties go
/// down in even columns and up in odd ones.
pub proof fn law_downsampling_is_the_mean(square: Seq<u8>, wide: Seq<u8>, x: int, y: int)
    requires
        square.len() == 256,
        wide.len() == 128,
        0 <= x < 8,
        0 <= y < 8,
    ensures
        is_rounded_mean(
            h2v2_downsampled(square)[8 * y + x] + 128,
            square[16 * (2 * y) + 2 * x] + square[16 * (2 * y) + 2 * x + 1] + square[16 * (2 * y + 1) + 2 * x]
                + square[16 * (2 * y + 1) + 2 * x + 1],
            4,
            x % 2 == 1,
        ),
        is_rounded_mean(
            h2v1_downsampled(wide)[8 * y + x] + 128,
            wide[16 * y + 2 * x] + wide[16 * y + 2 * x + 1],
            2,
            x % 2 == 1,
        ),
{
    assert((8 * y + x) / 8 == y && (8 * y + x) % 8 == x);
}

/// One sample that is doubled and reduced again.
proof fn lemma_down_up_at(src: Seq<u8>, x: int, y: int)
    requires
        src.len() == 64,
        0 <= x < 8,
        0 <= y < 8,
    ensures
        h2v2_downsampled(h2v2_upsampled(src))[8 * y + x] == src[8 * y + x] - 128,
        h2v1_downsampled(h2v1_upsampled(src))[8 * y + x] == src[8 * y + x] - 128,
{
    law_downsampling_is_the_mean(h2v2_upsampled(src), h2v1_upsampled(src), x, y);
    law_upsampling_replicates(src, 2 * x, 2 * y);
    law_upsampling_replicates(src, 2 * x + 1, 2 * y);
    law_upsampling_replicates(src, 2 * x, 2 * y + 1);
    law_upsampling_replicates(src, 2 * x + 1, 2 * y + 1);
    law_upsampling_replicates(src, 2 * x, y);
    law_upsampling_replicates(src, 2 * x + 1, y);
}

/// Every sample of a doubled plane is the one that it was doubled from.
pub proof fn law_upsampling_replicates(src: Seq<u8>, x: int, y: int)
    requires
        src.len() == 64,
        0 <= x < 16,
    ensures
        0 <= y < 16 ==> h2v2_upsampled(src)[16 * y + x] == src[8 * (y / 2) + x / 2],
        0 <= y < 8 ==> h2v1_upsampled(src)[16 * y + x] == src[8 * y + x / 2],
{
    assert((16 * y + x) / 32 == y / 2);
    assert((16 * y + x) % 16 == x);
    assert((16 * y + x) / 2 == 8 * y + x / 2);
}

/// The conversion depends on the red, green and blue bytes alone: two rows
/// that hold the same colors in different layouts convert alike.
pub proof fn law_layout_does_not_matter(
    p: Seq<u8>,
    pl: PixelLayout,
    q: Seq<u8>,
    ql: PixelLayout,
    i: int,
)
    requires
        pixel_at(p, pl, i) == pixel_at(q, ql, i),
    ensures
        ({
            let a = pixel_at(p, pl, i);
            let b = pixel_at(q, ql, i);
            &&& luma(a.0, a.1, a.2) == luma(b.0, b.1, b.2)
            &&& chroma_blue(a.0, a.1, a.2) == chroma_blue(b.0, b.1, b.2)
            &&& chroma_red(a.0, a.1, a.2) == chroma_red(b.0, b.1, b.2)
        }),
{
}

} // verus!
