//! Color conversion and chroma resampling in vector lanes.

use vstd::prelude::*;

use crate::color::PixelLayout;
use crate::fixed::{clamp_to_u8, lemma_shr_i32, lemma_shr_u32, saturate16};

verus! {

use crate::arch::scalar::color::{
    chroma_blue, chroma_red, h2v1_downsampled, h2v1_upsampled, h2v2_downsampled, h2v2_upsampled, luma, pixel_at,
    pixel_byte, ycc_blue, ycc_green, ycc_red,
};
use crate::color::PixelClass;

/// Sum of the products of two lanes with two constants, plus `extra` and
/// `bias`, without the 16 fraction bits.
fn finalize_component(x: i32, y: i32, cx: i32, cy: i32, extra: i32, bias: i32) -> (r: u8)
    requires
        0 <= x <= 255,
        0 <= y <= 255,
        -32768 <= cx <= 32767,
        -32768 <= cy <= 32767,
        0 <= x * cx + y * cy + extra + bias < 256 * 65536,
        0 <= extra <= 0x100_0000,
        0 <= bias <= 0x100_0000,
    ensures
        r == (x * cx + y * cy + extra + bias) / 65536,
{
    assert(-0x80_0000 <= x * cx <= 0x80_0000 && -0x80_0000 <= y * cy <= 0x80_0000) by (nonlinear_arith)
        requires
            0 <= x <= 255,
            0 <= y <= 255,
            -32768 <= cx <= 32767,
            -32768 <= cy <= 32767,
    ;
    let sum: u32 = (x * cx + y * cy + extra + bias) as u32;
    proof {
        lemma_shr_u32(sum);
    }
    (sum >> 16) as u8
}

/// Forward transform of one pixel by pairs of products. The weight of green
/// in luma is split over both pairs, so that each part fits in a lane.
fn ycc_lane(r: u8, g: u8, b: u8) -> (ycc: (u8, u8, u8))
    ensures
        ycc.0 == luma(r, g, b),
        ycc.1 == chroma_blue(r, g, b),
        ycc.2 == chroma_red(r, g, b),
{
    let r32 = r as i32;
    let g32 = g as i32;
    let b32 = b as i32;
    let y_extra: i32 = b32 * 7471 + g32 * 16384;
    let half_b: i32 = b32 * 32768;
    let half_r: i32 = r32 * 32768;
    (
        finalize_component(r32, g32, 19595, 22086, y_extra, 32768),
        finalize_component(r32, g32, -11059, -21709, half_b, 8421375),
        finalize_component(b32, g32, -5329, -27439, half_r, 8421375),
    )
}

/// Converts 16 pixels of three or four bytes to YCbCr.
fn rgb_row_16(
    pixels: &[u8],
    layout: PixelLayout,
    y: &mut [u8],
    cb: &mut [u8],
    cr: &mut [u8],
)
    requires
        layout.bpp == 3 || layout.bpp == 4,
        layout.offsets_in_pixel(),
        16 * layout.bpp <= pixels@.len(),
        old(y)@.len() >= 16,
        old(cb)@.len() >= 16,
        old(cr)@.len() >= 16,
    ensures
        final(y)@.len() == old(y)@.len(),
        final(cb)@.len() == old(cb)@.len(),
        final(cr)@.len() == old(cr)@.len(),
        forall|i: int|
            0 <= i < 16 ==> #[trigger] final(y)@[i] == ({
                let p = pixel_at(pixels@, layout, i);
                luma(p.0, p.1, p.2)
            }),
        forall|i: int|
            0 <= i < 16 ==> #[trigger] final(cb)@[i] == ({
                let p = pixel_at(pixels@, layout, i);
                chroma_blue(p.0, p.1, p.2)
            }),
        forall|i: int|
            0 <= i < 16 ==> #[trigger] final(cr)@[i] == ({
                let p = pixel_at(pixels@, layout, i);
                chroma_red(p.0, p.1, p.2)
            }),
        forall|i: int| 16 <= i < old(y)@.len() ==> #[trigger] final(y)@[i] == old(y)@[i],
        forall|i: int| 16 <= i < old(cb)@.len() ==> #[trigger] final(cb)@[i] == old(cb)@[i],
        forall|i: int| 16 <= i < old(cr)@.len() ==> #[trigger] final(cr)@[i] == old(cr)@[i],
{
    let ghost y0 = y@;
    let ghost cb0 = cb@;
    let ghost cr0 = cr@;
    for i in 0..16usize
        invariant
            layout.bpp == 3 || layout.bpp == 4,
            layout.offsets_in_pixel(),
            16 * layout.bpp <= pixels@.len(),
            y@.len() == y0.len() >= 16,
            cb@.len() == cb0.len() >= 16,
            cr@.len() == cr0.len() >= 16,
            forall|k: int|
                0 <= k < i ==> #[trigger] y@[k] == ({
                    let p = pixel_at(pixels@, layout, k);
                    luma(p.0, p.1, p.2)
                }),
            forall|k: int|
                0 <= k < i ==> #[trigger] cb@[k] == ({
                    let p = pixel_at(pixels@, layout, k);
                    chroma_blue(p.0, p.1, p.2)
                }),
            forall|k: int|
                0 <= k < i ==> #[trigger] cr@[k] == ({
                    let p = pixel_at(pixels@, layout, k);
                    chroma_red(p.0, p.1, p.2)
                }),
            forall|k: int| 16 <= k < y0.len() ==> #[trigger] y@[k] == y0[k],
            forall|k: int| 16 <= k < cb0.len() ==> #[trigger] cb@[k] == cb0[k],
            forall|k: int| 16 <= k < cr0.len() ==> #[trigger] cr@[k] == cr0[k],
    {
        let p: usize = if layout.bpp == 3 {
            i * 3
        } else {
            i * 4
        };
        let ycc = ycc_lane(pixels[p + layout.r_off], pixels[p + layout.g_off], pixels[p + layout.b_off]);
        y[i] = ycc.0;
        cb[i] = ycc.1;
        cr[i] = ycc.2;
    }
}

/// Converts one row of 8 or 16 pixels to YCbCr, chroma centered on 128.
/// Samples past the first `n` of the three outputs are left alone.
pub fn rgb_row_to_ycc(
    pixels: &[u8],
    layout: PixelLayout,
    n: usize,
    y: &mut [u8],
    cb: &mut [u8],
    cr: &mut [u8],
)
    requires
        n == 8 || n == 16,
        layout.offsets_in_pixel(),
        n * layout.bpp <= pixels@.len(),
        old(y)@.len() >= n,
        old(cb)@.len() >= n,
        old(cr)@.len() >= n,
    ensures
        final(y)@.len() == old(y)@.len(),
        final(cb)@.len() == old(cb)@.len(),
        final(cr)@.len() == old(cr)@.len(),
        forall|i: int|
            0 <= i < n ==> #[trigger] final(y)@[i] == ({
                let p = pixel_at(pixels@, layout, i);
                luma(p.0, p.1, p.2)
            }),
        forall|i: int|
            0 <= i < n ==> #[trigger] final(cb)@[i] == ({
                let p = pixel_at(pixels@, layout, i);
                chroma_blue(p.0, p.1, p.2)
            }),
        forall|i: int|
            0 <= i < n ==> #[trigger] final(cr)@[i] == ({
                let p = pixel_at(pixels@, layout, i);
                chroma_red(p.0, p.1, p.2)
            }),
        forall|i: int| n <= i < old(y)@.len() ==> #[trigger] final(y)@[i] == old(y)@[i],
        forall|i: int| n <= i < old(cb)@.len() ==> #[trigger] final(cb)@[i] == old(cb)@[i],
        forall|i: int| n <= i < old(cr)@.len() ==> #[trigger] final(cr)@[i] == old(cr)@[i],
{
    if n == 16 && (layout.bpp == 3 || layout.bpp == 4) {
        rgb_row_16(pixels, layout, y, cb, cr);
    } else {
        crate::arch::scalar::color::rgb_row_to_ycc(pixels, layout, n, y, cb, cr);
    }
}

/// Reduces a 16x16 plane to 8x8 by a biased 2x2 average.
/// Pairs are added within each of two rows, then the rows and the bias.
pub fn h2v2_downsample(src: &[u8; 256], dst: &mut [i16; 64])
    ensures
        final(dst)@ == h2v2_downsampled(src@),
{
    for k in 0..64usize
        invariant
            forall|m: int| 0 <= m < k ==> dst@[m] == h2v2_downsampled(src@)[m],
    {
        let at: usize = 32 * (k / 8) + 2 * (k % 8);
        let upper: u32 = src[at] as u32 + src[at + 1] as u32;
        let lower: u32 = src[at + 16] as u32 + src[at + 17] as u32;
        let sum: u32 = upper + lower + (1 + (k % 2) as u32);
        proof {
            lemma_shr_u32(sum);
        }
        dst[k] = (sum >> 2) as i16 - 128;
    }
    assert(dst@ =~= h2v2_downsampled(src@));
}

/// Reduces a 16x8 plane to 8x8 by averaging horizontal pairs.
pub fn h2v1_downsample(src: &[u8; 128], dst: &mut [i16; 64])
    ensures
        final(dst)@ == h2v1_downsampled(src@),
{
    for k in 0..64usize
        invariant
            forall|m: int| 0 <= m < k ==> dst@[m] == h2v1_downsampled(src@)[m],
    {
        let at: usize = 16 * (k / 8) + 2 * (k % 8);
        let sum: u32 = src[at] as u32 + src[at + 1] as u32 + (k % 2) as u32;
        proof {
            lemma_shr_u32(sum);
        }
        dst[k] = (sum >> 1) as i16 - 128;
    }
    assert(dst@ =~= h2v1_downsampled(src@));
}

/// Doubles an 8x8 plane in both axes by replication.
pub fn h2v2_upsample(src: &[u8; 64], dst: &mut [u8; 256])
    ensures
        final(dst)@ == h2v2_upsampled(src@),
{
    crate::arch::scalar::color::h2v2_upsample(src, dst);
}

/// Doubles an 8x8 plane horizontally by replication.
pub fn h2v1_upsample(src: &[u8; 64], dst: &mut [u8; 128])
    ensures
        final(dst)@ == h2v1_upsampled(src@),
{
    crate::arch::scalar::color::h2v1_upsample(src, dst);
}

/// Inverse transform of one sample, narrowed in two saturating steps.
fn rgb_lane(y: u8, cb: u8, cr: u8) -> (rgb: (u8, u8, u8))
    ensures
        rgb.0 == ycc_red(y, cb, cr),
        rgb.1 == ycc_green(y, cb, cr),
        rgb.2 == ycc_blue(y, cb, cr),
{
    let y32 = y as i32;
    let cb32 = cb as i32 - 128;
    let cr32 = cr as i32 - 128;
    let red: i32 = cr32 * 91881 + 32768;
    let green: i32 = cb32 * 22554 + cr32 * 46802 + 32768;
    let blue: i32 = cb32 * 116130 + 32768;
    proof {
        lemma_shr_i32(red);
        lemma_shr_i32(green);
        lemma_shr_i32(blue);
    }
    (
        clamp_to_u8(saturate16(y32 + (red >> 16)) as i32),
        clamp_to_u8(saturate16(y32 - (green >> 16)) as i32),
        clamp_to_u8(saturate16(y32 + (blue >> 16)) as i32),
    )
}

/// The bytes of pixel `i`, in the order in which they are stored.
fn pixel_slots(r: u8, g: u8, b: u8, layout: PixelLayout) -> (slot: [u8; 4])
    requires
        layout.wf(),
        layout.spec_class() == PixelClass::Rgb,
    ensures
        forall|o: int|
            0 <= o < layout.bpp ==> #[trigger] slot[o] == if o == layout.r_off {
                r
            } else if o == layout.g_off {
                g
            } else if o == layout.b_off {
                b
            } else {
                0xFF
            },
{
    let mut slot: [u8; 4] = [0xFFu8; 4];
    slot[layout.r_off] = r;
    slot[layout.g_off] = g;
    slot[layout.b_off] = b;
    slot
}

/// Byte `o` of pixel `i` stands at its place in a row of `n` pixels.
proof fn lemma_byte_place(i: int, n: int, o: int, bpp: int)
    requires
        0 <= i < n,
        0 <= o < bpp,
    ensures
        0 <= i * bpp,
        i * bpp + bpp <= n * bpp,
        (i + 1) * bpp == i * bpp + bpp,
        (i * bpp + o) / bpp == i,
        (i * bpp + o) % bpp == o,
{
    assert(0 <= i * bpp && i * bpp + bpp <= n * bpp && (i + 1) * bpp == i * bpp + bpp) by (nonlinear_arith)
        requires
            0 <= i < n,
            0 < bpp,
    ;
    vstd::arithmetic::div_mod::lemma_fundamental_div_mod_converse(i * bpp + o, bpp, i, o);
}

/// Converts one row of `n` YCbCr samples to RGB in `layout`. The alpha or
/// pad byte of a four-byte pixel is set to `0xFF`; bytes past the first `n`
/// pixels are left alone.
pub fn ycc_row_to_rgb(y: &[u8], cb: &[u8], cr: &[u8], out: &mut [u8], n: usize, layout: PixelLayout)
    requires
        layout.wf(),
        layout.spec_class() == PixelClass::Rgb,
        n * layout.bpp <= old(out)@.len(),
        y@.len() >= n,
        cb@.len() >= n,
        cr@.len() >= n,
    ensures
        final(out)@.len() == old(out)@.len(),
        forall|k: int|
            0 <= k < old(out)@.len() ==> #[trigger] final(out)@[k] == if k < n * layout.bpp {
                pixel_byte(
                    layout,
                    k % layout.bpp as int,
                    y@[k / layout.bpp as int],
                    cb@[k / layout.bpp as int],
                    cr@[k / layout.bpp as int],
                )
            } else {
                old(out)@[k]
            },
{
    let len: usize = out.len();
    let bpp: usize = layout.bpp;
    let ghost before = out@;
    let ghost b = bpp as int;
    assert(0 * b == 0);
    for i in 0..n
        invariant
            layout.wf(),
            layout.spec_class() == PixelClass::Rgb,
            bpp == layout.bpp,
            b == bpp,
            n * b <= len,
            len == before.len(),
            out@.len() == before.len(),
            y@.len() >= n,
            cb@.len() >= n,
            cr@.len() >= n,
            forall|k: int|
                0 <= k < before.len() ==> #[trigger] out@[k] == if k < i * b {
                    pixel_byte(layout, k % b, y@[k / b], cb@[k / b], cr@[k / b])
                } else {
                    before[k]
                },
    {
        proof {
            lemma_byte_place(i as int, n as int, 0, b);
        }
        let rgb = rgb_lane(y[i], cb[i], cr[i]);
        let slot = pixel_slots(rgb.0, rgb.1, rgb.2, layout);
        let at: usize = i * bpp;
        for o in 0..bpp
            invariant
                i < n,
                bpp == layout.bpp,
                b == bpp,
                3 <= bpp <= 4,
                at == i * b,
                at + b <= n * b,
                n * b <= len,
                len == before.len(),
                out@.len() == before.len(),
                forall|o: int|
                    0 <= o < layout.bpp ==> #[trigger] slot[o] == pixel_byte(
                        layout,
                        o,
                        y@[i as int],
                        cb@[i as int],
                        cr@[i as int],
                    ),
                forall|k: int|
                    0 <= k < before.len() ==> #[trigger] out@[k] == if k < i * b + o {
                        pixel_byte(layout, k % b, y@[k / b], cb@[k / b], cr@[k / b])
                    } else {
                        before[k]
                    },
        {
            proof {
                lemma_byte_place(i as int, n as int, o as int, b);
            }
            out[at + o] = slot[o];
        }
    }
}

} // verus!
