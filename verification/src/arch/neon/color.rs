//! Color conversion and chroma resampling in vector lanes.

use vstd::prelude::*;

use crate::color::PixelLayout;
use crate::fixed::lemma_shr_u32;

verus! {

use crate::arch::scalar::color::{
    chroma_blue, chroma_red, h2v1_downsampled, h2v1_upsampled, h2v2_downsampled, h2v2_upsampled, luma, pixel_at,
    rgb_row_byte,
};

/// Forward transform of one pixel: widening multiply-accumulates, then a
/// narrowing shift that rounds for luma and truncates for chroma, whose
/// bias holds the rounding already.
fn ycc_lane(r: u8, g: u8, b: u8) -> (ycc: (u8, u8, u8))
    ensures
        ycc.0 == luma(r, g, b),
        ycc.1 == chroma_blue(r, g, b),
        ycc.2 == chroma_red(r, g, b),
{
    let r32 = r as u32;
    let g32 = g as u32;
    let b32 = b as u32;
    let mut y: u32 = r32 * 19595;
    y = y + g32 * 38470;
    y = y + b32 * 7471;
    let mut cb: u32 = 8421375;
    cb = cb - r32 * 11059;
    cb = cb - g32 * 21709;
    cb = cb + b32 * 32768;
    let mut cr: u32 = 8421375;
    cr = cr + r32 * 32768;
    cr = cr - g32 * 27439;
    cr = cr - b32 * 5329;
    proof {
        lemma_shr_u32((y + 32768) as u32);
        lemma_shr_u32(cb);
        lemma_shr_u32(cr);
    }
    (((y + 32768) >> 16) as u8, (cb >> 16) as u8, (cr >> 16) as u8)
}

/// Converts one row of 8 or 16 pixels to YCbCr, chroma centered on 128.
/// Samples past the first `n` of the three outputs are left alone.
pub fn rgb_row_to_ycc(
    pixels: &[u8],
    layout: PixelLayout,
    n: usize,
    y: &mut [u8],
    cb: &mut [u8],
    cr: &mut [u8],
)
    requires
        n == 8 || n == 16,
        layout.bpp == 3 || layout.bpp == 4,
        layout.offsets_in_pixel(),
        n * layout.bpp <= pixels@.len(),
        old(y)@.len() >= n,
        old(cb)@.len() >= n,
        old(cr)@.len() >= n,
    ensures
        final(y)@.len() == old(y)@.len(),
        final(cb)@.len() == old(cb)@.len(),
        final(cr)@.len() == old(cr)@.len(),
        forall|i: int|
            0 <= i < n ==> #[trigger] final(y)@[i] == ({
                let p = pixel_at(pixels@, layout, i);
                luma(p.0, p.1, p.2)
            }),
        forall|i: int|
            0 <= i < n ==> #[trigger] final(cb)@[i] == ({
                let p = pixel_at(pixels@, layout, i);
                chroma_blue(p.0, p.1, p.2)
            }),
        forall|i: int|
            0 <= i < n ==> #[trigger] final(cr)@[i] == ({
                let p = pixel_at(pixels@, layout, i);
                chroma_red(p.0, p.1, p.2)
            }),
        forall|i: int| n <= i < old(y)@.len() ==> #[trigger] final(y)@[i] == old(y)@[i],
        forall|i: int| n <= i < old(cb)@.len() ==> #[trigger] final(cb)@[i] == old(cb)@[i],
        forall|i: int| n <= i < old(cr)@.len() ==> #[trigger] final(cr)@[i] == old(cr)@[i],
{
    let ghost y0 = y@;
    let ghost cb0 = cb@;
    let ghost cr0 = cr@;
    for i in 0..n
        invariant
            n <= 16,
            layout.bpp == 3 || layout.bpp == 4,
            layout.offsets_in_pixel(),
            n * layout.bpp <= pixels@.len(),
            y@.len() == y0.len() >= n,
            cb@.len() == cb0.len() >= n,
            cr@.len() == cr0.len() >= n,
            forall|k: int|
                0 <= k < i ==> #[trigger] y@[k] == ({
                    let p = pixel_at(pixels@, layout, k);
                    luma(p.0, p.1, p.2)
                }),
            forall|k: int|
                0 <= k < i ==> #[trigger] cb@[k] == ({
                    let p = pixel_at(pixels@, layout, k);
                    chroma_blue(p.0, p.1, p.2)
                }),
            forall|k: int|
                0 <= k < i ==> #[trigger] cr@[k] == ({
                    let p = pixel_at(pixels@, layout, k);
                    chroma_red(p.0, p.1, p.2)
                }),
            forall|k: int| n <= k < y0.len() ==> #[trigger] y@[k] == y0[k],
            forall|k: int| n <= k < cb0.len() ==> #[trigger] cb@[k] == cb0[k],
            forall|k: int| n <= k < cr0.len() ==> #[trigger] cr@[k] == cr0[k],
    {
        let p: usize = if layout.bpp == 3 {
            i * 3
        } else {
            i * 4
        };
        let ycc = ycc_lane(pixels[p + layout.r_off], pixels[p + layout.g_off], pixels[p + layout.b_off]);
        y[i] = ycc.0;
        cb[i] = ycc.1;
        cr[i] = ycc.2;
    }
}

/// Reduces a 16x16 plane to 8x8 by a biased 2x2 average:
/// pairs are added into lanes that start at the bias, one row after the
/// other.
pub fn h2v2_downsample(src: &[u8; 256], dst: &mut [i16; 64])
    ensures
        final(dst)@ == h2v2_downsampled(src@),
{
    for k in 0..64usize
        invariant
            forall|m: int| 0 <= m < k ==> dst@[m] == h2v2_downsampled(src@)[m],
    {
        let at: usize = 32 * (k / 8) + 2 * (k % 8);
        let mut lane: u32 = 1 + (k % 2) as u32;
        lane = lane + (src[at] as u32 + src[at + 1] as u32);
        lane = lane + (src[at + 16] as u32 + src[at + 17] as u32);
        proof {
            lemma_shr_u32(lane);
        }
        dst[k] = (lane >> 2) as i16 - 128;
    }
    assert(dst@ =~= h2v2_downsampled(src@));
}

/// Reduces a 16x8 plane to 8x8 by averaging horizontal pairs.
pub fn h2v1_downsample(src: &[u8; 128], dst: &mut [i16; 64])
    ensures
        final(dst)@ == h2v1_downsampled(src@),
{
    for k in 0..64usize
        invariant
            forall|m: int| 0 <= m < k ==> dst@[m] == h2v1_downsampled(src@)[m],
    {
        let at: usize = 16 * (k / 8) + 2 * (k % 8);
        let mut lane: u32 = (k % 2) as u32;
        lane = lane + (src[at] as u32 + src[at + 1] as u32);
        proof {
            lemma_shr_u32(lane);
        }
        dst[k] = (lane >> 1) as i16 - 128;
    }
    assert(dst@ =~= h2v1_downsampled(src@));
}

/// Doubles an 8x8 plane in both axes by replication.
pub fn h2v2_upsample(src: &[u8; 64], dst: &mut [u8; 256])
    ensures
        final(dst)@ == h2v2_upsampled(src@),
{
    crate::arch::scalar::color::h2v2_upsample(src, dst);
}

/// Doubles an 8x8 plane horizontally by replication.
pub fn h2v1_upsample(src: &[u8; 64], dst: &mut [u8; 128])
    ensures
        final(dst)@ == h2v1_upsampled(src@),
{
    crate::arch::scalar::color::h2v1_upsample(src, dst);
}

/// Converts one row of `n` YCbCr samples to RGB in `layout`. See
/// [`crate::arch::scalar::color::ycc_row_to_rgb`].
pub fn ycc_row_to_rgb(y: &[u8], cb: &[u8], cr: &[u8], out: &mut [u8], n: usize, layout: PixelLayout)
    requires
        layout.offsets_in_pixel(),
        layout.bpp == 4 ==> 3 <= layout.r_off + layout.g_off + layout.b_off <= 6,
        n * layout.bpp <= old(out)@.len(),
        y@.len() >= n,
        cb@.len() >= n,
        cr@.len() >= n,
    ensures
        final(out)@.len() == old(out)@.len(),
        forall|k: int|
            0 <= k < old(out)@.len() ==> #[trigger] final(out)@[k] == if k < n * layout.bpp {
                rgb_row_byte(old(out)@, y@, cb@, cr@, layout, k)
            } else {
                old(out)@[k]
            },
{
    crate::arch::scalar::color::ycc_row_to_rgb(y, cb, cr, out, n, layout);
}

} // verus!
