//! Pixel layouts, and extraction of YCbCr blocks with edge replication.

use vstd::arithmetic::div_mod::{lemma_fundamental_div_mod, lemma_mod_bound};
use vstd::prelude::*;

use crate::arch::backend::color::{h2v1_downsample, h2v2_downsample, rgb_row_to_ycc};

verus! {

use crate::arch::scalar::color::{
    chroma_blue, chroma_red, h2v1_downsampled, h2v2_downsampled, is_rounded_mean, law_downsampling_is_the_mean,
    luma, pixel_at,
};
use crate::fixed::min_int;

/// Bytes per pixel and the offsets of the red, green and blue bytes within
/// a pixel. An alpha or pad byte lives at the leftover offset and is
/// ignored.
#[derive(Clone, Copy, Debug, PartialEq, Eq, Structural)]
pub struct PixelLayout {
    pub bpp: usize,
    pub r_off: usize,
    pub g_off: usize,
    pub b_off: usize,
    /// Set for the four-byte CMYK layout, which shares its pixel size with
    /// the four-byte color layouts. Branch through [`PixelLayout::class`]
    /// rather than on this field.
    pub is_cmyk: bool,
}

/// Category of a [`PixelLayout`].
#[derive(Clone, Copy, Debug, PartialEq, Eq, Structural)]
pub enum PixelClass {
    /// Three or four bytes with red, green and blue in some order.
    Rgb,
    /// One byte, which is luma.
    Gray,
    /// Four bytes C, M, Y, K, passed through without color conversion.
    Cmyk,
}

impl PixelLayout {
    /// The color bytes lie within a pixel.
    pub open spec fn offsets_in_pixel(&self) -> bool {
        &&& self.r_off < self.bpp
        &&& self.g_off < self.bpp
        &&& self.b_off < self.bpp
    }

    /// The category of the layout.
    pub open spec fn spec_class(&self) -> PixelClass {
        if self.bpp == 1 {
            PixelClass::Gray
        } else if self.is_cmyk {
            PixelClass::Cmyk
        } else {
            PixelClass::Rgb
        }
    }

    /// The category of the layout.
    pub fn class(&self) -> (c: PixelClass)
        ensures
            c == self.spec_class(),
    {
        if self.bpp == 1 {
            PixelClass::Gray
        } else if self.is_cmyk {
            PixelClass::Cmyk
        } else {
            PixelClass::Rgb
        }
    }
}

impl PixelLayout {
    /// One of the layouts that pixels are composed in: luma, CMYK, or three
    /// color bytes at different places of a pixel of three or four bytes.
    pub open spec fn wf(&self) -> bool {
        match self.spec_class() {
            PixelClass::Gray => true,
            PixelClass::Cmyk => self.bpp == 4,
            PixelClass::Rgb => {
                &&& self.bpp == 3 || self.bpp == 4
                &&& self.offsets_in_pixel()
                &&& self.r_off != self.g_off
                &&& self.g_off != self.b_off
                &&& self.b_off != self.r_off
            },
        }
    }
}

/// Red, green, blue.
#[verifier::allow_in_spec]
#[allow(non_snake_case)]
pub fn RGB() -> PixelLayout
    returns
        (PixelLayout { bpp: 3, r_off: 0, g_off: 1, b_off: 2, is_cmyk: false }),
{
    PixelLayout { bpp: 3, r_off: 0, g_off: 1, b_off: 2, is_cmyk: false }
}

/// Blue, green, red.
#[verifier::allow_in_spec]
#[allow(non_snake_case)]
pub fn BGR() -> PixelLayout
    returns
        (PixelLayout { bpp: 3, r_off: 2, g_off: 1, b_off: 0, is_cmyk: false }),
{
    PixelLayout { bpp: 3, r_off: 2, g_off: 1, b_off: 0, is_cmyk: false }
}

/// Red, green, blue, alpha.
#[verifier::allow_in_spec]
#[allow(non_snake_case)]
pub fn RGBA() -> PixelLayout
    returns
        (PixelLayout { bpp: 4, r_off: 0, g_off: 1, b_off: 2, is_cmyk: false }),
{
    PixelLayout { bpp: 4, r_off: 0, g_off: 1, b_off: 2, is_cmyk: false }
}

/// Blue, green, red, alpha.
#[verifier::allow_in_spec]
#[allow(non_snake_case)]
pub fn BGRA() -> PixelLayout
    returns
        (PixelLayout { bpp: 4, r_off: 2, g_off: 1, b_off: 0, is_cmyk: false }),
{
    PixelLayout { bpp: 4, r_off: 2, g_off: 1, b_off: 0, is_cmyk: false }
}

/// Alpha, red, green, blue.
#[verifier::allow_in_spec]
#[allow(non_snake_case)]
pub fn ARGB() -> PixelLayout
    returns
        (PixelLayout { bpp: 4, r_off: 1, g_off: 2, b_off: 3, is_cmyk: false }),
{
    PixelLayout { bpp: 4, r_off: 1, g_off: 2, b_off: 3, is_cmyk: false }
}

/// Alpha, blue, green, red.
#[verifier::allow_in_spec]
#[allow(non_snake_case)]
pub fn ABGR() -> PixelLayout
    returns
        (PixelLayout { bpp: 4, r_off: 3, g_off: 2, b_off: 1, is_cmyk: false }),
{
    PixelLayout { bpp: 4, r_off: 3, g_off: 2, b_off: 1, is_cmyk: false }
}

/// Red, green, blue, pad.
#[verifier::allow_in_spec]
#[allow(non_snake_case)]
pub fn RGBX() -> PixelLayout
    returns
        (PixelLayout { bpp: 4, r_off: 0, g_off: 1, b_off: 2, is_cmyk: false }),
{
    PixelLayout { bpp: 4, r_off: 0, g_off: 1, b_off: 2, is_cmyk: false }
}

/// Blue, green, red, pad.
#[verifier::allow_in_spec]
#[allow(non_snake_case)]
pub fn BGRX() -> PixelLayout
    returns
        (PixelLayout { bpp: 4, r_off: 2, g_off: 1, b_off: 0, is_cmyk: false }),
{
    PixelLayout { bpp: 4, r_off: 2, g_off: 1, b_off: 0, is_cmyk: false }
}

/// One byte per pixel, which is luma. The color offsets are placeholders.
#[verifier::allow_in_spec]
#[allow(non_snake_case)]
pub fn GRAY() -> PixelLayout
    returns
        (PixelLayout { bpp: 1, r_off: 0, g_off: 0, b_off: 0, is_cmyk: false }),
{
    PixelLayout { bpp: 1, r_off: 0, g_off: 0, b_off: 0, is_cmyk: false }
}

/// Four bytes C, M, Y, K. The color offsets are placeholders.
#[verifier::allow_in_spec]
#[allow(non_snake_case)]
pub fn CMYK() -> PixelLayout
    returns
        (PixelLayout { bpp: 4, r_off: 0, g_off: 0, b_off: 0, is_cmyk: true }),
{
    PixelLayout { bpp: 4, r_off: 0, g_off: 0, b_off: 0, is_cmyk: true }
}

/// How the pixels that go in or come out are laid out.
#[derive(Clone, Copy, Debug, PartialEq, Eq, Structural)]
pub enum PixelFormat {
    /// Red, green, blue.
    Rgb,
    /// Blue, green, red.
    Bgr,
    /// Red, green, blue, alpha.
    Rgba,
    /// Blue, green, red, alpha.
    Bgra,
    /// Alpha, red, green, blue.
    Argb,
    /// Alpha, blue, green, red.
    Abgr,
    /// Red, green, blue, pad.
    Rgbx,
    /// Blue, green, red, pad.
    Bgrx,
    /// Luma only.
    Gray,
    /// Cyan, magenta, yellow, black, without color conversion.
    Cmyk,
}

impl PixelFormat {
    /// The byte layout of the format.
    pub open spec fn spec_layout(self) -> PixelLayout {
        match self {
            PixelFormat::Rgb => RGB(),
            PixelFormat::Bgr => BGR(),
            PixelFormat::Rgba => RGBA(),
            PixelFormat::Bgra => BGRA(),
            PixelFormat::Argb => ARGB(),
            PixelFormat::Abgr => ABGR(),
            PixelFormat::Rgbx => RGBX(),
            PixelFormat::Bgrx => BGRX(),
            PixelFormat::Gray => GRAY(),
            PixelFormat::Cmyk => CMYK(),
        }
    }
}

impl vstd::std_specs::convert::FromSpecImpl<PixelFormat> for PixelLayout {
    open spec fn obeys_from_spec() -> bool {
        true
    }

    open spec fn from_spec(format: PixelFormat) -> PixelLayout {
        format.spec_layout()
    }
}

impl From<PixelFormat> for PixelLayout {
    fn from(format: PixelFormat) -> (layout: PixelLayout) {
        match format {
            PixelFormat::Rgb => RGB(),
            PixelFormat::Bgr => BGR(),
            PixelFormat::Rgba => RGBA(),
            PixelFormat::Bgra => BGRA(),
            PixelFormat::Argb => ARGB(),
            PixelFormat::Abgr => ABGR(),
            PixelFormat::Rgbx => RGBX(),
            PixelFormat::Bgrx => BGRX(),
            PixelFormat::Gray => GRAY(),
            PixelFormat::Cmyk => CMYK(),
        }
    }
}

/// Channel `c` of a pixel in YCbCr: 0 is luma, 1 is Cb, 2 is Cr.
pub open spec fn ycc_channel(p: (u8, u8, u8), c: int) -> u8 {
    if c == 0 {
        luma(p.0, p.1, p.2)
    } else if c == 1 {
        chroma_blue(p.0, p.1, p.2)
    } else {
        chroma_red(p.0, p.1, p.2)
    }
}

/// Index, in pixels, of position `(x, y)` of an image. Positions right of
/// the image or below it fall on its last column or row.
pub open spec fn edge_index(width: int, height: int, x: int, y: int) -> int {
    min_int(y, height - 1) * width + min_int(x, width - 1)
}

/// A window of `w` by `h` samples of one channel at `(x0, y0)`, with the
/// edges of the image replicated.
pub open spec fn window(
    pixels: Seq<u8>,
    width: int,
    height: int,
    layout: PixelLayout,
    x0: int,
    y0: int,
    w: int,
    h: int,
    c: int,
) -> Seq<u8> {
    Seq::new(
        (w * h) as nat,
        |k: int|
            ycc_channel(pixel_at(pixels, layout, edge_index(width, height, x0 + k % w, y0 + k / w)), c),
    )
}

/// The same for a window that lies within the image, which takes no notice
/// of the edges.
pub open spec fn inner_window(
    pixels: Seq<u8>,
    width: int,
    layout: PixelLayout,
    x0: int,
    y0: int,
    w: int,
    h: int,
    c: int,
) -> Seq<u8> {
    Seq::new(
        (w * h) as nat,
        |k: int| ycc_channel(pixel_at(pixels, layout, (y0 + k / w) * width + x0 + k % w), c),
    )
}

/// Samples moved from `0..=255` to `-128..=127`.
pub open spec fn level_shifted(samples: Seq<u8>) -> Seq<i16> {
    Seq::new(samples.len(), |k: int| (samples[k] - 128) as i16)
}

/// The 8x8 block at block column `bx` and block row `by` of a plane that is
/// 16 samples wide, level-shifted.
pub open spec fn block_of_16(plane: Seq<u8>, bx: int, by: int) -> Seq<i16> {
    Seq::new(64, |k: int| (plane[16 * (8 * by + k / 8) + 8 * bx + k % 8] - 128) as i16)
}

/// `pixels` holds an image of `width` by `height` pixels, neither zero, in
/// a three- or four-byte color layout.
pub open spec fn holds_image(pixels: Seq<u8>, width: int, height: int, layout: PixelLayout) -> bool {
    &&& width >= 1
    &&& height >= 1
    &&& layout.bpp == 3 || layout.bpp == 4
    &&& layout.offsets_in_pixel()
    &&& width * height * layout.bpp <= pixels.len()
}

/// `pixels` holds the packed RGB rows that a window of `w` by `h` pixels at
/// `(x0, y0)` needs, and the window does not leave the image at the right.
pub open spec fn holds_rgb_window(pixels: Seq<u8>, width: int, x0: int, y0: int, w: int, h: int) -> bool {
    &&& x0 + w <= width
    &&& ((y0 + h - 1) * width + x0 + w) * 3 <= pixels.len()
}

/// Within the image, edge replication has nothing to do: the windows that
/// the edge-aware and the edge-unaware extraction read are the same.
pub proof fn law_inner_window_needs_no_edges(
    pixels: Seq<u8>,
    width: int,
    height: int,
    layout: PixelLayout,
    x0: int,
    y0: int,
    w: int,
    h: int,
    c: int,
)
    requires
        0 <= x0,
        0 <= y0,
        0 < w,
        0 < h,
        x0 + w <= width,
        y0 + h <= height,
    ensures
        window(pixels, width, height, layout, x0, y0, w, h, c) == inner_window(
            pixels,
            width,
            layout,
            x0,
            y0,
            w,
            h,
            c,
        ),
{
    let a = window(pixels, width, height, layout, x0, y0, w, h, c);
    let b = inner_window(pixels, width, layout, x0, y0, w, h, c);
    assert forall|k: int| 0 <= k < w * h implies a[k] == b[k] by {
        lemma_window_position(k, w, h);
    }
    assert(a =~= b);
}

/// Sample `(x, y)` of an MCU whose 8x8 blocks stand in raster order,
/// `across` of them in a row.
pub open spec fn mcu_sample(blocks: Seq<[i16; 64]>, across: int, x: int, y: int) -> i16 {
    blocks[across * (y / 8) + x / 8]@[8 * (y % 8) + x % 8]
}

/// Every luma sample of an MCU has a place of its own: sample `(x, y)` of
/// the four blocks of a 16x16 MCU, or of the two of a 16x8 one, is the luma
/// of the pixel at that distance from the corner, less 128. The nearest
/// pixel of the image stands in for one outside it.
pub proof fn law_mcu_luma_is_in_place(
    pixels: Seq<u8>,
    width: int,
    height: int,
    layout: PixelLayout,
    x0: int,
    y0: int,
    x: int,
    y: int,
)
    requires
        0 <= x < 16,
        0 <= y < 16,
    ensures
        ({
            let col = if x0 + x < width {
                x0 + x
            } else {
                width - 1
            };
            let row = if y0 + y < height {
                y0 + y
            } else {
                height - 1
            };
            let at = (row * width + col) * layout.bpp;
            let want = luma(
                pixels[at + layout.r_off],
                pixels[at + layout.g_off],
                pixels[at + layout.b_off],
            ) - 128;
            let tall = window(pixels, width, height, layout, x0, y0, 16, 16, 0);
            let flat = window(pixels, width, height, layout, x0, y0, 16, 8, 0);
            &&& block_of_16(tall, x / 8, y / 8)[8 * (y % 8) + x % 8] == want
            &&& y < 8 ==> block_of_16(flat, x / 8, 0)[8 * y + x % 8] == want
        }),
{
    let k = 8 * (y % 8) + x % 8;
    assert(k / 8 == y % 8 && k % 8 == x % 8);
    assert(16 * (8 * (y / 8) + k / 8) + 8 * (x / 8) + k % 8 == 16 * y + x);
    assert((16 * y + x) % 16 == x && (16 * y + x) / 16 == y);
}

/// Sample `(x, y)` of a single block is the channel of the pixel at that
/// distance from the corner, less 128. The nearest pixel of the image stands
/// in for one outside it.
pub proof fn law_block_samples_are_in_place(
    pixels: Seq<u8>,
    width: int,
    height: int,
    layout: PixelLayout,
    x0: int,
    y0: int,
    x: int,
    y: int,
    channel: int,
)
    requires
        0 <= x < 8,
        0 <= y < 8,
    ensures
        ({
            let col = if x0 + x < width {
                x0 + x
            } else {
                width - 1
            };
            let row = if y0 + y < height {
                y0 + y
            } else {
                height - 1
            };
            let at = (row * width + col) * layout.bpp;
            let (r, g, b) = (pixels[at + layout.r_off], pixels[at + layout.g_off], pixels[at + layout.b_off]);
            let of = |c: int| level_shifted(window(pixels, width, height, layout, x0, y0, 8, 8, c))[8 * y + x];
            &&& of(0) == luma(r, g, b) - 128
            &&& of(1) == chroma_blue(r, g, b) - 128
            &&& of(2) == chroma_red(r, g, b) - 128
            &&& channel_block(pixels, width, height, layout.bpp as int, x0, y0, channel)[8 * y + x] == pixels[at
                + channel] - 128
        }),
{
    assert((8 * y + x) / 8 == y && (8 * y + x) % 8 == x);
}

/// Sample `(x, y)` of a window 16 samples wide.
proof fn lemma_window_sample(
    pixels: Seq<u8>,
    width: int,
    height: int,
    layout: PixelLayout,
    x0: int,
    y0: int,
    h: int,
    c: int,
    x: int,
    y: int,
)
    requires
        0 <= x < 16,
        0 <= y < h,
    ensures
        window(pixels, width, height, layout, x0, y0, 16, h, c)[16 * y + x] == ycc_channel(
            pixel_at(pixels, layout, edge_index(width, height, x0 + x, y0 + y)),
            c,
        ),
        window(pixels, width, height, layout, x0, y0, 16, h, c).len() == 16 * h,
{
    let k = 16 * y + x;
    assert(k % 16 == x && k / 16 == y);
}

/// The chroma block of an MCU takes each of its samples from the pixels that
/// the sample covers: sample `(x, y)` of a 4:2:0 block is the rounded mean
/// over columns `2 x` and `2 x + 1` and rows `2 y` and `2 y + 1`, and that of
/// a 4:2:2 block the rounded mean over the two columns of row `y`.
pub proof fn law_mcu_chroma_is_in_place(
    pixels: Seq<u8>,
    width: int,
    height: int,
    layout: PixelLayout,
    x0: int,
    y0: int,
    x: int,
    y: int,
    c: int,
)
    requires
        0 <= x < 8,
        0 <= y < 8,
    ensures
        ({
            let at = |dx: int, dy: int|
                ycc_channel(pixel_at(pixels, layout, edge_index(width, height, x0 + dx, y0 + dy)), c) as int;
            let tall = window(pixels, width, height, layout, x0, y0, 16, 16, c);
            let flat = window(pixels, width, height, layout, x0, y0, 16, 8, c);
            &&& is_rounded_mean(
                h2v2_downsampled(tall)[8 * y + x] + 128,
                at(2 * x, 2 * y) + at(2 * x + 1, 2 * y) + at(2 * x, 2 * y + 1) + at(2 * x + 1, 2 * y + 1),
                4,
                x % 2 == 1,
            )
            &&& is_rounded_mean(
                h2v1_downsampled(flat)[8 * y + x] + 128,
                at(2 * x, y) + at(2 * x + 1, y),
                2,
                x % 2 == 1,
            )
        }),
{
    let tall = window(pixels, width, height, layout, x0, y0, 16, 16, c);
    let flat = window(pixels, width, height, layout, x0, y0, 16, 8, c);
    law_downsampling_is_the_mean(tall, flat, x, y);
    lemma_window_sample(pixels, width, height, layout, x0, y0, 16, c, 2 * x, 2 * y);
    lemma_window_sample(pixels, width, height, layout, x0, y0, 16, c, 2 * x + 1, 2 * y);
    lemma_window_sample(pixels, width, height, layout, x0, y0, 16, c, 2 * x, 2 * y + 1);
    lemma_window_sample(pixels, width, height, layout, x0, y0, 16, c, 2 * x + 1, 2 * y + 1);
    lemma_window_sample(pixels, width, height, layout, x0, y0, 8, c, 2 * x, y);
    lemma_window_sample(pixels, width, height, layout, x0, y0, 8, c, 2 * x + 1, y);
}

/// Row and column of position `k` in a window.
proof fn lemma_window_position(k: int, w: int, h: int)
    requires
        0 < w,
        0 <= k < w * h,
    ensures
        0 <= k % w < w,
        0 <= k / w < h,
        k == w * (k / w) + k % w,
{
    lemma_fundamental_div_mod(k, w);
    lemma_mod_bound(k, w);
    assert(k / w < h) by (nonlinear_arith)
        requires
            k == w * (k / w) + k % w,
            0 <= k % w,
            k < w * h,
            w > 0,
    ;
    assert(0 <= k / w) by (nonlinear_arith)
        requires
            k == w * (k / w) + k % w,
            k % w < w,
            k >= 0,
            w > 0,
    ;
}

/// A pixel of the image lies within the bytes that hold it.
proof fn lemma_pixel_in_image(i: int, width: int, height: int, x: int, y: int, bpp: int, len: int)
    requires
        0 <= x < width,
        0 <= y < height,
        0 <= bpp,
        i == y * width + x,
        width * height * bpp <= len,
    ensures
        0 <= i < width * height,
        0 <= i * bpp,
        i * bpp + bpp <= len,
{
    assert(0 <= i < width * height) by (nonlinear_arith)
        requires
            0 <= x < width,
            0 <= y < height,
            i == y * width + x,
    ;
    assert(i * bpp + bpp <= width * height * bpp) by (nonlinear_arith)
        requires
            0 <= i < width * height,
            0 <= bpp,
    ;
    assert(0 <= i * bpp) by (nonlinear_arith)
        requires
            0 <= i,
            0 <= bpp,
    ;
}

/// Converts `n` consecutive pixels, from pixel `start` on, to YCbCr.
fn convert_run(pixels: &[u8], layout: PixelLayout, start: usize, n: usize) -> (r: (Vec<u8>, Vec<u8>, Vec<u8>))
    requires
        layout.offsets_in_pixel(),
        (start + n) * layout.bpp <= pixels@.len(),
    ensures
        r.0@ == Seq::new(n as nat, |i: int| ycc_channel(pixel_at(pixels@, layout, start + i), 0)),
        r.1@ == Seq::new(n as nat, |i: int| ycc_channel(pixel_at(pixels@, layout, start + i), 1)),
        r.2@ == Seq::new(n as nat, |i: int| ycc_channel(pixel_at(pixels@, layout, start + i), 2)),
{
    let mut y = vec![0u8; n];
    let mut cb = vec![0u8; n];
    let mut cr = vec![0u8; n];
    let len: usize = pixels.len();
    let ghost bpp = layout.bpp as int;
    assert((start + n) * bpp == start * bpp + n * bpp) by (nonlinear_arith);
    assert(start * bpp >= 0 && n * bpp >= 0) by (nonlinear_arith)
        requires
            start >= 0,
            n >= 0,
            bpp >= 0,
    ;
    assert(start + n <= len) by (nonlinear_arith)
        requires
            (start + n) * bpp <= len,
            bpp >= 1,
            start + n >= 0,
    ;
    let lo: usize = start * layout.bpp;
    let hi: usize = (start + n) * layout.bpp;
    let run = &pixels[lo..hi];
    assert forall|i: int| 0 <= i < n implies #[trigger] pixel_at(run@, layout, i) == pixel_at(
        pixels@,
        layout,
        start + i,
    ) by {
        assert((start + i) * bpp == start * bpp + i * bpp) by (nonlinear_arith);
        assert(0 <= i * bpp && i * bpp + bpp <= n * bpp) by (nonlinear_arith)
            requires
                0 <= i < n,
                bpp >= 0,
        ;
    }
    rgb_row_to_ycc(run, layout, n, y.as_mut_slice(), cb.as_mut_slice(), cr.as_mut_slice());
    assert(y@ =~= Seq::new(n as nat, |i: int| ycc_channel(pixel_at(pixels@, layout, start + i), 0)));
    assert(cb@ =~= Seq::new(n as nat, |i: int| ycc_channel(pixel_at(pixels@, layout, start + i), 1)));
    assert(cr@ =~= Seq::new(n as nat, |i: int| ycc_channel(pixel_at(pixels@, layout, start + i), 2)));
    (y, cb, cr)
}

/// Gathers `n` pixels of row `sy` from column `x0` on, replicating the
/// last column of the image.
fn build_padded_row(pixels: &[u8], width: u32, Ghost(height): Ghost<int>, layout: PixelLayout, x0: u32, sy: usize, n: usize) -> (out: Vec<u8>)
    requires
        holds_image(pixels@, width as int, height, layout),
        0 <= sy < height,
        n <= 16,
    ensures
        out@.len() == n * layout.bpp,
        forall|i: int|
            0 <= i < n ==> #[trigger] pixel_at(out@, layout, i) == pixel_at(
                pixels@,
                layout,
                sy * width + min_int(x0 + i, width - 1),
            ),
{
    let bpp = layout.bpp;
    let len: usize = pixels.len();
    let mut out: Vec<u8> = Vec::new();
    assert(0 * bpp == 0);
    for i in 0..n
        invariant
            holds_image(pixels@, width as int, height, layout),
            0 <= sy < height,
            n <= 16,
            bpp == layout.bpp,
            len == pixels@.len(),
            out@.len() == i * bpp,
            forall|k: int|
                0 <= k < i ==> #[trigger] pixel_at(out@, layout, k) == pixel_at(
                    pixels@,
                    layout,
                    sy * width + min_int(x0 + k, width - 1),
                ),
    {
        let want: u64 = x0 as u64 + i as u64;
        let max_x: u64 = (width - 1) as u64;
        let sx: usize = if want < max_x {
            want as usize
        } else {
            max_x as usize
        };
        let ghost at = sy * width + sx;
        proof {
            lemma_pixel_in_image(at, width as int, height, sx as int, sy as int, bpp as int, len as int);
            assert(at <= at * bpp) by (nonlinear_arith)
                requires
                    0 <= at,
                    1 <= bpp,
            ;
            assert(0 <= sy * width) by (nonlinear_arith)
                requires
                    0 <= sy,
                    0 <= width,
            ;
        }
        let src: usize = (sy * (width as usize) + sx) * bpp;
        let ghost before = out@;
        out.push(pixels[src]);
        out.push(pixels[src + 1]);
        out.push(pixels[src + 2]);
        if bpp == 4 {
            out.push(pixels[src + 3]);
        }
        proof {
            assert((i + 1) * bpp == i * bpp + bpp) by (nonlinear_arith);
            assert forall|k: int| 0 <= k < i + 1 implies #[trigger] pixel_at(out@, layout, k) == pixel_at(
                pixels@,
                layout,
                sy * width + min_int(x0 + k, width - 1),
            ) by {
                if k < i {
                    assert(pixel_at(before, layout, k) == pixel_at(out@, layout, k)) by {
                        assert(0 <= k * bpp && k * bpp + bpp <= i * bpp) by (nonlinear_arith)
                            requires
                                0 <= k < i,
                                bpp >= 0,
                        ;
                    }
                }
            }
        }
    }
    out
}

/// Row `j` of a window of width `n`, in all three channels.
fn window_row(
    pixels: &[u8],
    width: u32,
    height: u32,
    layout: PixelLayout,
    x0: u32,
    y0: u32,
    j: usize,
    n: usize,
) -> (r: (Vec<u8>, Vec<u8>, Vec<u8>))
    requires
        holds_image(pixels@, width as int, height as int, layout),
        1 <= n <= 16,
        j < 16,
    ensures
        r.0@ == Seq::new(
            n as nat,
            |i: int|
                ycc_channel(
                    pixel_at(pixels@, layout, edge_index(width as int, height as int, x0 + i, y0 + j)),
                    0,
                ),
        ),
        r.1@ == Seq::new(
            n as nat,
            |i: int|
                ycc_channel(
                    pixel_at(pixels@, layout, edge_index(width as int, height as int, x0 + i, y0 + j)),
                    1,
                ),
        ),
        r.2@ == Seq::new(
            n as nat,
            |i: int|
                ycc_channel(
                    pixel_at(pixels@, layout, edge_index(width as int, height as int, x0 + i, y0 + j)),
                    2,
                ),
        ),
{
    let len: usize = pixels.len();
    let want: u64 = y0 as u64 + j as u64;
    let max_y: u64 = (height - 1) as u64;
    let sy: usize = if want < max_y {
        want as usize
    } else {
        max_y as usize
    };
    let ghost bpp = layout.bpp as int;
    if x0 as u64 + n as u64 > width as u64 {
        let row = build_padded_row(pixels, width, Ghost(height as int), layout, x0, sy, n);
        let r = convert_run(row.as_slice(), layout, 0, n);
        assert forall|i: int| 0 <= i < n implies #[trigger] pixel_at(row@, layout, 0 + i) == pixel_at(
            pixels@,
            layout,
            edge_index(width as int, height as int, x0 + i, y0 + j),
        ) by {
            assert(pixel_at(row@, layout, i) == pixel_at(
                pixels@,
                layout,
                sy * width + min_int(x0 + i, width - 1),
            ));
        }
        r
    } else {
        let ghost last = sy * width + x0 + n - 1;
        proof {
            lemma_pixel_in_image(last, width as int, height as int, x0 + n - 1, sy as int, bpp, len as int);
            assert((last + 1) * bpp == last * bpp + bpp) by (nonlinear_arith);
            assert(last + 1 <= (last + 1) * bpp) by (nonlinear_arith)
                requires
                    0 <= last,
                    1 <= bpp,
            ;
            assert(0 <= sy * width) by (nonlinear_arith)
                requires
                    0 <= sy,
                    0 <= width,
            ;
        }
        let start: usize = sy * (width as usize) + x0 as usize;
        let r = convert_run(pixels, layout, start, n);
        assert forall|i: int| 0 <= i < n implies #[trigger] pixel_at(pixels@, layout, start + i) == pixel_at(
            pixels@,
            layout,
            edge_index(width as int, height as int, x0 + i, y0 + j),
        ) by {}
        r
    }
}

/// Row `j` of a window of packed RGB of width `n` that lies within the
/// image, in all three channels.
fn inner_window_row(
    pixels: &[u8],
    width: u32,
    x0: u32,
    y0: u32,
    j: usize,
    n: usize,
    Ghost(h): Ghost<int>,
) -> (r: (Vec<u8>, Vec<u8>, Vec<u8>))
    requires
        holds_rgb_window(pixels@, width as int, x0 as int, y0 as int, n as int, h),
        1 <= n <= 16,
        0 <= j < h,
    ensures
        r.0@ == Seq::new(
            n as nat,
            |i: int| ycc_channel(pixel_at(pixels@, RGB(), (y0 + j) * width + x0 + i), 0),
        ),
        r.1@ == Seq::new(
            n as nat,
            |i: int| ycc_channel(pixel_at(pixels@, RGB(), (y0 + j) * width + x0 + i), 1),
        ),
        r.2@ == Seq::new(
            n as nat,
            |i: int| ycc_channel(pixel_at(pixels@, RGB(), (y0 + j) * width + x0 + i), 2),
        ),
{
    let len: usize = pixels.len();
    proof {
        let row = (y0 + j) * width;
        assert(row <= (y0 + h - 1) * width) by (nonlinear_arith)
            requires
                j < h,
                row == (y0 + j) * width,
                width >= 0,
        ;
        assert(0 <= row) by (nonlinear_arith)
            requires
                0 <= y0,
                0 <= j,
                0 <= width,
                row == (y0 + j) * width,
        ;
        assert(y0 + j <= row) by (nonlinear_arith)
            requires
                0 <= y0,
                0 <= j,
                1 <= width,
                row == (y0 + j) * width,
        ;
    }
    let start: usize = (y0 as usize + j) * (width as usize) + x0 as usize;
    let r = convert_run(pixels, RGB(), start, n);
    assert(r.0@ =~= Seq::new(
        n as nat,
        |i: int| ycc_channel(pixel_at(pixels@, RGB(), (y0 + j) * width + x0 + i), 0),
    ));
    assert(r.1@ =~= Seq::new(
        n as nat,
        |i: int| ycc_channel(pixel_at(pixels@, RGB(), (y0 + j) * width + x0 + i), 1),
    ));
    assert(r.2@ =~= Seq::new(
        n as nat,
        |i: int| ycc_channel(pixel_at(pixels@, RGB(), (y0 + j) * width + x0 + i), 2),
    ));
    r
}

/// Stores a row of samples as row `j` of a block, level-shifted.
fn store_shifted_row(block: &mut [i16; 64], j: usize, row: &Vec<u8>)
    requires
        j < 8,
        row@.len() == 8,
    ensures
        forall|k: int|
            0 <= k < 64 ==> #[trigger] final(block)@[k] == if k / 8 == j {
                row@[k % 8] - 128
            } else {
                old(block)@[k] as int
            },
{
    let ghost before = block@;
    for i in 0..8usize
        invariant
            j < 8,
            row@.len() == 8,
            forall|k: int|
                0 <= k < 64 ==> #[trigger] block@[k] == if k / 8 == j && k % 8 < i {
                    row@[k % 8] - 128
                } else {
                    before[k] as int
                },
    {
        block[j * 8 + i] = row[i] as i16 - 128;
    }
}

/// Extracts the 8x8 block of each of Y, Cb and Cr at `(x0, y0)`,
/// level-shifted, with the edges of the image replicated.
pub fn extract_block_ycbcr(
    pixels: &[u8],
    width: u32,
    height: u32,
    layout: PixelLayout,
    x0: u32,
    y0: u32,
    y_block: &mut [i16; 64],
    cb_block: &mut [i16; 64],
    cr_block: &mut [i16; 64],
)
    requires
        holds_image(pixels@, width as int, height as int, layout),
    ensures
        final(y_block)@ == level_shifted(window(pixels@, width as int, height as int, layout, x0 as int, y0 as int, 8, 8, 0)),
        final(cb_block)@ == level_shifted(window(pixels@, width as int, height as int, layout, x0 as int, y0 as int, 8, 8, 1)),
        final(cr_block)@ == level_shifted(window(pixels@, width as int, height as int, layout, x0 as int, y0 as int, 8, 8, 2)),
{
    for j in 0..8usize
        invariant
            holds_image(pixels@, width as int, height as int, layout),
            forall|k: int| 0 <= k < 8 * j ==> #[trigger] y_block@[k] == level_shifted(window(pixels@, width as int, height as int, layout, x0 as int, y0 as int, 8, 8, 0))[k],
            forall|k: int| 0 <= k < 8 * j ==> #[trigger] cb_block@[k] == level_shifted(window(pixels@, width as int, height as int, layout, x0 as int, y0 as int, 8, 8, 1))[k],
            forall|k: int| 0 <= k < 8 * j ==> #[trigger] cr_block@[k] == level_shifted(window(pixels@, width as int, height as int, layout, x0 as int, y0 as int, 8, 8, 2))[k],
    {
        let row = window_row(pixels, width, height, layout, x0, y0, j, 8);
        store_shifted_row(y_block, j, &row.0);
        store_shifted_row(cb_block, j, &row.1);
        store_shifted_row(cr_block, j, &row.2);
    }
    assert(y_block@ =~= level_shifted(window(pixels@, width as int, height as int, layout, x0 as int, y0 as int, 8, 8, 0)));
    assert(cb_block@ =~= level_shifted(window(pixels@, width as int, height as int, layout, x0 as int, y0 as int, 8, 8, 1)));
    assert(cr_block@ =~= level_shifted(window(pixels@, width as int, height as int, layout, x0 as int, y0 as int, 8, 8, 2)));
}

/// Extracts the 8x8 block of each of Y, Cb and Cr at `(x0, y0)` from packed
/// RGB, level-shifted. The block lies within the image.
pub fn extract_block_ycbcr_rgb_full(
    pixels: &[u8],
    width: u32,
    x0: u32,
    y0: u32,
    y_block: &mut [i16; 64],
    cb_block: &mut [i16; 64],
    cr_block: &mut [i16; 64],
)
    requires
        holds_rgb_window(pixels@, width as int, x0 as int, y0 as int, 8, 8),
    ensures
        final(y_block)@ == level_shifted(inner_window(pixels@, width as int, RGB(), x0 as int, y0 as int, 8, 8, 0)),
        final(cb_block)@ == level_shifted(inner_window(pixels@, width as int, RGB(), x0 as int, y0 as int, 8, 8, 1)),
        final(cr_block)@ == level_shifted(inner_window(pixels@, width as int, RGB(), x0 as int, y0 as int, 8, 8, 2)),
{
    for j in 0..8usize
        invariant
            holds_rgb_window(pixels@, width as int, x0 as int, y0 as int, 8, 8),
            forall|k: int| 0 <= k < 8 * j ==> #[trigger] y_block@[k] == level_shifted(inner_window(pixels@, width as int, RGB(), x0 as int, y0 as int, 8, 8, 0))[k],
            forall|k: int| 0 <= k < 8 * j ==> #[trigger] cb_block@[k] == level_shifted(inner_window(pixels@, width as int, RGB(), x0 as int, y0 as int, 8, 8, 1))[k],
            forall|k: int| 0 <= k < 8 * j ==> #[trigger] cr_block@[k] == level_shifted(inner_window(pixels@, width as int, RGB(), x0 as int, y0 as int, 8, 8, 2))[k],
    {
        let row = inner_window_row(pixels, width, x0, y0, j, 8, Ghost(8));
        store_shifted_row(y_block, j, &row.0);
        store_shifted_row(cb_block, j, &row.1);
        store_shifted_row(cr_block, j, &row.2);
    }
    assert(y_block@ =~= level_shifted(inner_window(pixels@, width as int, RGB(), x0 as int, y0 as int, 8, 8, 0)));
    assert(cb_block@ =~= level_shifted(inner_window(pixels@, width as int, RGB(), x0 as int, y0 as int, 8, 8, 1)));
    assert(cr_block@ =~= level_shifted(inner_window(pixels@, width as int, RGB(), x0 as int, y0 as int, 8, 8, 2)));
}

/// Reads a window 16 samples wide and `h` high.
fn read_window(
    pixels: &[u8],
    width: u32,
    height: u32,
    layout: PixelLayout,
    x0: u32,
    y0: u32,
    h: usize,
) -> (r: (Vec<u8>, Vec<u8>, Vec<u8>))
    requires
        holds_image(pixels@, width as int, height as int, layout),
        h <= 16,
    ensures
        r.0@ == window(pixels@, width as int, height as int, layout, x0 as int, y0 as int, 16, h as int, 0),
        r.1@ == window(pixels@, width as int, height as int, layout, x0 as int, y0 as int, 16, h as int, 1),
        r.2@ == window(pixels@, width as int, height as int, layout, x0 as int, y0 as int, 16, h as int, 2),
{
    let mut y: Vec<u8> = Vec::new();
    let mut cb: Vec<u8> = Vec::new();
    let mut cr: Vec<u8> = Vec::new();
    for j in 0..h
        invariant
            holds_image(pixels@, width as int, height as int, layout),
            h <= 16,
            y@ == window(pixels@, width as int, height as int, layout, x0 as int, y0 as int, 16, j as int, 0),
            cb@ == window(pixels@, width as int, height as int, layout, x0 as int, y0 as int, 16, j as int, 1),
            cr@ == window(pixels@, width as int, height as int, layout, x0 as int, y0 as int, 16, j as int, 2),
    {
        let mut row = window_row(pixels, width, height, layout, x0, y0, j, 16);
        y.append(&mut row.0);
        cb.append(&mut row.1);
        cr.append(&mut row.2);
        assert(y@ =~= window(pixels@, width as int, height as int, layout, x0 as int, y0 as int, 16, (j + 1) as int, 0));
        assert(cb@ =~= window(pixels@, width as int, height as int, layout, x0 as int, y0 as int, 16, (j + 1) as int, 1));
        assert(cr@ =~= window(pixels@, width as int, height as int, layout, x0 as int, y0 as int, 16, (j + 1) as int, 2));
    }
    (y, cb, cr)
}

/// Reads a window of packed RGB 16 samples wide and `h` high that lies
/// within the image.
fn read_inner_window(pixels: &[u8], width: u32, x0: u32, y0: u32, h: usize) -> (r: (Vec<u8>, Vec<u8>, Vec<u8>))
    requires
        holds_rgb_window(pixels@, width as int, x0 as int, y0 as int, 16, h as int),
        h <= 16,
    ensures
        r.0@ == inner_window(pixels@, width as int, RGB(), x0 as int, y0 as int, 16, h as int, 0),
        r.1@ == inner_window(pixels@, width as int, RGB(), x0 as int, y0 as int, 16, h as int, 1),
        r.2@ == inner_window(pixels@, width as int, RGB(), x0 as int, y0 as int, 16, h as int, 2),
{
    let mut y: Vec<u8> = Vec::new();
    let mut cb: Vec<u8> = Vec::new();
    let mut cr: Vec<u8> = Vec::new();
    for j in 0..h
        invariant
            holds_rgb_window(pixels@, width as int, x0 as int, y0 as int, 16, h as int),
            h <= 16,
            y@ == inner_window(pixels@, width as int, RGB(), x0 as int, y0 as int, 16, j as int, 0),
            cb@ == inner_window(pixels@, width as int, RGB(), x0 as int, y0 as int, 16, j as int, 1),
            cr@ == inner_window(pixels@, width as int, RGB(), x0 as int, y0 as int, 16, j as int, 2),
    {
        let mut row = inner_window_row(pixels, width, x0, y0, j, 16, Ghost(h as int));
        y.append(&mut row.0);
        cb.append(&mut row.1);
        cr.append(&mut row.2);
        assert(y@ =~= inner_window(pixels@, width as int, RGB(), x0 as int, y0 as int, 16, (j + 1) as int, 0));
        assert(cb@ =~= inner_window(pixels@, width as int, RGB(), x0 as int, y0 as int, 16, (j + 1) as int, 1));
        assert(cr@ =~= inner_window(pixels@, width as int, RGB(), x0 as int, y0 as int, 16, (j + 1) as int, 2));
    }
    (y, cb, cr)
}

/// One 8x8 block of a plane 16 samples wide, level-shifted.
fn take_block(plane: &Vec<u8>, bx: usize, by: usize) -> (block: [i16; 64])
    requires
        bx < 2,
        by < 2,
        plane@.len() >= 128 * (by + 1),
    ensures
        block@ == block_of_16(plane@, bx as int, by as int),
{
    let mut block: [i16; 64] = [0i16; 64];
    for k in 0..64usize
        invariant
            bx < 2,
            by < 2,
            plane@.len() >= 128 * (by + 1),
            forall|m: int| 0 <= m < k ==> block@[m] == block_of_16(plane@, bx as int, by as int)[m],
    {
        block[k] = plane[16 * (8 * by + k / 8) + 8 * bx + k % 8] as i16 - 128;
    }
    assert(block@ =~= block_of_16(plane@, bx as int, by as int));
    block
}

/// Splits a 16x16 luma plane into its four blocks and reduces the two
/// chroma planes to one block each.
fn split_420(
    planes: &(Vec<u8>, Vec<u8>, Vec<u8>),
    y_blocks: &mut [[i16; 64]; 4],
    cb_block: &mut [i16; 64],
    cr_block: &mut [i16; 64],
)
    requires
        planes.0@.len() == 256,
        planes.1@.len() == 256,
        planes.2@.len() == 256,
    ensures
        forall|q: int| 0 <= q < 4 ==> (#[trigger] final(y_blocks)@[q])@ == block_of_16(planes.0@, q % 2, q / 2),
        final(cb_block)@ == h2v2_downsampled(planes.1@),
        final(cr_block)@ == h2v2_downsampled(planes.2@),
{
    for q in 0..4usize
        invariant
            planes.0@.len() == 256,
            forall|m: int| 0 <= m < q ==> (#[trigger] y_blocks@[m])@ == block_of_16(planes.0@, m % 2, m / 2),
    {
        y_blocks[q] = take_block(&planes.0, q % 2, q / 2);
    }
    let mut cb: [u8; 256] = [0u8; 256];
    let mut cr: [u8; 256] = [0u8; 256];
    for k in 0..256usize
        invariant
            planes.1@.len() == 256,
            planes.2@.len() == 256,
            forall|m: int| 0 <= m < k ==> cb@[m] == planes.1@[m],
            forall|m: int| 0 <= m < k ==> cr@[m] == planes.2@[m],
    {
        cb[k] = planes.1[k];
        cr[k] = planes.2[k];
    }
    assert(cb@ =~= planes.1@);
    assert(cr@ =~= planes.2@);
    h2v2_downsample(&cb, cb_block);
    h2v2_downsample(&cr, cr_block);
}

/// Splits a 16x8 luma plane into its two blocks and reduces the two chroma
/// planes to one block each.
fn split_422(
    planes: &(Vec<u8>, Vec<u8>, Vec<u8>),
    y_blocks: &mut [[i16; 64]; 2],
    cb_block: &mut [i16; 64],
    cr_block: &mut [i16; 64],
)
    requires
        planes.0@.len() == 128,
        planes.1@.len() == 128,
        planes.2@.len() == 128,
    ensures
        forall|q: int| 0 <= q < 2 ==> (#[trigger] final(y_blocks)@[q])@ == block_of_16(planes.0@, q, 0),
        final(cb_block)@ == h2v1_downsampled(planes.1@),
        final(cr_block)@ == h2v1_downsampled(planes.2@),
{
    for q in 0..2usize
        invariant
            planes.0@.len() == 128,
            forall|m: int| 0 <= m < q ==> (#[trigger] y_blocks@[m])@ == block_of_16(planes.0@, m, 0),
    {
        y_blocks[q] = take_block(&planes.0, q, 0);
    }
    let mut cb: [u8; 128] = [0u8; 128];
    let mut cr: [u8; 128] = [0u8; 128];
    for k in 0..128usize
        invariant
            planes.1@.len() == 128,
            planes.2@.len() == 128,
            forall|m: int| 0 <= m < k ==> cb@[m] == planes.1@[m],
            forall|m: int| 0 <= m < k ==> cr@[m] == planes.2@[m],
    {
        cb[k] = planes.1[k];
        cr[k] = planes.2[k];
    }
    assert(cb@ =~= planes.1@);
    assert(cr@ =~= planes.2@);
    h2v1_downsample(&cb, cb_block);
    h2v1_downsample(&cr, cr_block);
}

/// Extracts the 16x16 MCU at `(x0, y0)`: four luma blocks in raster order
/// and 4:2:0 chroma, with the edges of the image replicated.
pub fn extract_mcu_420(
    pixels: &[u8],
    width: u32,
    height: u32,
    layout: PixelLayout,
    x0: u32,
    y0: u32,
    y_blocks: &mut [[i16; 64]; 4],
    cb_block: &mut [i16; 64],
    cr_block: &mut [i16; 64],
)
    requires
        holds_image(pixels@, width as int, height as int, layout),
    ensures
        forall|x: int, y: int|
            0 <= x < 16 && 0 <= y < 16 ==> #[trigger] mcu_sample(final(y_blocks)@, 2, x, y) == ycc_channel(
                pixel_at(pixels@, layout, edge_index(width as int, height as int, x0 + x, y0 + y)),
                0,
            ) - 128,
        forall|q: int|
            0 <= q < 4 ==> (#[trigger] final(y_blocks)@[q])@ == block_of_16(window(pixels@, width as int, height as int, layout, x0 as int, y0 as int, 16, 16, 0), q % 2, q / 2),
        final(cb_block)@ == h2v2_downsampled(window(pixels@, width as int, height as int, layout, x0 as int, y0 as int, 16, 16, 1)),
        final(cr_block)@ == h2v2_downsampled(window(pixels@, width as int, height as int, layout, x0 as int, y0 as int, 16, 16, 2)),
{
    let planes = read_window(pixels, width, height, layout, x0, y0, 16);
    split_420(&planes, y_blocks, cb_block, cr_block);
    assert forall|x: int, y: int| 0 <= x < 16 && 0 <= y < 16 implies #[trigger] mcu_sample(y_blocks@, 2, x, y)
        == ycc_channel(
        pixel_at(pixels@, layout, edge_index(width as int, height as int, x0 + x, y0 + y)),
        0,
    ) - 128 by {
        let q = 2 * (y / 8) + x / 8;
        let k = 8 * (y % 8) + x % 8;
        assert(y_blocks@[q]@ == block_of_16(window(pixels@, width as int, height as int, layout, x0 as int, y0 as int, 16, 16, 0), q % 2, q / 2));
        assert(k / 8 == y % 8 && k % 8 == x % 8);
        assert(16 * (8 * (y / 8) + k / 8) + 8 * (x / 8) + k % 8 == 16 * y + x);
        assert((16 * y + x) % 16 == x && (16 * y + x) / 16 == y);
    }
}

/// Extracts the 16x16 MCU at `(x0, y0)` from packed RGB: four luma blocks
/// in raster order and 4:2:0 chroma. The MCU lies within the image.
pub fn extract_mcu_420_rgb_full(
    pixels: &[u8],
    width: u32,
    x0: u32,
    y0: u32,
    y_blocks: &mut [[i16; 64]; 4],
    cb_block: &mut [i16; 64],
    cr_block: &mut [i16; 64],
)
    requires
        holds_rgb_window(pixels@, width as int, x0 as int, y0 as int, 16, 16),
    ensures
        forall|x: int, y: int|
            0 <= x < 16 && 0 <= y < 16 ==> #[trigger] mcu_sample(final(y_blocks)@, 2, x, y) == ycc_channel(
                pixel_at(pixels@, RGB(), (y0 + y) * width + x0 + x),
                0,
            ) - 128,
        forall|q: int|
            0 <= q < 4 ==> (#[trigger] final(y_blocks)@[q])@ == block_of_16(inner_window(pixels@, width as int, RGB(), x0 as int, y0 as int, 16, 16, 0), q % 2, q / 2),
        final(cb_block)@ == h2v2_downsampled(inner_window(pixels@, width as int, RGB(), x0 as int, y0 as int, 16, 16, 1)),
        final(cr_block)@ == h2v2_downsampled(inner_window(pixels@, width as int, RGB(), x0 as int, y0 as int, 16, 16, 2)),
{
    let planes = read_inner_window(pixels, width, x0, y0, 16);
    split_420(&planes, y_blocks, cb_block, cr_block);
    assert forall|x: int, y: int| 0 <= x < 16 && 0 <= y < 16 implies #[trigger] mcu_sample(y_blocks@, 2, x, y)
        == ycc_channel(
        pixel_at(pixels@, RGB(), (y0 + y) * width + x0 + x),
        0,
    ) - 128 by {
        let q = 2 * (y / 8) + x / 8;
        let k = 8 * (y % 8) + x % 8;
        assert(y_blocks@[q]@ == block_of_16(inner_window(pixels@, width as int, RGB(), x0 as int, y0 as int, 16, 16, 0), q % 2, q / 2));
        assert(k / 8 == y % 8 && k % 8 == x % 8);
        assert(16 * (8 * (y / 8) + k / 8) + 8 * (x / 8) + k % 8 == 16 * y + x);
        assert((16 * y + x) % 16 == x && (16 * y + x) / 16 == y);
    }
}

/// Extracts the 16x8 MCU at `(x0, y0)`: the left and the right luma block
/// and 4:2:2 chroma, with the edges of the image replicated.
pub fn extract_mcu_422(
    pixels: &[u8],
    width: u32,
    height: u32,
    layout: PixelLayout,
    x0: u32,
    y0: u32,
    y_blocks: &mut [[i16; 64]; 2],
    cb_block: &mut [i16; 64],
    cr_block: &mut [i16; 64],
)
    requires
        holds_image(pixels@, width as int, height as int, layout),
    ensures
        forall|x: int, y: int|
            0 <= x < 16 && 0 <= y < 8 ==> #[trigger] mcu_sample(final(y_blocks)@, 2, x, y) == ycc_channel(
                pixel_at(pixels@, layout, edge_index(width as int, height as int, x0 + x, y0 + y)),
                0,
            ) - 128,
        forall|q: int| 0 <= q < 2 ==> (#[trigger] final(y_blocks)@[q])@ == block_of_16(window(pixels@, width as int, height as int, layout, x0 as int, y0 as int, 16, 8, 0), q, 0),
        final(cb_block)@ == h2v1_downsampled(window(pixels@, width as int, height as int, layout, x0 as int, y0 as int, 16, 8, 1)),
        final(cr_block)@ == h2v1_downsampled(window(pixels@, width as int, height as int, layout, x0 as int, y0 as int, 16, 8, 2)),
{
    let planes = read_window(pixels, width, height, layout, x0, y0, 8);
    split_422(&planes, y_blocks, cb_block, cr_block);
    assert forall|x: int, y: int| 0 <= x < 16 && 0 <= y < 8 implies #[trigger] mcu_sample(y_blocks@, 2, x, y)
        == ycc_channel(
        pixel_at(pixels@, layout, edge_index(width as int, height as int, x0 + x, y0 + y)),
        0,
    ) - 128 by {
        let q = 2 * (y / 8) + x / 8;
        let k = 8 * (y % 8) + x % 8;
        assert(y_blocks@[q]@ == block_of_16(window(pixels@, width as int, height as int, layout, x0 as int, y0 as int, 16, 8, 0), q % 2, q / 2));
        assert(k / 8 == y % 8 && k % 8 == x % 8);
        assert(16 * (8 * (y / 8) + k / 8) + 8 * (x / 8) + k % 8 == 16 * y + x);
        assert((16 * y + x) % 16 == x && (16 * y + x) / 16 == y);
    }
}

/// Extracts the 16x8 MCU at `(x0, y0)` from packed RGB: the left and the
/// right luma block and 4:2:2 chroma. The MCU lies within the image.
pub fn extract_mcu_422_rgb_full(
    pixels: &[u8],
    width: u32,
    x0: u32,
    y0: u32,
    y_blocks: &mut [[i16; 64]; 2],
    cb_block: &mut [i16; 64],
    cr_block: &mut [i16; 64],
)
    requires
        holds_rgb_window(pixels@, width as int, x0 as int, y0 as int, 16, 8),
    ensures
        forall|x: int, y: int|
            0 <= x < 16 && 0 <= y < 8 ==> #[trigger] mcu_sample(final(y_blocks)@, 2, x, y) == ycc_channel(
                pixel_at(pixels@, RGB(), (y0 + y) * width + x0 + x),
                0,
            ) - 128,
        forall|q: int| 0 <= q < 2 ==> (#[trigger] final(y_blocks)@[q])@ == block_of_16(inner_window(pixels@, width as int, RGB(), x0 as int, y0 as int, 16, 8, 0), q, 0),
        final(cb_block)@ == h2v1_downsampled(inner_window(pixels@, width as int, RGB(), x0 as int, y0 as int, 16, 8, 1)),
        final(cr_block)@ == h2v1_downsampled(inner_window(pixels@, width as int, RGB(), x0 as int, y0 as int, 16, 8, 2)),
{
    let planes = read_inner_window(pixels, width, x0, y0, 8);
    split_422(&planes, y_blocks, cb_block, cr_block);
    assert forall|x: int, y: int| 0 <= x < 16 && 0 <= y < 8 implies #[trigger] mcu_sample(y_blocks@, 2, x, y)
        == ycc_channel(
        pixel_at(pixels@, RGB(), (y0 + y) * width + x0 + x),
        0,
    ) - 128 by {
        let q = 2 * (y / 8) + x / 8;
        let k = 8 * (y % 8) + x % 8;
        assert(y_blocks@[q]@ == block_of_16(inner_window(pixels@, width as int, RGB(), x0 as int, y0 as int, 16, 8, 0), q % 2, q / 2));
        assert(k / 8 == y % 8 && k % 8 == x % 8);
        assert(16 * (8 * (y / 8) + k / 8) + 8 * (x / 8) + k % 8 == 16 * y + x);
        assert((16 * y + x) % 16 == x && (16 * y + x) / 16 == y);
    }
}

/// The 8x8 block at `(x0, y0)` of channel `channel` of an image with `bpp`
/// interleaved channels, level-shifted, with the edges replicated.
pub open spec fn channel_block(
    pixels: Seq<u8>,
    width: int,
    height: int,
    bpp: int,
    x0: int,
    y0: int,
    channel: int,
) -> Seq<i16> {
    Seq::new(
        64,
        |k: int| (pixels[edge_index(width, height, x0 + k % 8, y0 + k / 8) * bpp + channel] - 128) as i16,
    )
}

/// Fills a block from channel `channel` of `bpp` interleaved ones.
fn extract_channel(
    pixels: &[u8],
    width: u32,
    height: u32,
    bpp: usize,
    x0: u32,
    y0: u32,
    channel: usize,
    block: &mut [i16; 64],
)
    requires
        width >= 1,
        height >= 1,
        channel < bpp,
        width * height * bpp <= pixels@.len(),
    ensures
        final(block)@ == channel_block(
            pixels@,
            width as int,
            height as int,
            bpp as int,
            x0 as int,
            y0 as int,
            channel as int,
        ),
{
    let len: usize = pixels.len();
    let max_x: u64 = (width - 1) as u64;
    let max_y: u64 = (height - 1) as u64;
    for k in 0..64usize
        invariant
            width >= 1,
            height >= 1,
            channel < bpp,
            len == pixels@.len(),
            width * height * bpp <= len,
            max_x == width - 1,
            max_y == height - 1,
            forall|m: int|
                0 <= m < k ==> block@[m] == channel_block(
                    pixels@,
                    width as int,
                    height as int,
                    bpp as int,
                    x0 as int,
                    y0 as int,
                    channel as int,
                )[m],
    {
        let want_x: u64 = x0 as u64 + (k % 8) as u64;
        let want_y: u64 = y0 as u64 + (k / 8) as u64;
        let sx: usize = if want_x < max_x {
            want_x as usize
        } else {
            max_x as usize
        };
        let sy: usize = if want_y < max_y {
            want_y as usize
        } else {
            max_y as usize
        };
        proof {
            let at = sy * width + sx;
            lemma_pixel_in_image(at, width as int, height as int, sx as int, sy as int, bpp as int, len as int);
            assert(at <= at * bpp) by (nonlinear_arith)
                requires
                    0 <= at,
                    1 <= bpp,
            ;
            assert(0 <= sy * width) by (nonlinear_arith)
                requires
                    0 <= sy,
                    0 <= width,
            ;
        }
        block[k] = pixels[(sy * (width as usize) + sx) * bpp + channel] as i16 - 128;
    }
    assert(block@ =~= channel_block(
        pixels@,
        width as int,
        height as int,
        bpp as int,
        x0 as int,
        y0 as int,
        channel as int,
    ));
}

/// Extracts the 8x8 block at `(x0, y0)` of one CMYK channel, level-shifted,
/// with the edges of the image replicated.
pub fn extract_block_cmyk(
    pixels: &[u8],
    width: u32,
    height: u32,
    x0: u32,
    y0: u32,
    channel: usize,
    block: &mut [i16; 64],
)
    requires
        width >= 1,
        height >= 1,
        channel < 4,
        width * height * 4 <= pixels@.len(),
    ensures
        final(block)@ == channel_block(
            pixels@,
            width as int,
            height as int,
            4,
            x0 as int,
            y0 as int,
            channel as int,
        ),
{
    extract_channel(pixels, width, height, 4, x0, y0, channel, block);
}

/// Extracts the 8x8 block at `(x0, y0)` of a grayscale image, level-shifted,
/// with the edges of the image replicated.
pub fn extract_block_gray(
    pixels: &[u8],
    width: u32,
    height: u32,
    x0: u32,
    y0: u32,
    y_block: &mut [i16; 64],
)
    requires
        width >= 1,
        height >= 1,
        width * height <= pixels@.len(),
    ensures
        final(y_block)@ == channel_block(pixels@, width as int, height as int, 1, x0 as int, y0 as int, 0),
{
    extract_channel(pixels, width, height, 1, x0, y0, 0, y_block);
}

/// Formats whose names are each other's reverse hold their bytes in reverse
/// order, a name with X holds them as the one with A, and no two channels
/// share a byte.
pub proof fn law_formats_are_as_they_are_named()
    ensures
        ({
            let of = |f: PixelFormat| f.spec_layout();
            let (rgb, bgr) = (of(PixelFormat::Rgb), of(PixelFormat::Bgr));
            let (rgba, abgr) = (of(PixelFormat::Rgba), of(PixelFormat::Abgr));
            let (bgra, argb) = (of(PixelFormat::Bgra), of(PixelFormat::Argb));
            &&& rgb.bpp == 3 && bgr.bpp == 3
            &&& rgba.bpp == 4 && abgr.bpp == 4 && bgra.bpp == 4 && argb.bpp == 4
            &&& rgb.r_off < rgb.g_off < rgb.b_off
            &&& bgr.b_off < bgr.g_off < bgr.r_off
            &&& rgba.r_off == rgb.r_off && rgba.g_off == rgb.g_off && rgba.b_off == rgb.b_off
            &&& bgra.r_off == bgr.r_off && bgra.g_off == bgr.g_off && bgra.b_off == bgr.b_off
            &&& abgr.r_off == 3 - rgba.r_off && abgr.g_off == 3 - rgba.g_off && abgr.b_off == 3 - rgba.b_off
            &&& argb.r_off == 3 - bgra.r_off && argb.g_off == 3 - bgra.g_off && argb.b_off == 3 - bgra.b_off
            &&& of(PixelFormat::Rgbx) == rgba
            &&& of(PixelFormat::Bgrx) == bgra
            &&& of(PixelFormat::Gray).bpp == 1
            &&& of(PixelFormat::Cmyk).bpp == 4
            &&& of(PixelFormat::Cmyk).spec_class() == PixelClass::Cmyk
            &&& of(PixelFormat::Gray).spec_class() == PixelClass::Gray
            &&& rgb.spec_class() == PixelClass::Rgb && bgr.spec_class() == PixelClass::Rgb
            &&& rgba.spec_class() == PixelClass::Rgb && abgr.spec_class() == PixelClass::Rgb
            &&& bgra.spec_class() == PixelClass::Rgb && argb.spec_class() == PixelClass::Rgb
            &&& !rgba.is_cmyk && !argb.is_cmyk
        }),
{
}

} // verus!
