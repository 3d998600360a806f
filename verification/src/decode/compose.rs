//! Composition of decoded component planes into packed pixels.

use vstd::prelude::*;

use super::baseline::{DecodedPlane, DecodedPlanes};
use super::error::{DecodeError, Result};
use super::markers::DecoderHeaders;
use crate::arch::backend::color::ycc_row_to_rgb;
use crate::arch::backend::sample::{h2_fancy_upsample, h2v2_fancy_vblend};
use crate::color::{PixelClass, PixelLayout};

verus! {

use super::baseline::{lemma_geometry, plane_samples, planes_fit};
use super::markers::Frame;
use crate::arch::scalar::color::{
    law_neutral_chroma_is_gray, pixel_at, pixel_byte, rgb_row_byte, store_pixel, ycc_blue, ycc_green, ycc_red,
};
use crate::arch::scalar::sample::{blend, fancy_doubled, is_quarter_of, law_fancy_keeps_constant, limited};
use crate::fixed::min_int;

/// Model of a [`DecodedPlane`]: its samples and its measures without
/// padding.
pub ghost struct Plane {
    pub samples: Seq<u8>,
    pub stride: int,
    pub width: int,
    pub height: int,
}

impl Plane {
    /// The plane is not empty, and its samples lie within the data.
    pub open spec fn wf(self) -> bool {
        &&& 1 <= self.width <= self.stride
        &&& 1 <= self.height
        &&& self.height * self.stride <= self.samples.len()
    }

    /// The sample at `(i, j)`. Positions right of the plane or below it fall
    /// on its last column or row.
    pub open spec fn at(self, i: int, j: int) -> u8 {
        self.samples[min_int(j, self.height - 1) * self.stride + min_int(i, self.width - 1)]
    }

    /// The first `n` samples of row `j`, its last sample replicated where
    /// the plane is narrower.
    pub open spec fn row(self, n: int, j: int) -> Seq<u8> {
        Seq::new(n as nat, |i: int| self.at(i, j))
    }

    /// The samples that image row `j` is interpolated from, where the plane
    /// has one row to `v_step` rows of the image. At a step of two a sample
    /// leans to the nearer neighbor row; at larger steps rows repeat.
    pub open spec fn interpolated(self, v_step: int, j: int) -> Seq<u8> {
        Seq::new(
            self.width as nat,
            |i: int|
                if v_step <= 1 {
                    self.at(i, j)
                } else if v_step == 2 {
                    let cur = min_int(j / 2, self.height - 1);
                    let nbr = if j % 2 == 1 {
                        min_int(cur + 1, self.height - 1)
                    } else if cur == 0 {
                        0
                    } else {
                        cur - 1
                    };
                    blend(self.at(i, cur), self.at(i, nbr))
                } else {
                    self.at(i, j / v_step)
                },
        )
    }

    /// Row `j` of the image, `n` samples wide, from a plane that has one
    /// column to `h_step` columns and one row to `v_step` rows of the image.
    pub open spec fn upsampled(self, h_step: int, v_step: int, n: int, j: int) -> Seq<u8> {
        widened(self.interpolated(v_step, j), h_step, n)
    }
}

/// A row widened by `h_step` to `n` samples. At a step of two samples lean
/// to the nearer neighbor; at larger steps they repeat. Past the widened
/// row its last sample repeats.
pub open spec fn widened(row: Seq<u8>, h_step: int, n: int) -> Seq<u8> {
    Seq::new(
        n as nat,
        |i: int|
            if h_step <= 1 {
                row[min_int(i, row.len() - 1)]
            } else if h_step == 2 {
                fancy_doubled(row, row.len() as int, min_int(i, 2 * row.len() - 1))
            } else {
                row[min_int(i / h_step, row.len() - 1)]
            },
    )
}

impl View for DecodedPlane {
    type V = Plane;

    open spec fn view(&self) -> Plane {
        Plane {
            samples: self.samples@,
            stride: self.stride as int,
            width: self.plane_width as int,
            height: self.plane_height as int,
        }
    }
}

/// The plane of component `i` of a frame, given the samples of all.
pub open spec fn plane_of(samples: Seq<Seq<u8>>, frame: Frame, i: int) -> Plane {
    Plane {
        samples: samples[i],
        stride: frame.stride(i),
        width: frame.plane_width(i),
        height: frame.plane_height(i),
    }
}

/// How many columns of the image share a column of component `i`.
pub open spec fn h_step(frame: Frame, i: int) -> int {
    frame.h_max() as int / frame.components[i].h as int
}

/// How many rows of the image share a row of component `i`.
pub open spec fn v_step(frame: Frame, i: int) -> int {
    frame.v_max() as int / frame.components[i].v as int
}

/// A row of YCbCr samples as pixels.
pub open spec fn rgb_line(y: Seq<u8>, cb: Seq<u8>, cr: Seq<u8>, layout: PixelLayout) -> Seq<u8> {
    Seq::new(
        (y.len() * layout.bpp) as nat,
        |k: int|
            pixel_byte(
                layout,
                k % layout.bpp as int,
                y[k / layout.bpp as int],
                cb[k / layout.bpp as int],
                cr[k / layout.bpp as int],
            ),
    )
}

/// Row `j` of a four-component image, component by component in a pixel.
pub open spec fn cmyk_line(samples: Seq<Seq<u8>>, frame: Frame, j: int) -> Seq<u8> {
    Seq::new((frame.width * 4) as nat, |k: int| plane_of(samples, frame, k % 4).at(k / 4, j))
}

/// A row of neutral chroma.
pub open spec fn neutral_row(n: int) -> Seq<u8> {
    Seq::new(n as nat, |i: int| 128u8)
}

/// Row `j` of the composed image.
pub open spec fn composed_line(samples: Seq<Seq<u8>>, frame: Frame, layout: PixelLayout, j: int) -> Seq<u8> {
    let w = frame.width as int;
    match layout.spec_class() {
        PixelClass::Cmyk => cmyk_line(samples, frame, j),
        PixelClass::Gray => plane_of(samples, frame, 0).row(w, j),
        PixelClass::Rgb => if frame.components.len() == 1 {
            rgb_line(plane_of(samples, frame, 0).row(w, j), neutral_row(w), neutral_row(w), layout)
        } else {
            rgb_line(
                plane_of(samples, frame, 0).row(w, j),
                plane_of(samples, frame, 1).upsampled(h_step(frame, 1), v_step(frame, 1), w, j),
                plane_of(samples, frame, 2).upsampled(h_step(frame, 2), v_step(frame, 2), w, j),
                layout,
            )
        },
    }
}

/// The first `n` rows of the composed image.
pub open spec fn composed_lines(
    samples: Seq<Seq<u8>>,
    frame: Frame,
    layout: PixelLayout,
    n: nat,
) -> Seq<u8>
    decreases n,
{
    if n == 0 {
        Seq::empty()
    } else {
        composed_lines(samples, frame, layout, (n - 1) as nat) + composed_line(
            samples,
            frame,
            layout,
            n - 1,
        )
    }
}

/// Why an image of `n` components is not composed in a layout of the given
/// class, if it is not.
pub open spec fn compose_error(n: int, class: PixelClass) -> Option<DecodeError> {
    if class == PixelClass::Cmyk {
        if n != 4 {
            Some(DecodeError::Unsupported("PixelFormat::Cmyk requires a 4-component source JPEG"))
        } else {
            None
        }
    } else if n == 4 {
        Some(
            DecodeError::Unsupported(
                "CMYK source can only be decoded as PixelFormat::Cmyk; this crate does not perform CMYK→RGB conversion",
            ),
        )
    } else if class == PixelClass::Rgb && n != 1 && n != 3 {
        Some(DecodeError::Unsupported("unsupported component count"))
    } else {
        None
    }
}

/// The packed pixels of an image, row by row.
pub open spec fn composed(samples: Seq<Seq<u8>>, frame: Frame, layout: PixelLayout) -> Result<Seq<u8>> {
    match compose_error(frame.components.len() as int, layout.spec_class()) {
        Some(e) => Err(e),
        None => Ok(composed_lines(samples, frame, layout, frame.height as nat)),
    }
}

/// A row of a plane lies within its samples.
proof fn lemma_row_in_plane(p: Plane, j: int)
    requires
        p.wf(),
        0 <= j < p.height,
    ensures
        0 <= j * p.stride,
        j * p.stride + p.width <= p.samples.len(),
        forall|i: int| 0 <= i < p.width ==> p.samples[j * p.stride + i] == #[trigger] p.at(i, j),
{
    assert(0 <= j * p.stride && j * p.stride + p.stride <= p.height * p.stride) by (nonlinear_arith)
        requires
            0 <= j < p.height,
            1 <= p.stride,
    ;
}

/// Planes that fit a frame are the planes of the frame.
proof fn lemma_plane(planes: Seq<DecodedPlane>, frame: Frame, i: int)
    requires
        frame.wf(),
        planes_fit(planes, frame),
        0 <= i < planes.len(),
    ensures
        planes[i]@ == plane_of(plane_samples(planes), frame, i),
        planes[i]@.wf(),
        planes[i].component == frame.components[i],
        1 <= planes[i].component.h,
        1 <= planes[i].component.v,
{
    assert(planes[i].fits(frame, i));
    lemma_geometry(frame, i);
    let h = frame.plane_height(i);
    let ph = frame.padded_height(i);
    let st = frame.stride(i);
    assert(h * st <= st * ph) by (nonlinear_arith)
        requires
            h <= ph,
            0 <= st,
    ;
}

/// Copies the first `width` samples of row `j` of a plane into `dst`, with
/// the plane's edges replicated.
fn copy_plane_row(plane: &DecodedPlane, j: usize, dst: &mut [u8], width: usize)
    requires
        plane@.wf(),
        width <= old(dst)@.len(),
    ensures
        final(dst)@ == plane@.row(width as int, j as int) + old(dst)@.skip(width as int),
{
    let row: usize = if j < plane.plane_height {
        j
    } else {
        plane.plane_height - 1
    };
    proof {
        lemma_row_in_plane(plane@, row as int);
    }
    let count: usize = plane.samples.len();
    assert(row * plane.stride <= count);
    let off: usize = row * plane.stride;
    let ghost before = dst@;
    for i in 0..width
        invariant
            off == row * plane.stride,
            off + plane.plane_width <= count,
            count == plane.samples@.len(),
            plane@.wf(),
            row == min_int(j as int, plane.plane_height - 1),
            dst@.len() == before.len(),
            width <= before.len(),
            forall|k: int| 0 <= k < i ==> #[trigger] dst@[k] == plane@.at(k, j as int),
            forall|k: int| i <= k < before.len() ==> #[trigger] dst@[k] == before[k],
    {
        let col: usize = if i < plane.plane_width {
            i
        } else {
            plane.plane_width - 1
        };
        dst[i] = plane.samples[off + col];
    }
    assert(dst@ =~= plane@.row(width as int, j as int) + before.skip(width as int));
}

/// Interpolates image row `j` vertically from a plane that has one row to
/// `step` rows of the image.
fn interpolate_row(plane: &DecodedPlane, j: usize, step: usize, out: &mut [u8])
    requires
        plane@.wf(),
        plane.plane_width <= old(out)@.len(),
    ensures
        final(out)@ == plane@.interpolated(step as int, j as int) + old(out)@.skip(
            plane.plane_width as int,
        ),
{
    let width: usize = plane.plane_width;
    let ghost before = out@;
    if step == 2 {
        let cur: usize = if j / 2 < plane.plane_height {
            j / 2
        } else {
            plane.plane_height - 1
        };
        let neighbor: usize = if j % 2 == 1 {
            if cur + 1 < plane.plane_height {
                cur + 1
            } else {
                plane.plane_height - 1
            }
        } else if cur == 0 {
            0
        } else {
            cur - 1
        };
        proof {
            lemma_row_in_plane(plane@, cur as int);
            lemma_row_in_plane(plane@, neighbor as int);
        }
        let count: usize = plane.samples.len();
        assert(cur * plane.stride <= count && neighbor * plane.stride <= count);
        let cur_off: usize = cur * plane.stride;
        let nbr_off: usize = neighbor * plane.stride;
        let samples = plane.samples.as_slice();
        h2v2_fancy_vblend(
            &samples[cur_off..cur_off + width],
            &samples[nbr_off..nbr_off + width],
            out,
            width,
        );
        assert forall|i: int| 0 <= i < width implies #[trigger] out@[i] == plane@.interpolated(
            step as int,
            j as int,
        )[i] by {
            assert(plane.samples@[cur * plane.stride + i] == plane@.at(i, cur as int));
            assert(plane.samples@[neighbor * plane.stride + i] == plane@.at(i, neighbor as int));
        }
    } else {
        let row: usize = if step <= 1 {
            j
        } else {
            j / step
        };
        copy_plane_row(plane, row, out, width);
    }
    assert(out@ =~= plane@.interpolated(step as int, j as int) + before.skip(width as int));
}

/// Widens a row by `step` to `width` samples.
fn widen_row(row: &[u8], step: usize, dst: &mut [u8], width: usize)
    requires
        row@.len() >= 1,
        row@.len() <= usize::MAX / 2,
        width <= old(dst)@.len(),
    ensures
        final(dst)@ == widened(row@, step as int, width as int) + old(dst)@.skip(width as int),
{
    let n: usize = row.len();
    let ghost before = dst@;
    if step == 2 {
        let twice: usize = 2 * n;
        let mut full: Vec<u8> = vec![0u8; twice];
        h2_fancy_upsample(row, full.as_mut_slice(), n);
        for i in 0..width
            invariant
                n == row@.len(),
                n >= 1,
                twice == 2 * n,
                full@.len() == twice,
                dst@.len() == before.len(),
                width <= before.len(),
                forall|k: int| 0 <= k < 2 * n ==> #[trigger] full@[k] == fancy_doubled(row@, n as int, k),
                forall|k: int|
                    0 <= k < i ==> #[trigger] dst@[k] == fancy_doubled(
                        row@,
                        n as int,
                        min_int(k, 2 * n - 1),
                    ),
                forall|k: int| i <= k < before.len() ==> #[trigger] dst@[k] == before[k],
        {
            let k: usize = if i < twice {
                i
            } else {
                twice - 1
            };
            dst[i] = full[k];
        }
    } else {
        for i in 0..width
            invariant
                n == row@.len(),
                n >= 1,
                step != 2,
                dst@.len() == before.len(),
                width <= before.len(),
                forall|k: int|
                    0 <= k < i ==> #[trigger] dst@[k] == row@[min_int(
                        if step <= 1 {
                            k
                        } else {
                            k / step as int
                        },
                        n - 1,
                    )],
                forall|k: int| i <= k < before.len() ==> #[trigger] dst@[k] == before[k],
        {
            let k: usize = if step <= 1 {
                i
            } else {
                i / step
            };
            dst[i] = if k < n {
                row[k]
            } else {
                row[n - 1]
            };
        }
    }
    assert(dst@ =~= widened(row@, step as int, width as int) + before.skip(width as int));
}

/// Upsamples a plane to row `j_out` of the image, `width` samples wide, by
/// interpolation where a step is two and by replication where it is larger.
/// `vblend` takes the vertically interpolated row.
fn upsample_chroma_row(
    plane: &DecodedPlane,
    j_out: usize,
    v_step: usize,
    h_step: usize,
    vblend: &mut [u8],
    dst: &mut [u8],
    width: usize,
)
    requires
        plane@.wf(),
        plane.plane_width <= usize::MAX / 2,
        old(vblend)@.len() == plane.plane_width,
        width <= old(dst)@.len(),
    ensures
        final(vblend)@ == plane@.interpolated(v_step as int, j_out as int),
        final(dst)@ == plane@.upsampled(h_step as int, v_step as int, width as int, j_out as int) + old(
            dst,
        )@.skip(width as int),
{
    let ghost before = vblend@;
    interpolate_row(plane, j_out, v_step, vblend);
    assert(vblend@ =~= plane@.interpolated(v_step as int, j_out as int));
    widen_row(vblend, h_step, dst, width);
}

/// A pixel that a row conversion stores has the bytes that the layout says.
proof fn lemma_stored_pixel(old_bytes: Seq<u8>, layout: PixelLayout, r: u8, g: u8, b: u8, o: int)
    requires
        layout.wf(),
        layout.spec_class() == PixelClass::Rgb,
        old_bytes.len() == layout.bpp,
        0 <= o < layout.bpp,
    ensures
        store_pixel(old_bytes, layout, r, g, b)[o] == if o == layout.r_off {
            r
        } else if o == layout.g_off {
            g
        } else if o == layout.b_off {
            b
        } else {
            0xFF
        },
{
}

/// Byte `k` of a row of `w` pixels belongs to one of them.
proof fn lemma_pixel_of_byte(k: int, w: int, bpp: int)
    by (nonlinear_arith)
    requires
        0 <= k < w * bpp,
        0 < bpp,
    ensures
        0 <= k / bpp < w,
        0 <= (k / bpp) * bpp,
        (k / bpp) * bpp + bpp <= w * bpp,
        0 <= k % bpp < bpp,
{
}

/// Converts a row of YCbCr samples to pixels.
fn compose_rgb_line(y: &[u8], cb: &[u8], cr: &[u8], layout: PixelLayout, width: usize) -> (line: Vec<u8>)
    requires
        layout.wf(),
        layout.spec_class() == PixelClass::Rgb,
        width <= 65535,
        y@.len() == width,
        cb@.len() == width,
        cr@.len() == width,
    ensures
        line@ == rgb_line(y@, cb@, cr@, layout),
{
    let bpp: usize = layout.bpp;
    assert(width * bpp <= 4 * 65535) by (nonlinear_arith)
        requires
            0 <= width <= 65535,
            0 <= bpp <= 4,
    ;
    let mut line: Vec<u8> = vec![0u8; width * bpp];
    let ghost before = line@;
    ycc_row_to_rgb(y, cb, cr, line.as_mut_slice(), width, layout);
    assert forall|k: int| 0 <= k < width * bpp implies #[trigger] line@[k] == rgb_line(
        y@,
        cb@,
        cr@,
        layout,
    )[k] by {
        let i = k / bpp as int;
        lemma_pixel_of_byte(k, width as int, bpp as int);
        assert(line@[k] == rgb_row_byte(before, y@, cb@, cr@, layout, k));
        lemma_stored_pixel(
            before.subrange(i * bpp, i * bpp + bpp),
            layout,
            ycc_red(y@[i], cb@[i], cr@[i]),
            ycc_green(y@[i], cb@[i], cr@[i]),
            ycc_blue(y@[i], cb@[i], cr@[i]),
            k % bpp as int,
        );
    }
    assert(line@ =~= rgb_line(y@, cb@, cr@, layout));
    line
}

/// Interleaves row `j` of four planes.
fn compose_cmyk_line(planes: &DecodedPlanes, j: usize, width: usize, Ghost(frame): Ghost<Frame>) -> (line: Vec<u8>)
    requires
        frame.wf(),
        planes_fit(planes.components@, frame),
        frame.components.len() == 4,
        width == frame.width,
    ensures
        line@ == cmyk_line(plane_samples(planes.components@), frame, j as int),
{
    let ghost samples = plane_samples(planes.components@);
    let mut line: Vec<u8> = vec![0u8; width * 4];
    let mut row: Vec<u8> = vec![0u8; width];
    for ch in 0..4usize
        invariant
            frame.wf(),
            planes_fit(planes.components@, frame),
            frame.components.len() == 4,
            width == frame.width,
            samples == plane_samples(planes.components@),
            line@.len() == width * 4,
            row@.len() == width,
            forall|k: int|
                0 <= k < width * 4 && k % 4 < ch ==> #[trigger] line@[k] == plane_of(samples, frame, k % 4).at(
                    k / 4,
                    j as int,
                ),
    {
        let plane = &planes.components[ch];
        proof {
            lemma_plane(planes.components@, frame, ch as int);
        }
        copy_plane_row(plane, j, row.as_mut_slice(), width);
        for i in 0..width
            invariant
                ch < 4,
                width == frame.width,
                line@.len() == width * 4,
                row@.len() == width,
                forall|i: int|
                    0 <= i < width ==> #[trigger] row@[i] == plane_of(samples, frame, ch as int).at(i, j as int),
                forall|k: int|
                    0 <= k < width * 4 && (k % 4 < ch || k % 4 == ch && k / 4 < i) ==> #[trigger] line@[k]
                        == plane_of(samples, frame, k % 4).at(k / 4, j as int),
        {
            line[4 * i + ch] = row[i];
        }
    }
    assert(line@ =~= cmyk_line(samples, frame, j as int));
    line
}

/// Converts the component planes into packed pixels in `layout`. Chroma
/// planes are upsampled to the size of the image.
pub fn compose_output(planes: &DecodedPlanes, headers: &DecoderHeaders, layout: PixelLayout) -> (r: Result<
    Vec<u8>,
>)
    requires
        headers@.frame.wf(),
        planes_fit(planes.components@, headers@.frame),
        planes.width == headers@.frame.width,
        planes.height == headers@.frame.height,
        layout.wf(),
    ensures
        match composed(plane_samples(planes.components@), headers@.frame, layout) {
            Ok(pixels) => r matches Ok(out) && out@ == pixels,
            Err(e) => r == Err::<Vec<u8>, DecodeError>(e),
        },
{
    let ghost frame = headers@.frame;
    let ghost samples = plane_samples(planes.components@);
    let width: usize = planes.width as usize;
    let height: usize = planes.height as usize;
    let mut out: Vec<u8> = Vec::new();
    let count: usize = planes.components.len();
    match layout.class() {
        PixelClass::Cmyk => {
            if count != 4 {
                return Err(
                    DecodeError::Unsupported("PixelFormat::Cmyk requires a 4-component source JPEG"),
                );
            }
            for j in 0..height
                invariant
                    frame.wf(),
                    planes_fit(planes.components@, frame),
                    frame.components.len() == 4,
                    width == frame.width,
                    samples == plane_samples(planes.components@),
                    layout.spec_class() == PixelClass::Cmyk,
                    out@ == composed_lines(samples, frame, layout, j as nat),
            {
                let mut line = compose_cmyk_line(planes, j, width, Ghost(frame));
                out.append(&mut line);
            }
            return Ok(out);
        },
        _ => {},
    }
    if count == 4 {
        return Err(
            DecodeError::Unsupported(
                "CMYK source can only be decoded as PixelFormat::Cmyk; this crate does not perform CMYK→RGB conversion",
            ),
        );
    }
    let mut y_row: Vec<u8> = vec![0u8; width];
    proof {
        lemma_plane(planes.components@, frame, 0);
    }
    let y_plane = &planes.components[0];
    if layout.class() == PixelClass::Gray {
        for j in 0..height
            invariant
                y_plane@.wf(),
                y_plane@ == plane_of(samples, frame, 0),
                width == frame.width,
                y_row@.len() == width,
                layout.spec_class() == PixelClass::Gray,
                out@ == composed_lines(samples, frame, layout, j as nat),
        {
            copy_plane_row(y_plane, j, y_row.as_mut_slice(), width);
            assert(y_row@ =~= y_plane@.row(width as int, j as int));
            let mut line = vstd::slice::slice_to_vec(y_row.as_slice());
            out.append(&mut line);
        }
        return Ok(out);
    }
    if count == 1 {
        let neutral: Vec<u8> = vec![128u8; width];
        assert(neutral@ =~= neutral_row(width as int));
        for j in 0..height
            invariant
                y_plane@.wf(),
                y_plane@ == plane_of(samples, frame, 0),
                width == frame.width,
                y_row@.len() == width,
                neutral@ == neutral_row(width as int),
                layout.wf(),
                layout.spec_class() == PixelClass::Rgb,
                frame.components.len() == 1,
                out@ == composed_lines(samples, frame, layout, j as nat),
        {
            copy_plane_row(y_plane, j, y_row.as_mut_slice(), width);
            assert(y_row@ =~= y_plane@.row(width as int, j as int));
            let mut line = compose_rgb_line(
                y_row.as_slice(),
                neutral.as_slice(),
                neutral.as_slice(),
                layout,
                width,
            );
            out.append(&mut line);
        }
        return Ok(out);
    }
    if count != 3 {
        return Err(DecodeError::Unsupported("unsupported component count"));
    }
    proof {
        lemma_plane(planes.components@, frame, 1);
        lemma_plane(planes.components@, frame, 2);
        lemma_geometry(frame, 1);
        lemma_geometry(frame, 2);
    }
    let cb_plane = &planes.components[1];
    let cr_plane = &planes.components[2];
    let h_max: usize = headers.frame.h_max() as usize;
    let v_max: usize = headers.frame.v_max() as usize;
    let cb_v_step: usize = v_max / (cb_plane.component.v as usize);
    let cr_v_step: usize = v_max / (cr_plane.component.v as usize);
    let cb_h_step: usize = h_max / (cb_plane.component.h as usize);
    let cr_h_step: usize = h_max / (cr_plane.component.h as usize);
    let mut cb_row: Vec<u8> = vec![0u8; width];
    let mut cr_row: Vec<u8> = vec![0u8; width];
    let mut cb_vblend: Vec<u8> = vec![0u8; cb_plane.plane_width];
    let mut cr_vblend: Vec<u8> = vec![0u8; cr_plane.plane_width];
    for j in 0..height
        invariant
            y_plane@.wf(),
            y_plane@ == plane_of(samples, frame, 0),
            cb_plane@.wf(),
            cb_plane@ == plane_of(samples, frame, 1),
            cr_plane@.wf(),
            cr_plane@ == plane_of(samples, frame, 2),
            cb_plane.plane_width <= 65535,
            cr_plane.plane_width <= 65535,
            width == frame.width,
            y_row@.len() == width,
            cb_row@.len() == width,
            cr_row@.len() == width,
            cb_vblend@.len() == cb_plane.plane_width,
            cr_vblend@.len() == cr_plane.plane_width,
            cb_h_step == h_step(frame, 1),
            cb_v_step == v_step(frame, 1),
            cr_h_step == h_step(frame, 2),
            cr_v_step == v_step(frame, 2),
            layout.wf(),
            layout.spec_class() == PixelClass::Rgb,
            frame.components.len() == 3,
            out@ == composed_lines(samples, frame, layout, j as nat),
    {
        copy_plane_row(y_plane, j, y_row.as_mut_slice(), width);
        upsample_chroma_row(
            cb_plane,
            j,
            cb_v_step,
            cb_h_step,
            cb_vblend.as_mut_slice(),
            cb_row.as_mut_slice(),
            width,
        );
        upsample_chroma_row(
            cr_plane,
            j,
            cr_v_step,
            cr_h_step,
            cr_vblend.as_mut_slice(),
            cr_row.as_mut_slice(),
            width,
        );
        assert(y_row@ =~= y_plane@.row(width as int, j as int));
        assert(cb_row@ =~= cb_plane@.upsampled(
            cb_h_step as int,
            cb_v_step as int,
            width as int,
            j as int,
        ));
        assert(cr_row@ =~= cr_plane@.upsampled(
            cr_h_step as int,
            cr_v_step as int,
            width as int,
            j as int,
        ));
        let mut line = compose_rgb_line(
            y_row.as_slice(),
            cb_row.as_slice(),
            cr_row.as_slice(),
            layout,
            width,
        );
        out.append(&mut line);
    }
    Ok(out)
}

/// The composed rows have the length that the layout gives them.
pub proof fn law_composed_line_length(samples: Seq<Seq<u8>>, frame: Frame, layout: PixelLayout, j: int)
    requires
        layout.wf(),
    ensures
        composed_line(samples, frame, layout, j).len() == frame.width * layout.bpp,
{
    if layout.spec_class() == PixelClass::Gray {
        assert(frame.width * layout.bpp == frame.width) by (nonlinear_arith)
            requires
                layout.bpp == 1,
        ;
    }
    assert(0 <= frame.width * layout.bpp) by (nonlinear_arith);
}

proof fn lemma_composed_lines(
    samples: Seq<Seq<u8>>,
    frame: Frame,
    layout: PixelLayout,
    n: nat,
    j: int,
    t: int,
)
    requires
        layout.wf(),
        0 <= j,
        0 <= t < frame.width * layout.bpp,
    ensures
        ({
            let b = frame.width * layout.bpp;
            let lines = composed_lines(samples, frame, layout, n);
            &&& lines.len() == n * b
            &&& j < n ==> 0 <= j * b + t < lines.len() && lines[j * b + t] == composed_line(
                samples,
                frame,
                layout,
                j,
            )[t]
        }),
    decreases n,
{
    let b = frame.width * layout.bpp;
    if n > 0 {
        let m = (n - 1) as nat;
        lemma_composed_lines(samples, frame, layout, m, j, t);
        law_composed_line_length(samples, frame, layout, m as int);
        assert(n * b == m * b + b) by (nonlinear_arith)
            requires
                n == m + 1,
        ;
        assert(0 <= m * b) by (nonlinear_arith)
            requires
                0 <= m,
                0 <= b,
        ;
    } else {
        assert(n * b == 0) by (nonlinear_arith)
            requires
                n == 0,
        ;
    }
}

/// A composed image has `bpp` bytes for each pixel, row by row without
/// gaps: byte `t` of row `j` stands `j` rows and `t` bytes from the start.
pub proof fn law_composed_is_packed(samples: Seq<Seq<u8>>, frame: Frame, layout: PixelLayout, j: int, t: int)
    requires
        layout.wf(),
        0 <= j < frame.height,
        0 <= t < frame.width * layout.bpp,
    ensures
        composed(samples, frame, layout) matches Ok(pixels) ==> pixels.len() == frame.height * (frame.width
            * layout.bpp) && 0 <= j * (frame.width * layout.bpp) + t < pixels.len() && pixels[j * (frame.width
            * layout.bpp) + t] == composed_line(samples, frame, layout, j)[t],
{
    lemma_composed_lines(samples, frame, layout, frame.height as nat, j, t);
}

/// An image is refused only for its number of components: four go with
/// CMYK and with nothing else, and colors need one component or three.
pub proof fn law_composed_iff_components_match(samples: Seq<Seq<u8>>, frame: Frame, layout: PixelLayout)
    ensures
        composed(samples, frame, layout) is Ok <==> match layout.spec_class() {
            PixelClass::Cmyk => frame.components.len() == 4,
            PixelClass::Gray => frame.components.len() != 4,
            PixelClass::Rgb => frame.components.len() == 1 || frame.components.len() == 3,
        },
{
}

/// The color of pixel `i` of a row does not depend on the layout.
pub proof fn law_layouts_agree_on_colors(
    samples: Seq<Seq<u8>>,
    frame: Frame,
    a: PixelLayout,
    b: PixelLayout,
    j: int,
    i: int,
)
    requires
        a.wf(),
        b.wf(),
        a.spec_class() == PixelClass::Rgb,
        b.spec_class() == PixelClass::Rgb,
        0 <= i < frame.width,
    ensures
        pixel_at(composed_line(samples, frame, a, j), a, i) == pixel_at(
            composed_line(samples, frame, b, j),
            b,
            i,
        ),
{
    lemma_pixel_bytes(i, frame.width as int, a.bpp as int);
    lemma_pixel_bytes(i, frame.width as int, b.bpp as int);
}

/// The bytes of pixel `i` of a row of `w`.
proof fn lemma_pixel_bytes(i: int, w: int, bpp: int)
    requires
        0 <= i < w,
        0 < bpp,
    ensures
        forall|o: int|
            0 <= o < bpp ==> 0 <= #[trigger] (i * bpp + o) < w * bpp && (i * bpp + o) / bpp == i && (i * bpp + o)
                % bpp == o,
{
    assert forall|o: int| 0 <= o < bpp implies 0 <= #[trigger] (i * bpp + o) < w * bpp && (i * bpp + o) / bpp
        == i && (i * bpp + o) % bpp == o by {
        assert(0 <= i * bpp && i * bpp + bpp <= w * bpp) by (nonlinear_arith)
            requires
                0 <= i < w,
                0 < bpp,
        ;
        vstd::arithmetic::div_mod::lemma_fundamental_div_mod_converse(i * bpp + o, bpp, i, o);
    }
}

/// A grayscale image decodes to equal red, green and blue: its luma.
pub proof fn law_gray_image_has_gray_pixels(
    samples: Seq<Seq<u8>>,
    frame: Frame,
    layout: PixelLayout,
    j: int,
    i: int,
)
    requires
        layout.wf(),
        layout.spec_class() == PixelClass::Rgb,
        frame.components.len() == 1,
        0 <= i < frame.width,
    ensures
        ({
            let y = plane_of(samples, frame, 0).at(i, j);
            pixel_at(composed_line(samples, frame, layout, j), layout, i) == (y, y, y)
        }),
{
    lemma_pixel_bytes(i, frame.width as int, layout.bpp as int);
    law_neutral_chroma_is_gray(plane_of(samples, frame, 0).at(i, j));
}

/// Inside the image, a component that is not subsampled is taken over as
/// it is: upsampling by one changes nothing.
pub proof fn law_upsampling_by_one_is_the_row(p: Plane, n: int, j: int)
    requires
        p.wf(),
        0 <= n,
    ensures
        p.upsampled(1, 1, n, j) =~= p.row(n, j),
{
}

/// A plane of one value stays of that value however it is upsampled.
pub proof fn law_upsampling_keeps_constant(p: Plane, v: u8, h_step: int, v_step: int, n: int, j: int)
    requires
        p.wf(),
        forall|k: int| 0 <= k < p.samples.len() ==> #[trigger] p.samples[k] == v,
        1 <= h_step,
        1 <= v_step,
        0 <= n,
        0 <= j,
    ensures
        forall|i: int| 0 <= i < n ==> #[trigger] p.upsampled(h_step, v_step, n, j)[i] == v,
{
    let row = p.interpolated(v_step, j);
    assert forall|i: int| 0 <= i < p.width implies #[trigger] row[i] == v by {
        assert forall|y: int| 0 <= y implies #[trigger] p.at(i, y) == v by {
            let jj = min_int(y, p.height - 1);
            lemma_row_in_plane(p, jj);
            assert(p.at(i, jj) == p.samples[jj * p.stride + i]);
        }
        assert(j / v_step >= 0) by (nonlinear_arith)
            requires
                0 <= j,
                1 <= v_step,
        ;
    }
    assert forall|i: int| 0 <= i < n implies #[trigger] p.upsampled(h_step, v_step, n, j)[i] == v by {
        assert(i / h_step >= 0) by (nonlinear_arith)
            requires
                0 <= i,
                1 <= h_step,
        ;
        law_fancy_keeps_constant(row, p.width, v, min_int(i, 2 * p.width - 1));
    }
}

/// A plane with one row to two rows of the image is interpolated between
/// its rows, as a row is doubled. One with as many rows is taken over; one
/// with fewer repeats its rows.
pub proof fn law_rows_are_interpolated(p: Plane, i: int, j: int, step: int)
    requires
        p.wf(),
        0 <= i < p.width,
        0 <= j,
        step >= 1,
        j < step * p.height,
    ensures
        ({
            let row = |y: int| p.samples[limited(y, p.height) * p.stride + i] as int;
            let above = (2 * j - 1) / 4;
            let near_below = (2 * j + 1) - (4 * above + 2);
            let v = p.interpolated(step, j)[i];
            &&& step == 1 ==> v == row(j)
            &&& step == 2 ==> is_quarter_of(
                v,
                (4 - near_below) * row(above) + near_below * row(above + 1),
            )
            &&& step > 2 ==> v == row(j / step)
        }),
{
    let row = |y: int| p.samples[limited(y, p.height) * p.stride + i] as int;
    if step == 2 {
        let above = (2 * j - 1) / 4;
        let near_below = (2 * j + 1) - (4 * above + 2);
        let (a, b) = (row(above), row(above + 1));
        if j % 2 == 0 {
            assert(near_below == 3);
            assert((4 - near_below) * a + near_below * b == a + 3 * b) by (nonlinear_arith)
                requires
                    near_below == 3,
            ;
        } else {
            assert(near_below == 1);
            assert((4 - near_below) * a + near_below * b == 3 * a + b) by (nonlinear_arith)
                requires
                    near_below == 1,
            ;
        }
    } else if step > 2 {
        assert(0 <= j / step < p.height) by (nonlinear_arith)
            requires
                0 <= j < step * p.height,
                step > 2,
        ;
    }
}

/// A row is widened by a step of two as it is doubled; by one it is taken
/// over; by more its samples repeat.
pub proof fn law_rows_are_widened(row: Seq<u8>, n: int, i: int, step: int)
    requires
        row.len() >= 1,
        0 <= i < n,
        step >= 1,
        i < step * row.len(),
    ensures
        ({
            let v = widened(row, step, n)[i];
            &&& step == 1 ==> v == row[i]
            &&& step == 2 ==> v == fancy_doubled(row, row.len() as int, i)
            &&& step > 2 ==> v == row[i / step]
        }),
{
    if step > 2 {
        let len = row.len() as int;
        assert(0 <= i / step < len) by (nonlinear_arith)
            requires
                0 <= i < step * len,
                step > 2,
        ;
    }
}

/// Grayscale output is the first component, sample by sample.
pub proof fn law_gray_output_is_the_first_plane(samples: Seq<Seq<u8>>, frame: Frame, layout: PixelLayout, x: int, y: int)
    requires
        layout.bpp == 1,
        frame.components.len() != 4,
        0 <= x < frame.width,
        0 <= y < frame.height,
        x < frame.plane_width(0),
        y < frame.plane_height(0),
    ensures
        composed(samples, frame, layout) matches Ok(pixels) && pixels[y * frame.width + x]
            == samples[0][y * frame.stride(0) + x],
{
    assert(frame.width * layout.bpp == frame.width) by (nonlinear_arith)
        requires
            layout.bpp == 1,
    ;
    law_composed_is_packed(samples, frame, layout, y, x);
}

/// CMYK output holds the four components of a pixel one after the other.
pub proof fn law_cmyk_output_interleaves_the_planes(
    samples: Seq<Seq<u8>>,
    frame: Frame,
    layout: PixelLayout,
    x: int,
    y: int,
    c: int,
)
    requires
        layout.is_cmyk,
        layout.bpp == 4,
        frame.components.len() == 4,
        0 <= c < 4,
        0 <= x < frame.width,
        0 <= y < frame.height,
        x < frame.plane_width(c),
        y < frame.plane_height(c),
    ensures
        composed(samples, frame, layout) matches Ok(pixels) && pixels[y * (frame.width * 4) + 4 * x + c]
            == samples[c][y * frame.stride(c) + x],
{
    law_composed_is_packed(samples, frame, layout, y, 4 * x + c);
    assert((4 * x + c) / 4 == x && (4 * x + c) % 4 == c);
}

/// Color output holds at each pixel the color of the luma sample there and
/// of the two chroma rows as they are widened to the image.
pub proof fn law_color_output_combines_the_planes(
    samples: Seq<Seq<u8>>,
    frame: Frame,
    layout: PixelLayout,
    x: int,
    y: int,
    o: int,
)
    requires
        layout.wf(),
        layout.bpp >= 3,
        !layout.is_cmyk,
        frame.components.len() == 3,
        0 <= o < layout.bpp,
        0 <= x < frame.width,
        0 <= y < frame.height,
        x < frame.plane_width(0),
        y < frame.plane_height(0),
    ensures
        ({
            let luma = samples[0][y * frame.stride(0) + x];
            let chroma = |c: int|
                widened(
                    plane_of(samples, frame, c).interpolated(
                        frame.v_max() as int / frame.components[c].v as int,
                        y,
                    ),
                    frame.h_max() as int / frame.components[c].h as int,
                    frame.width as int,
                )[x];
            let (cb, cr) = (chroma(1), chroma(2));
            composed(samples, frame, layout) matches Ok(pixels) && pixels[y * (frame.width * layout.bpp) + (x
                * layout.bpp + o)] == if o == layout.r_off {
                ycc_red(luma, cb, cr)
            } else if o == layout.g_off {
                ycc_green(luma, cb, cr)
            } else if o == layout.b_off {
                ycc_blue(luma, cb, cr)
            } else {
                0xFF
            }
        }),
{
    lemma_pixel_bytes(x, frame.width as int, layout.bpp as int);
    assert(0 <= x * layout.bpp + o < frame.width * layout.bpp);
    law_composed_is_packed(samples, frame, layout, y, x * layout.bpp + o);
}

/// Beyond its edges a plane goes on with its last column and its last row.
pub proof fn law_edges_are_replicated(p: Plane, i: int, j: int)
    requires
        p.wf(),
        0 <= i,
        0 <= j,
    ensures
        i < p.width && j < p.height ==> p.at(i, j) == p.samples[j * p.stride + i],
        i >= p.width ==> p.at(i, j) == p.at(p.width - 1, j),
        j >= p.height ==> p.at(i, j) == p.at(i, p.height - 1),
{
}

} // verus!
