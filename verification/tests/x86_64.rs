use jpeg_rusturbo::arch::scalar;
use jpeg_rusturbo::arch::x86_64::{color, dct, huffman, quant, sample};
use jpeg_rusturbo::color::{PixelLayout, ABGR, ARGB, BGR, BGRA, BGRX, RGB, RGBA, RGBX};
use jpeg_rusturbo::quant::build_divisors;

const STD_LUMA_QUANT: [u8; 64] = [
    16, 11, 10, 16, 24, 40, 51, 61, 12, 12, 14, 19, 26, 58, 60, 55, 14, 13, 16, 24, 40, 57, 69, 56, 14, 17, 22, 29,
    51, 87, 80, 62, 18, 22, 37, 56, 68, 109, 103, 77, 24, 35, 55, 64, 81, 104, 113, 92, 49, 64, 78, 87, 103, 121, 120,
    101, 72, 92, 95, 98, 112, 100, 103, 99,
];

/// A quantization table scaled to a quality from 1 to 100.
fn scale_quant_table(base: &[u8; 64], quality: u8) -> [u8; 64] {
    let q = (quality as u32).clamp(1, 100);
    let scale = if q < 50 { 5000 / q } else { 200 - 2 * q };
    let mut out = [0u8; 64];
    for (o, b) in out.iter_mut().zip(base.iter()) {
        *o = ((*b as u32 * scale + 50) / 100).clamp(1, 255) as u8;
    }
    out
}

#[test]
fn quant_avx2_matches_scalar_random() {
    let mut block = [0i16; 64];
    for (i, v) in block.iter_mut().enumerate() {
        let m = (i as i32 * 37) % 4001 - 2000;
        *v = m as i16;
    }
    let qtab = scale_quant_table(&STD_LUMA_QUANT, 80);
    let div = build_divisors(&qtab);

    let mut sout = [0i16; 64];
    let mut aout = [0i16; 64];
    scalar::quant::quantize_natural(&block, &div, &mut sout);
    quant::quantize_natural(&block, &div, &mut aout);
    assert_eq!(sout, aout);
}

fn random_block(seed: u64) -> [i16; 64] {
    let mut s = seed
        .wrapping_mul(6364136223846793005)
        .wrapping_add(1442695040888963407);
    let mut b = [0i16; 64];
    for v in &mut b {
        s = s
            .wrapping_mul(6364136223846793005)
            .wrapping_add(1442695040888963407);
        *v = ((s >> 33) as i32 % 256 - 128) as i16;
    }
    b
}

#[test]
fn fdct_avx2_matches_scalar_zeros() {
    let mut a = [0i16; 64];
    let mut b = [0i16; 64];
    scalar::dct::fdct_islow(&mut a);
    dct::fdct_islow(&mut b);
    assert_eq!(a, b);
}

#[test]
fn fdct_avx2_matches_scalar_const() {
    let mut a = [42i16; 64];
    let mut b = [42i16; 64];
    scalar::dct::fdct_islow(&mut a);
    dct::fdct_islow(&mut b);
    assert_eq!(a, b);
}

#[test]
fn fdct_avx2_matches_scalar_ramp() {
    let mut a = [0i16; 64];
    for (i, v) in a.iter_mut().enumerate() {
        *v = (i as i16) - 32;
    }
    let mut b = a;
    scalar::dct::fdct_islow(&mut a);
    dct::fdct_islow(&mut b);
    assert_eq!(a, b);
}

#[test]
fn fdct_avx2_matches_scalar_random() {
    for seed in 0..5u64 {
        let mut a = random_block(seed);
        let mut b = a;
        scalar::dct::fdct_islow(&mut a);
        dct::fdct_islow(&mut b);
        assert_eq!(a, b, "seed={seed}");
    }
}

#[test]
fn fdct_avx2_matches_scalar_extremes() {
    let mut a = [0i16; 64];
    for (i, v) in a.iter_mut().enumerate() {
        *v = if i % 2 == 0 { 127 } else { -128 };
    }
    let mut b = a;
    scalar::dct::fdct_islow(&mut a);
    dct::fdct_islow(&mut b);
    assert_eq!(a, b);
}

fn run_idct_cross(coef: &[i16; 64]) {
    let mut a = [0u8; 64];
    let mut b = [0u8; 64];
    scalar::dct::idct_islow(coef, &mut a);
    dct::idct_islow(coef, &mut b);
    assert_eq!(a, b, "AVX2 IDCT diverges from scalar for input {coef:?}");
}

#[test]
fn idct_avx2_matches_scalar_zeros() {
    run_idct_cross(&[0i16; 64]);
}

#[test]
fn idct_avx2_matches_scalar_dc_only() {
    for dc in [-2048i16, -256, -1, 0, 1, 256, 2047] {
        let mut block = [0i16; 64];
        block[0] = dc;
        run_idct_cross(&block);
    }
}

#[test]
fn idct_avx2_dc_only_fast_path() {
    for dc in -2048i16..=2047i16 {
        let mut coef = [0i16; 64];
        coef[0] = dc;
        let expected = ((((dc as i32) + 4) >> 3) + 128).clamp(0, 255) as u8;
        let mut avx_out = [0u8; 64];
        dct::idct_islow(&coef, &mut avx_out);
        for (i, &v) in avx_out.iter().enumerate() {
            assert_eq!(v, expected, "dc={dc} pos={i}");
        }
    }
}

#[test]
fn idct_avx2_sparse_p1_matches_scalar_rows_4567_zero() {
    for seed in 0..200u64 {
        let mut s = seed.wrapping_mul(0x9E37_79B9_7F4A_7C15);
        let mut coef = [0i16; 64];
        for (k, slot) in coef.iter_mut().enumerate().take(32) {
            s = s
                .wrapping_mul(6364136223846793005)
                .wrapping_add(1442695040888963407);
            let r = (s >> 32) as i32;
            let scale = (1024i32 >> (k / 8)).clamp(1, 2047);
            let span = scale * 2 + 1;
            let centered = r.rem_euclid(span) - scale;
            *slot = centered.clamp(-2047, 2047) as i16;
        }
        run_idct_cross(&coef);
    }
    for k in 0..32 {
        let scale = (1024i16 >> (k / 8)).max(1);
        for &mag in &[1i16, -1] {
            let mut coef = [0i16; 64];
            coef[k] = mag;
            run_idct_cross(&coef);
        }
        for &mag in &[scale, -scale] {
            let mut coef = [0i16; 64];
            coef[k] = mag;
            run_idct_cross(&coef);
        }
    }
}

#[test]
fn idct_avx2_sparse_p2_matches_scalar_cols_4567_zero_workspace() {
    for seed in 0..200u64 {
        let mut s = seed.wrapping_mul(0x9E37_79B9_7F4A_7C15);
        let mut coef = [0i16; 64];
        for row in 0..8 {
            for col in 0..4 {
                s = s
                    .wrapping_mul(6364136223846793005)
                    .wrapping_add(1442695040888963407);
                let r = (s >> 32) as i32;
                let scale = (1024i32 >> row).clamp(1, 2047);
                let span = scale * 2 + 1;
                let centered = r.rem_euclid(span) - scale;
                coef[row * 8 + col] = centered.clamp(-2047, 2047) as i16;
            }
        }
        run_idct_cross(&coef);
    }
    for row in 0..8 {
        for col in 0..4 {
            let k = row * 8 + col;
            let scale = (1024i16 >> row).max(1);
            for &mag in &[1i16, -1, scale, -scale] {
                let mut coef = [0i16; 64];
                coef[k] = mag;
                run_idct_cross(&coef);
            }
        }
    }
    for seed in 0..50u64 {
        let mut s = seed.wrapping_mul(0x9E37_79B9_7F4A_7C15);
        let mut coef = [0i16; 64];
        for row in 0..4 {
            for col in 0..4 {
                s = s
                    .wrapping_mul(6364136223846793005)
                    .wrapping_add(1442695040888963407);
                let r = (s >> 32) as i32;
                let scale = (1024i32 >> row).clamp(1, 2047);
                let span = scale * 2 + 1;
                let centered = r.rem_euclid(span) - scale;
                coef[row * 8 + col] = centered.clamp(-2047, 2047) as i16;
            }
        }
        run_idct_cross(&coef);
    }
}

#[test]
fn idct_avx2_matches_scalar_ac_impulses() {
    for k in 1..64 {
        for &mag in &[1i16, -1, 256, -256, 1024, -1024] {
            let mut block = [0i16; 64];
            block[k] = mag;
            run_idct_cross(&block);
        }
    }
}

#[test]
fn idct_avx2_matches_scalar_ramp() {
    let mut block = [0i16; 64];
    for (i, v) in block.iter_mut().enumerate() {
        *v = (i as i16) * 8 - 256;
    }
    run_idct_cross(&block);
}

#[test]
fn idct_avx2_matches_scalar_random() {
    for seed in 0..100u64 {
        let mut s = seed.wrapping_mul(0x9E37_79B9_7F4A_7C15);
        let mut block = [0i16; 64];
        for (k, slot) in block.iter_mut().enumerate() {
            s = s
                .wrapping_mul(6364136223846793005)
                .wrapping_add(1442695040888963407);
            let r = (s >> 32) as i32;
            let scale = (1024i32 >> (k / 8)).clamp(1, 2047);
            let span = scale * 2 + 1;
            let centered = r.rem_euclid(span) - scale;
            *slot = centered.clamp(-2047, 2047) as i16;
        }
        run_idct_cross(&block);
    }
}

#[test]
fn idct_avx2_matches_scalar_dequantized_real_range() {
    let qtab = scale_quant_table(&STD_LUMA_QUANT, 75);
    let div = build_divisors(&qtab);
    for seed in 0..50u64 {
        let mut s = seed
            .wrapping_mul(6364136223846793005)
            .wrapping_add(1442695040888963407);
        let mut src = [0i16; 64];
        for (i, v) in src.iter_mut().enumerate() {
            s = s
                .wrapping_mul(6364136223846793005)
                .wrapping_add(1442695040888963407);
            let noise = ((s >> 56) as i16) / 8;
            let grad = ((i / 8) as i16) * 4 + ((i % 8) as i16) * 2 - 64;
            *v = grad + noise;
        }
        scalar::dct::fdct_islow(&mut src);
        let mut quantized = [0i16; 64];
        scalar::quant::quantize_natural(&src, &div, &mut quantized);
        let mut coef = [0i16; 64];
        for i in 0..64 {
            coef[i] = (quantized[i] as i32 * qtab[i] as i32).clamp(-32768, 32767) as i16;
        }
        run_idct_cross(&coef);
    }
}

#[test]
fn h2v2_downsample_avx2_matches_scalar_random() {
    let mut src = [0u8; 256];
    for (i, v) in src.iter_mut().enumerate() {
        *v = ((i * 53 + 17) % 256) as u8;
    }
    let mut a = [0i16; 64];
    let mut b = [0i16; 64];
    scalar::color::h2v2_downsample(&src, &mut a);
    color::h2v2_downsample(&src, &mut b);
    assert_eq!(a, b);
}

#[test]
fn h2v1_downsample_matches_scalar_random() {
    let mut src = [0u8; 128];
    for (i, v) in src.iter_mut().enumerate() {
        *v = ((i * 71 + 23) % 256) as u8;
    }
    let mut a = [0i16; 64];
    let mut b = [0i16; 64];
    scalar::color::h2v1_downsample(&src, &mut a);
    color::h2v1_downsample(&src, &mut b);
    assert_eq!(a, b);
}

#[test]
fn h2v2_downsample_avx2_matches_scalar_extremes() {
    let panels: [[u8; 256]; 4] = [
        [0u8; 256],
        [255u8; 256],
        {
            let mut a = [0u8; 256];
            for (i, v) in a.iter_mut().enumerate() {
                *v = if i % 2 == 0 { 1 } else { 0 };
            }
            a
        },
        {
            let mut a = [0u8; 256];
            for (i, v) in a.iter_mut().enumerate() {
                let row = i / 16;
                let col = i % 16;
                *v = ((row * 16 + col) % 256) as u8;
            }
            a
        },
    ];
    for src in &panels {
        let mut a = [0i16; 64];
        let mut b = [0i16; 64];
        scalar::color::h2v2_downsample(src, &mut a);
        color::h2v2_downsample(src, &mut b);
        assert_eq!(a, b);
    }
}

#[test]
fn color_avx2_matches_scalar_rgba16_random() {
    let mut pixels = [0u8; 16 * 4];
    for i in 0..16 {
        pixels[i * 4] = ((i * 17) % 256) as u8;
        pixels[i * 4 + 1] = ((i * 23 + 7) % 256) as u8;
        pixels[i * 4 + 2] = ((i * 31 + 13) % 256) as u8;
        pixels[i * 4 + 3] = 255;
    }
    let mut y_s = [0u8; 16];
    let mut cb_s = [0u8; 16];
    let mut cr_s = [0u8; 16];
    scalar::color::rgb_row_to_ycc(&pixels, RGBA(), 16, &mut y_s, &mut cb_s, &mut cr_s);

    let mut y_a = [0u8; 16];
    let mut cb_a = [0u8; 16];
    let mut cr_a = [0u8; 16];
    color::rgb_row_to_ycc(&pixels, RGBA(), 16, &mut y_a, &mut cb_a, &mut cr_a);

    assert_eq!(y_s, y_a);
    assert_eq!(cb_s, cb_a);
    assert_eq!(cr_s, cr_a);
}

#[test]
fn color_avx2_matches_scalar_rgba16_extremes() {
    let panels: [[u8; 4]; 5] = [
        [0, 0, 0, 255],
        [255, 255, 255, 255],
        [255, 0, 0, 255],
        [0, 255, 0, 255],
        [0, 0, 255, 255],
    ];
    for color in &panels {
        let mut pixels = [0u8; 16 * 4];
        for i in 0..16 {
            pixels[i * 4..i * 4 + 4].copy_from_slice(color);
        }
        let mut y_s = [0u8; 16];
        let mut cb_s = [0u8; 16];
        let mut cr_s = [0u8; 16];
        scalar::color::rgb_row_to_ycc(&pixels, RGBA(), 16, &mut y_s, &mut cb_s, &mut cr_s);
        let mut y_a = [0u8; 16];
        let mut cb_a = [0u8; 16];
        let mut cr_a = [0u8; 16];
        color::rgb_row_to_ycc(&pixels, RGBA(), 16, &mut y_a, &mut cb_a, &mut cr_a);
        assert_eq!(y_s, y_a, "y mismatch for color {color:?}");
        assert_eq!(cb_s, cb_a, "cb mismatch for color {color:?}");
        assert_eq!(cr_s, cr_a, "cr mismatch for color {color:?}");
    }
}

#[test]
fn color_avx2_matches_scalar_rgba16_full_range() {
    let mut state: u64 = 0xC0DE;
    for _ in 0..30 {
        let mut pixels = [0u8; 16 * 4];
        for i in 0..16 {
            state = state
                .wrapping_mul(6364136223846793005)
                .wrapping_add(1442695040888963407);
            pixels[i * 4] = (state >> 24) as u8;
            pixels[i * 4 + 1] = (state >> 32) as u8;
            pixels[i * 4 + 2] = (state >> 40) as u8;
            pixels[i * 4 + 3] = 255;
        }
        let mut y_s = [0u8; 16];
        let mut cb_s = [0u8; 16];
        let mut cr_s = [0u8; 16];
        scalar::color::rgb_row_to_ycc(&pixels, RGBA(), 16, &mut y_s, &mut cb_s, &mut cr_s);
        let mut y_a = [0u8; 16];
        let mut cb_a = [0u8; 16];
        let mut cr_a = [0u8; 16];
        color::rgb_row_to_ycc(&pixels, RGBA(), 16, &mut y_a, &mut cb_a, &mut cr_a);
        assert_eq!((y_s, cb_s, cr_s), (y_a, cb_a, cr_a));
    }
}

#[test]
fn color_avx2_matches_scalar_rgb24_random() {
    for layout in [RGB(), BGR()] {
        let mut pixels = [0u8; 16 * 3];
        for i in 0..16 {
            pixels[i * 3] = ((i * 17) % 256) as u8;
            pixels[i * 3 + 1] = ((i * 23 + 7) % 256) as u8;
            pixels[i * 3 + 2] = ((i * 31 + 13) % 256) as u8;
        }
        let mut y_s = [0u8; 16];
        let mut cb_s = [0u8; 16];
        let mut cr_s = [0u8; 16];
        scalar::color::rgb_row_to_ycc(&pixels, layout, 16, &mut y_s, &mut cb_s, &mut cr_s);

        let mut y_a = [0u8; 16];
        let mut cb_a = [0u8; 16];
        let mut cr_a = [0u8; 16];
        color::rgb_row_to_ycc(&pixels, layout, 16, &mut y_a, &mut cb_a, &mut cr_a);

        assert_eq!(y_s, y_a, "y mismatch for {layout:?}");
        assert_eq!(cb_s, cb_a, "cb mismatch for {layout:?}");
        assert_eq!(cr_s, cr_a, "cr mismatch for {layout:?}");
    }
}

#[test]
fn color_avx2_matches_scalar_rgb24_extremes() {
    let panels: [[u8; 3]; 5] = [
        [0, 0, 0],
        [255, 255, 255],
        [255, 0, 0],
        [0, 255, 0],
        [0, 0, 255],
    ];
    for layout in [RGB(), BGR()] {
        for color in &panels {
            let mut pixels = [0u8; 16 * 3];
            for i in 0..16 {
                pixels[i * 3..i * 3 + 3].copy_from_slice(color);
            }
            let mut y_s = [0u8; 16];
            let mut cb_s = [0u8; 16];
            let mut cr_s = [0u8; 16];
            scalar::color::rgb_row_to_ycc(&pixels, layout, 16, &mut y_s, &mut cb_s, &mut cr_s);
            let mut y_a = [0u8; 16];
            let mut cb_a = [0u8; 16];
            let mut cr_a = [0u8; 16];
            color::rgb_row_to_ycc(&pixels, layout, 16, &mut y_a, &mut cb_a, &mut cr_a);
            assert_eq!(y_s, y_a, "y mismatch for {layout:?} {color:?}");
            assert_eq!(cb_s, cb_a, "cb mismatch for {layout:?} {color:?}");
            assert_eq!(cr_s, cr_a, "cr mismatch for {layout:?} {color:?}");
        }
    }
}

#[test]
fn color_avx2_matches_scalar_rgb24_full_range() {
    for layout in [RGB(), BGR()] {
        let mut state: u64 = 0xC0DE;
        for _ in 0..30 {
            let mut pixels = [0u8; 16 * 3];
            for i in 0..16 {
                state = state
                    .wrapping_mul(6364136223846793005)
                    .wrapping_add(1442695040888963407);
                pixels[i * 3] = (state >> 24) as u8;
                pixels[i * 3 + 1] = (state >> 32) as u8;
                pixels[i * 3 + 2] = (state >> 40) as u8;
            }
            let mut y_s = [0u8; 16];
            let mut cb_s = [0u8; 16];
            let mut cr_s = [0u8; 16];
            scalar::color::rgb_row_to_ycc(&pixels, layout, 16, &mut y_s, &mut cb_s, &mut cr_s);
            let mut y_a = [0u8; 16];
            let mut cb_a = [0u8; 16];
            let mut cr_a = [0u8; 16];
            color::rgb_row_to_ycc(&pixels, layout, 16, &mut y_a, &mut cb_a, &mut cr_a);
            assert_eq!((y_s, cb_s, cr_s), (y_a, cb_a, cr_a), "{layout:?}");
        }
    }
}

#[test]
fn quant_avx2_matches_scalar_extremes() {
    let block_zero = [0i16; 64];
    let mut block_extreme = [0i16; 64];
    for (i, v) in block_extreme.iter_mut().enumerate() {
        *v = if i % 2 == 0 { 32767 } else { -32768 };
    }

    for q in [10u8, 50, 80, 95] {
        let qtab = scale_quant_table(&STD_LUMA_QUANT, q);
        let div = build_divisors(&qtab);
        for block in [&block_zero, &block_extreme] {
            let mut s = [0i16; 64];
            let mut a = [0i16; 64];
            scalar::quant::quantize_natural(block, &div, &mut s);
            quant::quantize_natural(block, &div, &mut a);
            assert_eq!(s, a, "q={q}");
        }
    }
}

fn lcg_next(state: &mut u64) -> u8 {
    *state = state
        .wrapping_mul(6364136223846793005)
        .wrapping_add(1442695040888963407);
    (*state >> 56) as u8
}

fn fill_lcg(buf: &mut [u8], seed: u64) {
    let mut s = seed;
    for v in buf.iter_mut() {
        *v = lcg_next(&mut s);
    }
}

fn assert_ycc_match(y: &[u8], cb: &[u8], cr: &[u8], n: usize, layout: PixelLayout, tag: &str) {
    let bpp = layout.bpp;
    let mut out_s = vec![0u8; n * bpp];
    let mut out_a = vec![0u8; n * bpp];
    scalar::color::ycc_row_to_rgb(y, cb, cr, &mut out_s, n, layout);
    color::ycc_row_to_rgb(y, cb, cr, &mut out_a, n, layout);
    assert_eq!(out_s, out_a, "{tag} bpp={bpp}");
}

fn all_layouts() -> [(PixelLayout, &'static str); 8] {
    [
        (RGB(), "RGB"),
        (BGR(), "BGR"),
        (RGBA(), "RGBA"),
        (BGRA(), "BGRA"),
        (ARGB(), "ARGB"),
        (ABGR(), "ABGR"),
        (RGBX(), "RGBX"),
        (BGRX(), "BGRX"),
    ]
}

#[test]
fn ycc_row_to_rgb_avx2_matches_scalar_all_layouts_n16() {
    let mut y = [0u8; 16];
    let mut cb = [0u8; 16];
    let mut cr = [0u8; 16];
    fill_lcg(&mut y, 0xC0DE_0001);
    fill_lcg(&mut cb, 0xC0DE_0002);
    fill_lcg(&mut cr, 0xC0DE_0003);
    for (layout, tag) in all_layouts() {
        assert_ycc_match(&y, &cb, &cr, 16, layout, tag);
    }
}

#[test]
fn ycc_row_to_rgb_avx2_matches_scalar_extremes() {
    let panels: [(u8, u8, u8); 16] = [
        (0, 0, 0),
        (0, 0, 255),
        (0, 255, 0),
        (0, 255, 255),
        (255, 0, 0),
        (255, 0, 255),
        (255, 255, 0),
        (255, 255, 255),
        (128, 128, 128),
        (16, 128, 128),
        (235, 128, 128),
        (128, 16, 128),
        (128, 240, 128),
        (128, 128, 16),
        (128, 128, 240),
        (200, 50, 200),
    ];
    let mut y = [0u8; 16];
    let mut cb = [0u8; 16];
    let mut cr = [0u8; 16];
    for (i, (yi, cbi, cri)) in panels.iter().enumerate() {
        y[i] = *yi;
        cb[i] = *cbi;
        cr[i] = *cri;
    }
    for (layout, tag) in all_layouts() {
        assert_ycc_match(&y, &cb, &cr, 16, layout, tag);
    }
}

#[test]
fn ycc_row_to_rgb_avx2_matches_scalar_chroma_sweep() {
    let mut y = [0u8; 16];
    for cb_val in 0..=255u16 {
        let cb = [cb_val as u8; 16];
        for cr_block in 0..16u16 {
            let mut cr = [0u8; 16];
            for (i, v) in cr.iter_mut().enumerate() {
                *v = (cr_block * 16 + i as u16) as u8;
            }
            fill_lcg(
                &mut y,
                0xF00D_0000 ^ cb_val as u64 ^ ((cr_block as u64) << 8),
            );
            for (layout, tag) in all_layouts() {
                assert_ycc_match(&y, &cb, &cr, 16, layout, tag);
            }
        }
    }
}

#[test]
fn ycc_row_to_rgb_avx2_matches_scalar_with_tail() {
    let mut y = [0u8; 64];
    let mut cb = [0u8; 64];
    let mut cr = [0u8; 64];
    fill_lcg(&mut y, 0xBEEF_0001);
    fill_lcg(&mut cb, 0xBEEF_0002);
    fill_lcg(&mut cr, 0xBEEF_0003);
    for n in [1usize, 7, 8, 15, 16, 17, 31, 32, 33, 47] {
        for (layout, tag) in all_layouts() {
            assert_ycc_match(&y[..n], &cb[..n], &cr[..n], n, layout, tag);
        }
    }
}

#[test]
fn huffman_nonzero_bitmap_sse2_matches_scalar() {
    let block = [0i16; 64];
    assert_eq!(
        scalar::huffman::nonzero_bitmap(&block),
        huffman::nonzero_bitmap(&block),
    );

    let mut block = [0i16; 64];
    for (i, v) in block.iter_mut().enumerate() {
        *v = (i as i16) - 32;
        if *v == 0 {
            *v = 1;
        }
    }
    assert_eq!(
        scalar::huffman::nonzero_bitmap(&block),
        huffman::nonzero_bitmap(&block),
    );

    let mut block = [0i16; 64];
    for k in [0, 1, 7, 8, 15, 16, 31, 32, 47, 48, 62, 63] {
        block[k] = (k as i16) + 1;
    }
    assert_eq!(
        scalar::huffman::nonzero_bitmap(&block),
        huffman::nonzero_bitmap(&block),
    );

    let mut block = [0i16; 64];
    block[0] = i16::MIN;
    block[63] = i16::MAX;
    assert_eq!(
        scalar::huffman::nonzero_bitmap(&block),
        huffman::nonzero_bitmap(&block),
    );

    let mut state: u64 = 0xDEAD_BEEF_CAFE_F00D;
    let mut block = [0i16; 64];
    for v in block.iter_mut() {
        state = state
            .wrapping_mul(6364136223846793005)
            .wrapping_add(1442695040888963407);
        *v = ((state >> 55) as i16).wrapping_sub(128);
    }
    assert_eq!(
        scalar::huffman::nonzero_bitmap(&block),
        huffman::nonzero_bitmap(&block),
    );
}

fn lcg_bytes(seed: u64, n: usize) -> Vec<u8> {
    let mut s = seed;
    let mut v = vec![0u8; n];
    for b in v.iter_mut() {
        s = s
            .wrapping_mul(6364136223846793005)
            .wrapping_add(1442695040888963407);
        *b = (s >> 56) as u8;
    }
    v
}

#[test]
fn h2v2_fancy_vblend_avx2_matches_scalar() {
    for &n in &[1usize, 7, 16, 31, 32, 33, 47, 64, 65, 96, 127, 200, 257] {
        let cur = lcg_bytes(0xA1B2_C3D4_E5F6_0718, n);
        let nbr = lcg_bytes(0x1234_5678_9ABC_DEF0, n);
        let mut a = vec![0u8; n];
        let mut b = vec![0u8; n];
        scalar::sample::h2v2_fancy_vblend(&cur, &nbr, &mut a, n);
        sample::h2v2_fancy_vblend(&cur, &nbr, &mut b, n);
        assert_eq!(a, b, "n = {n}");
    }
}

#[test]
fn h2v2_fancy_vblend_avx2_extremes() {
    let n = 128;
    let cur = vec![255u8; n];
    let nbr = vec![255u8; n];
    let mut a = vec![0u8; n];
    let mut b = vec![0u8; n];
    scalar::sample::h2v2_fancy_vblend(&cur, &nbr, &mut a, n);
    sample::h2v2_fancy_vblend(&cur, &nbr, &mut b, n);
    assert_eq!(a, b);

    let cur = vec![0u8; n];
    let nbr = vec![255u8; n];
    scalar::sample::h2v2_fancy_vblend(&cur, &nbr, &mut a, n);
    sample::h2v2_fancy_vblend(&cur, &nbr, &mut b, n);
    assert_eq!(a, b);
}

#[test]
fn h2_fancy_upsample_avx2_matches_scalar() {
    for &n in &[
        1usize, 2, 7, 16, 32, 33, 34, 35, 48, 63, 64, 65, 96, 127, 200, 257,
    ] {
        let src = lcg_bytes(0x0F1E_2D3C_4B5A_6978, n);
        let mut a = vec![0u8; 2 * n];
        let mut b = vec![0u8; 2 * n];
        scalar::sample::h2_fancy_upsample(&src, &mut a, n);
        sample::h2_fancy_upsample(&src, &mut b, n);
        assert_eq!(a, b, "n = {n}");
    }
}

#[test]
fn h2_fancy_upsample_avx2_extremes() {
    let n = 96;
    let src = vec![255u8; n];
    let mut a = vec![0u8; 2 * n];
    let mut b = vec![0u8; 2 * n];
    scalar::sample::h2_fancy_upsample(&src, &mut a, n);
    sample::h2_fancy_upsample(&src, &mut b, n);
    assert_eq!(a, b, "all-max");

    let mut src = vec![0u8; n];
    for (k, v) in src.iter_mut().enumerate() {
        *v = if k < 32 { 0 } else { 255 };
    }
    scalar::sample::h2_fancy_upsample(&src, &mut a, n);
    sample::h2_fancy_upsample(&src, &mut b, n);
    assert_eq!(a, b, "step at 32");
}
