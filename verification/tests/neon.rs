use jpeg_rusturbo::arch::neon::{color, dct, huffman, quant};
use jpeg_rusturbo::arch::scalar;
use jpeg_rusturbo::color::RGBA;
use jpeg_rusturbo::quant::build_divisors;

const STD_LUMA_QUANT: [u8; 64] = [
    16, 11, 10, 16, 24, 40, 51, 61, 12, 12, 14, 19, 26, 58, 60, 55, 14, 13, 16, 24, 40, 57, 69, 56, 14, 17, 22, 29,
    51, 87, 80, 62, 18, 22, 37, 56, 68, 109, 103, 77, 24, 35, 55, 64, 81, 104, 113, 92, 49, 64, 78, 87, 103, 121, 120,
    101, 72, 92, 95, 98, 112, 100, 103, 99,
];

/// A quantization table scaled to a quality from 1 to 100.
fn scale_quant_table(base: &[u8; 64], quality: u8) -> [u8; 64] {
    let q = (quality as u32).clamp(1, 100);
    let scale = if q < 50 { 5000 / q } else { 200 - 2 * q };
    let mut out = [0u8; 64];
    for (o, b) in out.iter_mut().zip(base.iter()) {
        *o = ((*b as u32 * scale + 50) / 100).clamp(1, 255) as u8;
    }
    out
}

fn random_block(seed: u64) -> [i16; 64] {
    let mut s = seed
        .wrapping_mul(6364136223846793005)
        .wrapping_add(1442695040888963407);
    let mut b = [0i16; 64];
    for v in &mut b {
        s = s
            .wrapping_mul(6364136223846793005)
            .wrapping_add(1442695040888963407);
        *v = ((s >> 33) as i32 % 256 - 128) as i16;
    }
    b
}

#[test]
fn color_neon_matches_scalar_row16() {
    let mut pixels = [0u8; 16 * 4];
    for i in 0..16 {
        pixels[i * 4] = (i * 17) as u8;
        pixels[i * 4 + 1] = ((i * 23 + 7) % 256) as u8;
        pixels[i * 4 + 2] = ((i * 31 + 13) % 256) as u8;
        pixels[i * 4 + 3] = 255;
    }
    let mut y_s = [0u8; 16];
    let mut cb_s = [0u8; 16];
    let mut cr_s = [0u8; 16];
    scalar::color::rgb_row_to_ycc(&pixels, RGBA(), 16, &mut y_s, &mut cb_s, &mut cr_s);

    let mut y_n = [0u8; 16];
    let mut cb_n = [0u8; 16];
    let mut cr_n = [0u8; 16];
    color::rgb_row_to_ycc(&pixels, RGBA(), 16, &mut y_n, &mut cb_n, &mut cr_n);

    assert_eq!(y_s, y_n);
    assert_eq!(cb_s, cb_n);
    assert_eq!(cr_s, cr_n);
}

#[test]
fn color_neon_matches_scalar_downsample() {
    let mut src = [0u8; 256];
    for (i, v) in src.iter_mut().enumerate() {
        *v = ((i * 53 + 17) % 256) as u8;
    }
    let mut a = [0i16; 64];
    let mut b = [0i16; 64];
    scalar::color::h2v2_downsample(&src, &mut a);
    color::h2v2_downsample(&src, &mut b);
    assert_eq!(a, b);
}

#[test]
fn color_neon_matches_scalar_h2v1_downsample() {
    let mut src = [0u8; 128];
    for (i, v) in src.iter_mut().enumerate() {
        *v = ((i * 71 + 23) % 256) as u8;
    }
    let mut a = [0i16; 64];
    let mut b = [0i16; 64];
    scalar::color::h2v1_downsample(&src, &mut a);
    color::h2v1_downsample(&src, &mut b);
    assert_eq!(a, b);
}

#[test]
fn fdct_neon_matches_scalar_zeros() {
    let mut a = [0i16; 64];
    let mut b = [0i16; 64];
    scalar::dct::fdct_islow(&mut a);
    dct::fdct_islow(&mut b);
    assert_eq!(a, b);
}

#[test]
fn fdct_neon_matches_scalar_const() {
    let mut a = [42i16; 64];
    let mut b = [42i16; 64];
    scalar::dct::fdct_islow(&mut a);
    dct::fdct_islow(&mut b);
    assert_eq!(a, b);
}

#[test]
fn fdct_neon_matches_scalar_ramp() {
    let mut a = [0i16; 64];
    for (i, v) in a.iter_mut().enumerate() {
        *v = (i as i16) - 32;
    }
    let mut b = a;
    scalar::dct::fdct_islow(&mut a);
    dct::fdct_islow(&mut b);
    assert_eq!(a, b);
}

#[test]
fn fdct_neon_matches_scalar_random() {
    for seed in 0..5u64 {
        let mut a = random_block(seed);
        let mut b = a;
        scalar::dct::fdct_islow(&mut a);
        dct::fdct_islow(&mut b);
        assert_eq!(a, b, "seed={seed}");
    }
}

#[test]
fn fdct_neon_matches_scalar_extremes() {
    let mut a = [0i16; 64];
    for (i, v) in a.iter_mut().enumerate() {
        *v = if i % 2 == 0 { 127 } else { -128 };
    }
    let mut b = a;
    scalar::dct::fdct_islow(&mut a);
    dct::fdct_islow(&mut b);
    assert_eq!(a, b);
}

#[test]
fn quant_neon_matches_scalar() {
    let mut block = [0i16; 64];
    for (i, v) in block.iter_mut().enumerate() {
        let m = (i as i32 * 37) % 4001 - 2000;
        *v = m as i16;
    }
    let qtab = scale_quant_table(&STD_LUMA_QUANT, 80);
    let div = build_divisors(&qtab);

    let mut sout = [0i16; 64];
    let mut nout = [0i16; 64];
    scalar::quant::quantize_natural(&block, &div, &mut sout);
    quant::quantize_natural(&block, &div, &mut nout);
    assert_eq!(sout, nout);
}

#[test]
fn huffman_nonzero_bitmap_matches_scalar() {
    let block = [0i16; 64];
    assert_eq!(
        scalar::huffman::nonzero_bitmap(&block),
        huffman::nonzero_bitmap(&block),
    );

    let mut block = [0i16; 64];
    for (i, v) in block.iter_mut().enumerate() {
        *v = (i as i16) - 32;
        if *v == 0 {
            *v = 1;
        }
    }
    assert_eq!(
        scalar::huffman::nonzero_bitmap(&block),
        huffman::nonzero_bitmap(&block),
    );

    let mut block = [0i16; 64];
    for k in [0, 1, 7, 8, 15, 16, 31, 32, 47, 48, 62, 63] {
        block[k] = (k as i16) + 1;
    }
    assert_eq!(
        scalar::huffman::nonzero_bitmap(&block),
        huffman::nonzero_bitmap(&block),
    );

    let mut block = [0i16; 64];
    block[0] = i16::MIN;
    block[63] = i16::MAX;
    assert_eq!(
        scalar::huffman::nonzero_bitmap(&block),
        huffman::nonzero_bitmap(&block),
    );

    let mut state: u64 = 0xDEAD_BEEF_CAFE_F00D;
    let mut block = [0i16; 64];
    for v in block.iter_mut() {
        state = state
            .wrapping_mul(6364136223846793005)
            .wrapping_add(1442695040888963407);
        *v = ((state >> 55) as i16).wrapping_sub(128);
    }
    assert_eq!(
        scalar::huffman::nonzero_bitmap(&block),
        huffman::nonzero_bitmap(&block),
    );
}

fn idct_xcheck(coef: &[i16; 64], tag: &str) {
    let mut s = [0u8; 64];
    let mut n = [0u8; 64];
    scalar::dct::idct_islow(coef, &mut s);
    dct::idct_islow(coef, &mut n);
    assert_eq!(s, n, "{tag}");
}

#[test]
fn idct_neon_matches_scalar_zeros() {
    idct_xcheck(&[0i16; 64], "zeros");
}

#[test]
fn idct_neon_matches_scalar_dc_only() {
    for &dc in &[2047i16, -2048, 1024, -1024, 512, -512, 8, -8] {
        let mut coef = [0i16; 64];
        coef[0] = dc;
        idct_xcheck(&coef, &format!("dc={dc}"));
    }
}

#[test]
fn idct_neon_matches_scalar_ac_impulse() {
    for k in 1..64 {
        for &m in &[1i16, -1, 17, -17, 256, -256, 1024, -1024, 2047, -2048] {
            let mut coef = [0i16; 64];
            coef[k] = m;
            idct_xcheck(&coef, &format!("k={k} m={m}"));
        }
    }
}

#[test]
fn idct_neon_matches_scalar_natural() {
    for seed in 0..100u64 {
        let mut block = random_block(seed);
        for v in block.iter_mut() {
            *v = (*v / 4).saturating_add(if seed.is_multiple_of(3) { 32 } else { 0 });
        }
        scalar::dct::fdct_islow(&mut block);
        idct_xcheck(&block, &format!("natural seed={seed}"));
    }
}

#[test]
fn idct_neon_matches_scalar_dequantized_real_range() {
    let qtab = scale_quant_table(&STD_LUMA_QUANT, 75);
    let div = build_divisors(&qtab);
    for seed in 0..50u64 {
        let mut s = seed
            .wrapping_mul(6364136223846793005)
            .wrapping_add(1442695040888963407);
        let mut src = [0i16; 64];
        for (i, v) in src.iter_mut().enumerate() {
            s = s
                .wrapping_mul(6364136223846793005)
                .wrapping_add(1442695040888963407);
            let noise = ((s >> 56) as i16) / 8;
            let grad = ((i / 8) as i16) * 4 + ((i % 8) as i16) * 2 - 64;
            *v = grad + noise;
        }
        scalar::dct::fdct_islow(&mut src);
        let mut quantized = [0i16; 64];
        scalar::quant::quantize_natural(&src, &div, &mut quantized);
        let mut coef = [0i16; 64];
        for i in 0..64 {
            coef[i] = (quantized[i] as i32 * qtab[i] as i32).clamp(-32768, 32767) as i16;
        }
        idct_xcheck(&coef, &format!("dequant seed={seed}"));
    }
}
