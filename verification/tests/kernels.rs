use jpeg_rusturbo::arch::scalar::color::{
    h2v1_downsample, h2v1_upsample, h2v2_downsample, h2v2_upsample, rgb_row_to_ycc, ycc_row_to_rgb,
};
use jpeg_rusturbo::arch::scalar::dct::idct_islow;
use jpeg_rusturbo::arch::scalar::huffman::{ac_magnitudes, nonzero_bitmap};
use jpeg_rusturbo::arch::scalar::quant::{quantize_natural, quantize_one, zigzag_scatter};
use jpeg_rusturbo::arch::scalar::sample::{blend_samples, h2_fancy_upsample, h2v2_fancy_vblend};
use jpeg_rusturbo::arch::x86_64::encode::quantize_mcu_420_rgb_full;
use jpeg_rusturbo::arch::{neon, x86_64};
use jpeg_rusturbo::bench::make_image;
use jpeg_rusturbo::color::{
    extract_block_cmyk, extract_block_gray, extract_block_ycbcr, extract_mcu_420_rgb_full, PixelClass, PixelFormat,
    PixelLayout, BGRA, CMYK, GRAY, RGB,
};
use jpeg_rusturbo::dct::fdct_islow;
use jpeg_rusturbo::quant::build_divisors;
use jpeg_rusturbo::tables::{ZIGZAG, ZIGZAG_INVERSE};

#[test]
fn zigzag_is_a_permutation() {
    let mut seen = [false; 64];
    for k in 0..64 {
        assert!(!seen[ZIGZAG[k]]);
        seen[ZIGZAG[k]] = true;
        assert_eq!(ZIGZAG_INVERSE[ZIGZAG[k]], k);
    }
}

#[test]
fn zigzag_scatter_reorders() {
    let mut natural = [0i16; 64];
    for (i, v) in natural.iter_mut().enumerate() {
        *v = i as i16;
    }
    let mut zz = [0i16; 64];
    zigzag_scatter(&natural, &mut zz);
    assert_eq!(&zz[..10], &[0, 1, 8, 16, 9, 2, 3, 10, 17, 24]);
    assert_eq!(&zz[60..], &[47, 55, 62, 63]);
    let mut other = [0i16; 64];
    x86_64::quant::zigzag_scatter(&natural, &mut other);
    assert_eq!(zz, other);
}

#[test]
fn divisors_hold_reciprocals() {
    let mut qtab = [1u8; 64];
    qtab[1] = 2;
    qtab[2] = 3;
    qtab[3] = 255;
    let div = build_divisors(&qtab);
    let at = |i: usize| (div.recip[i], div.corr[i], div.scale[i], div.shift[i]);
    assert_eq!(at(0), (32768, 4, 16384, 2));
    assert_eq!(at(1), (32768, 8, 8192, 3));
    assert_eq!(at(2), (43691, 12, 4096, 4));
    // 2^26 / 2040 is 32896 and a remainder of 1024, more than half.
    assert_eq!(at(3), (32897, 1020, 64, 10));
}

#[test]
fn quantization_rounds_halves_away_from_zero() {
    let div = build_divisors(&[2u8; 64]);
    let q = |x: i16| quantize_one(x, div.recip[0], div.corr[0], div.shift[0]);
    assert_eq!((q(7), q(8), q(23), q(24)), (0, 1, 1, 2));
    assert_eq!((q(-7), q(-8), q(-23), q(-24)), (0, -1, -1, -2));
    assert_eq!((q(32767), q(-32768)), (2048, -2048));
}

#[test]
fn backends_quantize_every_coefficient_alike() {
    for q in [1u8, 2, 3, 7, 50, 99, 128, 255] {
        let div = build_divisors(&[q; 64]);
        let mut x = -32768i32;
        while x + 63 <= 32767 {
            let mut block = [0i16; 64];
            for (i, v) in block.iter_mut().enumerate() {
                *v = (x + i as i32) as i16;
            }
            let (mut s, mut n, mut a) = ([0i16; 64], [0i16; 64], [0i16; 64]);
            quantize_natural(&block, &div, &mut s);
            neon::quant::quantize_natural(&block, &div, &mut n);
            x86_64::quant::quantize_natural(&block, &div, &mut a);
            assert_eq!(s, n, "q={q}");
            assert_eq!(s, a, "q={q}");
            x += 64 * 7;
        }
    }
}

#[test]
fn luma_and_chroma_of_primaries() {
    let pixels = [255u8, 0, 0, 0, 255, 0, 0, 0, 255, 255, 255, 0, 128, 128, 128, 0, 0, 0, 1, 2, 3, 200, 100, 50];
    let (mut y, mut cb, mut cr) = ([0u8; 8], [0u8; 8], [0u8; 8]);
    rgb_row_to_ycc(&pixels, RGB(), 8, &mut y, &mut cb, &mut cr);
    assert_eq!(y, [76, 150, 29, 226, 128, 0, 2, 124]);
    assert_eq!(cb, [85, 44, 255, 0, 128, 128, 129, 86]);
    assert_eq!(cr, [255, 21, 107, 149, 128, 128, 127, 182]);
}

#[test]
fn samples_past_the_row_are_left_alone() {
    let pixels = [9u8; 30];
    let (mut y, mut cb, mut cr) = ([7u8; 10], [7u8; 10], [7u8; 10]);
    rgb_row_to_ycc(&pixels, RGB(), 8, &mut y, &mut cb, &mut cr);
    assert_eq!((y[7], y[8], y[9]), (9, 7, 7));
    assert_eq!((cb[7], cb[8]), (128, 7));
    assert_eq!((cr[7], cr[8]), (128, 7));
    let mut out = [7u8; 12];
    ycc_row_to_rgb(&[1, 2], &[128, 128], &[128, 128], &mut out, 2, BGRA());
    assert_eq!(out, [1, 1, 1, 255, 2, 2, 2, 255, 7, 7, 7, 7]);
}

#[test]
fn neutral_chroma_is_gray() {
    for v in 0..=255u8 {
        let mut out = [0u8; 3];
        ycc_row_to_rgb(&[v], &[128], &[128], &mut out, 1, RGB());
        assert_eq!(out, [v; 3]);
    }
}

#[test]
fn averages_are_biased_by_column() {
    let mut src = [0u8; 256];
    src[0] = 1;
    src[2] = 2;
    src[4] = 3;
    src[6] = 1;
    let mut dst = [0i16; 64];
    h2v2_downsample(&src, &mut dst);
    // (1 + 1) / 4, (2 + 2) / 4, (3 + 1) / 4, (1 + 2) / 4.
    assert_eq!(&dst[..4], &[-128, -127, -127, -128]);
    let mut narrow = [0u8; 128];
    narrow[0] = 1;
    narrow[2] = 1;
    h2v1_downsample(&narrow, &mut dst);
    assert_eq!(&dst[..2], &[-128, -127]);
}

#[test]
fn downsampling_undoes_replication() {
    let mut src = [0u8; 64];
    for (i, v) in src.iter_mut().enumerate() {
        *v = (i * 37 % 256) as u8;
    }
    let (mut wide, mut tall) = ([0u8; 128], [0u8; 256]);
    h2v1_upsample(&src, &mut wide);
    h2v2_upsample(&src, &mut tall);
    let (mut a, mut b) = ([0i16; 64], [0i16; 64]);
    h2v1_downsample(&wide, &mut a);
    h2v2_downsample(&tall, &mut b);
    for i in 0..64 {
        assert_eq!(a[i], src[i] as i16 - 128);
        assert_eq!(b[i], src[i] as i16 - 128);
    }
}

#[test]
fn upsampling_leans_to_the_nearer_neighbor() {
    assert_eq!(blend_samples(10, 20), 13);
    assert_eq!(blend_samples(20, 10), 18);
    let mut out = [0u8; 8];
    h2_fancy_upsample(&[0, 100, 200, 40], &mut out, 4);
    assert_eq!(out, [0, 25, 75, 125, 175, 160, 80, 40]);
    let mut row = [9u8; 4];
    h2v2_fancy_vblend(&[0, 100, 200], &[100, 0, 200], &mut row, 3);
    assert_eq!(row, [25, 75, 200, 9]);
}

#[test]
fn flat_blocks_round_trip() {
    for c in -128i16..=127 {
        let mut block = [c; 64];
        fdct_islow(&mut block);
        assert_eq!(block[0], 64 * c);
        for v in block.iter_mut() {
            *v /= 8;
        }
        let mut out = [0u8; 64];
        idct_islow(&block, &mut out);
        assert_eq!(out, [(c + 128) as u8; 64]);
    }
}

#[test]
fn samples_survive_the_transform_within_one() {
    let mut block = [0i16; 64];
    for (i, v) in block.iter_mut().enumerate() {
        *v = ((i * 97 + 13) % 256) as i16 - 128;
    }
    let src = block;
    fdct_islow(&mut block);
    for v in block.iter_mut() {
        *v = (*v + 4).div_euclid(8);
    }
    let mut out = [0u8; 64];
    idct_islow(&block, &mut out);
    for i in 0..64 {
        assert!((out[i] as i16 - 128 - src[i]).abs() <= 1);
    }
}

#[test]
fn inverse_transforms_differ_only_beyond_their_lanes() {
    // A DC coefficient of 8191 is the largest whose column pass stays in a
    // lane; beyond it one backend truncates and the other saturates.
    let mut coef = [0i16; 64];
    let (mut s, mut n, mut a) = ([0u8; 64], [0u8; 64], [0u8; 64]);
    for (dc, want_neon) in [(8191i16, 255u8), (-8192, 0), (8192, 0), (32767, 128)] {
        coef[0] = dc;
        idct_islow(&coef, &mut s);
        neon::dct::idct_islow(&coef, &mut n);
        x86_64::dct::idct_islow(&coef, &mut a);
        let want = if dc < 0 { 0 } else { 255 };
        assert_eq!(s, [want; 64], "dc={dc}");
        assert_eq!(a, [want; 64], "dc={dc}");
        assert_eq!(n, [want_neon; 64], "dc={dc}");
    }
}

#[test]
fn magnitude_categories() {
    let mut block = [0i16; 64];
    block[1] = 5;
    block[2] = -5;
    block[3] = 1;
    block[4] = -1;
    block[5] = 1023;
    block[6] = -1023;
    block[7] = -32768;
    let (mut sizes, mut bits) = ([0u8; 64], [0u16; 64]);
    ac_magnitudes(&block, &mut sizes, &mut bits);
    assert_eq!(&sizes[..9], &[0, 3, 3, 1, 1, 10, 10, 16, 0]);
    assert_eq!(&bits[..9], &[0, 5, 2, 1, 0, 1023, 0, 32767, 0]);
    let (mut sizes_x, mut bits_x) = ([0u8; 64], [0u16; 64]);
    x86_64::huffman::ac_magnitudes(&block, &mut sizes_x, &mut bits_x);
    assert_eq!((sizes, bits), (sizes_x, bits_x));
}

#[test]
fn bitmaps_flag_nonzero_coefficients() {
    let mut block = [0i16; 64];
    block[0] = 1;
    block[17] = -1;
    block[63] = i16::MIN;
    let want = 1u64 | 1 << 17 | 1 << 63;
    assert_eq!(nonzero_bitmap(&block), want);
    assert_eq!(neon::huffman::nonzero_bitmap(&block), want);
    assert_eq!(x86_64::huffman::nonzero_bitmap(&block), want);
}

#[test]
fn layouts_fall_into_classes() {
    assert_eq!(GRAY().class(), PixelClass::Gray);
    assert_eq!(CMYK().class(), PixelClass::Cmyk);
    assert_eq!(BGRA().class(), PixelClass::Rgb);
    assert_eq!(PixelLayout::from(PixelFormat::Bgra), BGRA());
}

#[test]
fn edges_are_replicated() {
    // A 3x2 image of luma 0, 10, 20, 30, 40, 50.
    let gray: Vec<u8> = (0..6).map(|i| i * 10).collect();
    let mut block = [0i16; 64];
    extract_block_gray(&gray, 3, 2, 0, 0, &mut block);
    assert_eq!(&block[..5], &[-128, -118, -108, -108, -108]);
    assert_eq!(&block[8..13], &[-98, -88, -78, -78, -78]);
    assert_eq!(&block[56..59], &[-98, -88, -78]);

    let cmyk: Vec<u8> = (0..24).map(|i| i * 10).collect();
    extract_block_cmyk(&cmyk, 3, 2, 2, 1, 3, &mut block);
    assert_eq!(block, [230 - 128; 64]);

    let rgb = [50u8; 18];
    let (mut y, mut cb, mut cr) = ([0i16; 64], [9i16; 64], [9i16; 64]);
    extract_block_ycbcr(&rgb, 3, 2, RGB(), 0, 0, &mut y, &mut cb, &mut cr);
    assert_eq!((y, cb, cr), ([-78i16; 64], [0i16; 64], [0i16; 64]));
}

#[test]
fn mcus_are_coded_as_by_the_reference_kernels() {
    let (w, h) = (40usize, 33usize);
    let pixels: Vec<u8> = (0..w * h * 3).map(|i| (i * i / 7 + i * 31) as u8).collect();
    let mut luma_q = [1u8; 64];
    let mut chroma_q = [3u8; 64];
    for i in 0..64 {
        luma_q[i] = 1 + (i as u8) * 3;
        chroma_q[i] = 17 + (i as u8) * 2;
    }
    let (div_luma, div_chroma) = (build_divisors(&luma_q), build_divisors(&chroma_q));
    for (x0, y0) in [(0u32, 0u32), (16, 16), (24, 17)] {
        let mut out = [[7i16; 64]; 7];
        quantize_mcu_420_rgb_full(&pixels, w as u32, x0, y0, &div_luma, &div_chroma, &mut out);
        let mut y = [[0i16; 64]; 4];
        let (mut cb, mut cr) = ([0i16; 64], [0i16; 64]);
        extract_mcu_420_rgb_full(&pixels, w as u32, x0, y0, &mut y, &mut cb, &mut cr);
        let blocks = [y[0], y[1], y[2], y[3], cb, cr];
        for (i, block) in blocks.iter().enumerate() {
            let mut freq = *block;
            fdct_islow(&mut freq);
            let mut natural = [0i16; 64];
            quantize_natural(&freq, if i < 4 { &div_luma } else { &div_chroma }, &mut natural);
            let mut zz = [0i16; 64];
            zigzag_scatter(&natural, &mut zz);
            assert_eq!(out[i], zz, "block {i} at ({x0}, {y0})");
        }
        assert_eq!(out[6], [7i16; 64]);
    }
}

#[test]
fn test_image_is_deterministic() {
    let v = make_image(4, 6);
    assert_eq!(v.len(), 96);
    assert_eq!(&v[..8], &[0, 0, 0, 255, 1, 1, 7, 255]);
    let at = (5 * 4 + 3) * 4;
    assert_eq!(&v[at..at + 4], &[6, 8, 84, 255]);
    assert!(make_image(0, 5).is_empty());
}
