use jpeg_rusturbo::arch::scalar::{color, dct, quant};
use jpeg_rusturbo::color::{RGB, RGBA};
use jpeg_rusturbo::quant::{build_divisors, Divisors};

#[test]
fn black_pixel_yields_zero_y() {
    let pixels = [0u8; 8 * 4];
    let mut y_row = [0u8; 8];
    let mut cb_row = [0u8; 8];
    let mut cr_row = [0u8; 8];
    color::rgb_row_to_ycc(&pixels, RGBA(), 8, &mut y_row, &mut cb_row, &mut cr_row);
    for i in 0..8 {
        assert_eq!(y_row[i], 0);
        assert_eq!(cb_row[i], 128);
        assert_eq!(cr_row[i], 128);
    }
}

#[test]
fn white_pixel_yields_255_y() {
    let pixels = [255u8; 8 * 4];
    let mut y_row = [0u8; 8];
    let mut cb_row = [0u8; 8];
    let mut cr_row = [0u8; 8];
    color::rgb_row_to_ycc(&pixels, RGBA(), 8, &mut y_row, &mut cb_row, &mut cr_row);
    for i in 0..8 {
        assert_eq!(y_row[i], 255);
        assert_eq!(cb_row[i], 128);
        assert_eq!(cr_row[i], 128);
    }
}

#[test]
fn rgb_layout_matches_rgba() {
    let mut rgb = [0u8; 8 * 3];
    let mut rgba = [0u8; 8 * 4];
    for i in 0..8 {
        rgb[i * 3] = (i * 17) as u8;
        rgb[i * 3 + 1] = ((i * 23 + 7) % 256) as u8;
        rgb[i * 3 + 2] = ((i * 31 + 13) % 256) as u8;
        rgba[i * 4] = rgb[i * 3];
        rgba[i * 4 + 1] = rgb[i * 3 + 1];
        rgba[i * 4 + 2] = rgb[i * 3 + 2];
        rgba[i * 4 + 3] = 255;
    }
    let mut y3 = [0u8; 8];
    let mut cb3 = [0u8; 8];
    let mut cr3 = [0u8; 8];
    color::rgb_row_to_ycc(&rgb, RGB(), 8, &mut y3, &mut cb3, &mut cr3);
    let mut y4 = [0u8; 8];
    let mut cb4 = [0u8; 8];
    let mut cr4 = [0u8; 8];
    color::rgb_row_to_ycc(&rgba, RGBA(), 8, &mut y4, &mut cb4, &mut cr4);
    assert_eq!(y3, y4);
    assert_eq!(cb3, cb4);
    assert_eq!(cr3, cr4);
}

#[test]
fn fdct_dc_only_block() {
    let mut b = [50i16; 64];
    dct::fdct_islow(&mut b);
    assert_eq!(b[0], 50 * 64);
    for (i, &v) in b.iter().enumerate().skip(1) {
        assert_eq!(v, 0, "AC[{i}] not zero");
    }
}

#[test]
fn quantize_reciprocal_round_trip_small() {
    for d in [1u8, 1, 11, 99, 255] {
        let qtab = [d; 64];
        let div: Divisors = build_divisors(&qtab);
        let recip = div.recip[0];
        let corr = div.corr[0];
        let shift = div.shift[0];
        let dval = (d as i32) << 3;
        for x in -8192..=8192i32 {
            let want = if dval <= 1 {
                x
            } else {
                let abs = x.unsigned_abs();
                let q = ((abs + dval as u32 / 2) / dval as u32) as i32;
                if x < 0 { -q } else { q }
            };
            let got = quant::quantize_one(x as i16, recip, corr, shift) as i32;
            if want.abs() <= i16::MAX as i32 {
                assert_eq!(got, want, "d={d} x={x}");
            }
        }
    }
}
