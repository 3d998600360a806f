use jpeg_rusturbo::arch::scalar::color::ycc_row_to_rgb;
use jpeg_rusturbo::arch::scalar::dct::idct_islow;
use jpeg_rusturbo::arch::scalar::sample::{h2_fancy_upsample, h2v2_fancy_vblend};
use jpeg_rusturbo::color::RGB;
use jpeg_rusturbo::decode::baseline::{
    allocate_planes, build_huffman_tables, decode_baseline_scan_into, index_quant_tables,
};
use jpeg_rusturbo::decode::markers::{Component, DecoderMetadata, FrameHeader, MarkerReader, QuantTable};
use jpeg_rusturbo::decode::{decode, DecodeError, Decoder};
use jpeg_rusturbo::tables::ZIGZAG;
use jpeg_rusturbo::PixelFormat;

/// Code counts by length and symbols of a Huffman table.
struct StdHuffman {
    bits: [u8; 16],
    values: &'static [u8],
}

const STD_LUMA_DC: StdHuffman = StdHuffman {
    bits: [0, 1, 5, 1, 1, 1, 1, 1, 1, 0, 0, 0, 0, 0, 0, 0],
    values: &[0, 1, 2, 3, 4, 5, 6, 7, 8, 9, 10, 11],
};

const STD_CHROMA_DC: StdHuffman = StdHuffman {
    bits: [0, 3, 1, 1, 1, 1, 1, 1, 1, 1, 1, 0, 0, 0, 0, 0],
    values: &[0, 1, 2, 3, 4, 5, 6, 7, 8, 9, 10, 11],
};

const STD_LUMA_AC: StdHuffman = StdHuffman {
    bits: [0, 2, 1, 3, 3, 2, 4, 3, 5, 5, 4, 4, 0, 0, 1, 125],
    values: &[
        0x01, 0x02, 0x03, 0x00, 0x04, 0x11, 0x05, 0x12, 0x21, 0x31, 0x41, 0x06, 0x13, 0x51, 0x61, 0x07, 0x22, 0x71,
        0x14, 0x32, 0x81, 0x91, 0xa1, 0x08, 0x23, 0x42, 0xb1, 0xc1, 0x15, 0x52, 0xd1, 0xf0, 0x24, 0x33, 0x62, 0x72,
        0x82, 0x09, 0x0a, 0x16, 0x17, 0x18, 0x19, 0x1a, 0x25, 0x26, 0x27, 0x28, 0x29, 0x2a, 0x34, 0x35, 0x36, 0x37,
        0x38, 0x39, 0x3a, 0x43, 0x44, 0x45, 0x46, 0x47, 0x48, 0x49, 0x4a, 0x53, 0x54, 0x55, 0x56, 0x57, 0x58, 0x59,
        0x5a, 0x63, 0x64, 0x65, 0x66, 0x67, 0x68, 0x69, 0x6a, 0x73, 0x74, 0x75, 0x76, 0x77, 0x78, 0x79, 0x7a, 0x83,
        0x84, 0x85, 0x86, 0x87, 0x88, 0x89, 0x8a, 0x92, 0x93, 0x94, 0x95, 0x96, 0x97, 0x98, 0x99, 0x9a, 0xa2, 0xa3,
        0xa4, 0xa5, 0xa6, 0xa7, 0xa8, 0xa9, 0xaa, 0xb2, 0xb3, 0xb4, 0xb5, 0xb6, 0xb7, 0xb8, 0xb9, 0xba, 0xc2, 0xc3,
        0xc4, 0xc5, 0xc6, 0xc7, 0xc8, 0xc9, 0xca, 0xd2, 0xd3, 0xd4, 0xd5, 0xd6, 0xd7, 0xd8, 0xd9, 0xda, 0xe1, 0xe2,
        0xe3, 0xe4, 0xe5, 0xe6, 0xe7, 0xe8, 0xe9, 0xea, 0xf1, 0xf2, 0xf3, 0xf4, 0xf5, 0xf6, 0xf7, 0xf8, 0xf9, 0xfa,
    ],
};

const STD_CHROMA_AC: StdHuffman = StdHuffman {
    bits: [0, 2, 1, 2, 4, 4, 3, 4, 7, 5, 4, 4, 0, 1, 2, 119],
    values: &[
        0x00, 0x01, 0x02, 0x03, 0x11, 0x04, 0x05, 0x21, 0x31, 0x06, 0x12, 0x41, 0x51, 0x07, 0x61, 0x71, 0x13, 0x22,
        0x32, 0x81, 0x08, 0x14, 0x42, 0x91, 0xa1, 0xb1, 0xc1, 0x09, 0x23, 0x33, 0x52, 0xf0, 0x15, 0x62, 0x72, 0xd1,
        0x0a, 0x16, 0x24, 0x34, 0xe1, 0x25, 0xf1, 0x17, 0x18, 0x19, 0x1a, 0x26, 0x27, 0x28, 0x29, 0x2a, 0x35, 0x36,
        0x37, 0x38, 0x39, 0x3a, 0x43, 0x44, 0x45, 0x46, 0x47, 0x48, 0x49, 0x4a, 0x53, 0x54, 0x55, 0x56, 0x57, 0x58,
        0x59, 0x5a, 0x63, 0x64, 0x65, 0x66, 0x67, 0x68, 0x69, 0x6a, 0x73, 0x74, 0x75, 0x76, 0x77, 0x78, 0x79, 0x7a,
        0x82, 0x83, 0x84, 0x85, 0x86, 0x87, 0x88, 0x89, 0x8a, 0x92, 0x93, 0x94, 0x95, 0x96, 0x97, 0x98, 0x99, 0x9a,
        0xa2, 0xa3, 0xa4, 0xa5, 0xa6, 0xa7, 0xa8, 0xa9, 0xaa, 0xb2, 0xb3, 0xb4, 0xb5, 0xb6, 0xb7, 0xb8, 0xb9, 0xba,
        0xc2, 0xc3, 0xc4, 0xc5, 0xc6, 0xc7, 0xc8, 0xc9, 0xca, 0xd2, 0xd3, 0xd4, 0xd5, 0xd6, 0xd7, 0xd8, 0xd9, 0xda,
        0xe2, 0xe3, 0xe4, 0xe5, 0xe6, 0xe7, 0xe8, 0xe9, 0xea, 0xf2, 0xf3, 0xf4, 0xf5, 0xf6, 0xf7, 0xf8, 0xf9, 0xfa,
    ],
};

/// Entropy-coded bits, with a zero byte stuffed after every 0xFF.
struct Bits {
    out: Vec<u8>,
    acc: u32,
    count: u32,
}

impl Bits {
    fn new() -> Bits {
        Bits { out: Vec::new(), acc: 0, count: 0 }
    }

    fn put(&mut self, value: u32, len: u32) {
        for i in (0..len).rev() {
            self.acc = (self.acc << 1) | ((value >> i) & 1);
            self.count += 1;
            if self.count == 8 {
                let byte = self.acc as u8;
                self.out.push(byte);
                if byte == 0xFF {
                    self.out.push(0);
                }
                self.acc = 0;
                self.count = 0;
            }
        }
    }

    fn symbol(&mut self, table: &StdHuffman, symbol: u8) {
        let mut code = 0u32;
        let mut k = 0usize;
        for len in 1..=16u32 {
            for _ in 0..table.bits[len as usize - 1] {
                if table.values[k] == symbol {
                    self.put(code, len);
                    return;
                }
                k += 1;
                code += 1;
            }
            code <<= 1;
        }
        panic!("symbol {symbol:#x} has no code");
    }

    fn pad(&mut self) {
        while self.count != 0 {
            self.put(1, 1);
        }
    }

    fn restart(&mut self, n: u8) {
        self.pad();
        self.out.push(0xFF);
        self.out.push(0xD0 + n);
    }

    fn finish(mut self) -> Vec<u8> {
        self.pad();
        self.out
    }
}

fn size_of(v: i32) -> u32 {
    32 - v.unsigned_abs().leading_zeros()
}

fn magnitude(v: i32, size: u32) -> u32 {
    if v >= 0 {
        v as u32
    } else {
        (v + (1 << size) - 1) as u32
    }
}

/// Codes one block in zig-zag order and returns its DC value.
fn put_block(bits: &mut Bits, zz: &[i32; 64], pred: i32, dc: &StdHuffman, ac: &StdHuffman) -> i32 {
    let diff = zz[0] - pred;
    let size = size_of(diff);
    bits.symbol(dc, size as u8);
    bits.put(magnitude(diff, size), size);
    let mut run = 0u32;
    for &v in &zz[1..] {
        if v == 0 {
            run += 1;
            continue;
        }
        while run > 15 {
            bits.symbol(ac, 0xF0);
            run -= 16;
        }
        let size = size_of(v);
        bits.symbol(ac, ((run << 4) | size) as u8);
        bits.put(magnitude(v, size), size);
        run = 0;
    }
    if run > 0 {
        bits.symbol(ac, 0x00);
    }
    zz[0]
}

fn segment(out: &mut Vec<u8>, marker: u8, payload: &[u8]) {
    out.extend_from_slice(&[0xFF, marker]);
    out.extend_from_slice(&((payload.len() as u16) + 2).to_be_bytes());
    out.extend_from_slice(payload);
}

fn dqt(out: &mut Vec<u8>, id: u8, value: u8) {
    let mut p = vec![id];
    p.extend_from_slice(&[value; 64]);
    segment(out, 0xDB, &p);
}

fn dht(out: &mut Vec<u8>, class: u8, id: u8, table: &StdHuffman) {
    let mut p = vec![(class << 4) | id];
    p.extend_from_slice(&table.bits);
    p.extend_from_slice(table.values);
    segment(out, 0xC4, &p);
}

fn sof(out: &mut Vec<u8>, marker: u8, width: u16, height: u16, comps: &[(u8, u8, u8, u8)]) {
    let mut p = vec![8];
    p.extend_from_slice(&height.to_be_bytes());
    p.extend_from_slice(&width.to_be_bytes());
    p.push(comps.len() as u8);
    for &(id, h, v, q) in comps {
        p.extend_from_slice(&[id, (h << 4) | v, q]);
    }
    segment(out, marker, &p);
}

fn sos(out: &mut Vec<u8>, comps: &[(u8, u8, u8)], band: (u8, u8), approx: (u8, u8)) {
    let mut p = vec![comps.len() as u8];
    for &(id, dc, ac) in comps {
        p.extend_from_slice(&[id, (dc << 4) | ac]);
    }
    p.extend_from_slice(&[band.0, band.1, (approx.0 << 4) | approx.1]);
    segment(out, 0xDA, &p);
}

/// SOI, quantization by `q`, the frame and the standard Huffman tables.
fn header(marker: u8, width: u16, height: u16, comps: &[(u8, u8, u8, u8)], q: u8) -> Vec<u8> {
    let mut out = vec![0xFF, 0xD8];
    dqt(&mut out, 0, q);
    sof(&mut out, marker, width, height, comps);
    dht(&mut out, 0, 0, &STD_LUMA_DC);
    dht(&mut out, 1, 0, &STD_LUMA_AC);
    dht(&mut out, 0, 1, &STD_CHROMA_DC);
    dht(&mut out, 1, 1, &STD_CHROMA_AC);
    out
}

fn eoi(mut out: Vec<u8>) -> Vec<u8> {
    out.extend_from_slice(&[0xFF, 0xD9]);
    out
}

/// A baseline grayscale image of the given blocks.
fn gray_jpeg(width: u16, height: u16, q: u8, blocks: &[[i32; 64]]) -> Vec<u8> {
    let mut out = header(0xC0, width, height, &[(1, 1, 1, 0)], q);
    sos(&mut out, &[(1, 0, 0)], (0, 63), (0, 0));
    let mut bits = Bits::new();
    let mut pred = 0;
    for b in blocks {
        pred = put_block(&mut bits, b, pred, &STD_LUMA_DC, &STD_LUMA_AC);
    }
    out.extend(bits.finish());
    eoi(out)
}

fn dc_block(dc: i32) -> [i32; 64] {
    let mut b = [0i32; 64];
    b[0] = dc;
    b
}

/// Deterministic small coefficients that fall off with frequency.
fn noisy_block(seed: u32) -> [i32; 64] {
    let mut s = seed.wrapping_mul(2654435761).wrapping_add(12345);
    let mut b = [0i32; 64];
    for (k, v) in b.iter_mut().enumerate() {
        s = s.wrapping_mul(1664525).wrapping_add(1013904223);
        let span = 40 / (k as i32 + 1) + 2;
        *v = (s >> 16) as i32 % (2 * span + 1) - span;
        if k > 20 && (s >> 8) % 3 != 0 {
            *v = 0;
        }
    }
    b
}

/// The samples of a block in zig-zag order, dequantized by `q`.
fn samples(zz: &[i32; 64], q: i32) -> [u8; 64] {
    let mut coef = [0i16; 64];
    for k in 0..64 {
        coef[ZIGZAG[k]] = (zz[k] * q) as i16;
    }
    let mut out = [0u8; 64];
    idct_islow(&coef, &mut out);
    out
}

fn refused(jpeg: &[u8], format: PixelFormat) -> DecodeError {
    match decode(jpeg, format) {
        Ok(_) => panic!("the stream was accepted"),
        Err(e) => e,
    }
}

#[test]
fn flat_gray_block_is_mid_gray() {
    let jpeg = gray_jpeg(8, 8, 1, &[dc_block(0)]);
    assert_eq!(decode(&jpeg, PixelFormat::Gray).unwrap(), vec![128u8; 64]);
    assert_eq!(decode(&jpeg, PixelFormat::Rgb).unwrap(), vec![128u8; 192]);
}

#[test]
fn dc_is_divided_by_eight_and_rounded() {
    for (dc, want) in [(80, 138u8), (-80, 118), (4, 129), (3, 128), (-4, 128), (-5, 127), (1016, 255), (-1024, 0)] {
        let jpeg = gray_jpeg(8, 8, 1, &[dc_block(dc)]);
        assert_eq!(decode(&jpeg, PixelFormat::Gray).unwrap(), vec![want; 64], "dc={dc}");
    }
}

#[test]
fn dequantization_multiplies_by_the_table() {
    let jpeg = gray_jpeg(8, 8, 16, &[dc_block(5)]);
    assert_eq!(decode(&jpeg, PixelFormat::Gray).unwrap(), vec![138u8; 64]);
}

#[test]
fn blocks_stand_in_raster_order_and_edges_are_cut() {
    let blocks: Vec<[i32; 64]> = (0..6).map(noisy_block).collect();
    let jpeg = gray_jpeg(19, 11, 2, &blocks);
    let out = decode(&jpeg, PixelFormat::Gray).unwrap();
    assert_eq!(out.len(), 19 * 11);
    for y in 0..11 {
        for x in 0..19 {
            let block = samples(&blocks[(y / 8) * 3 + x / 8], 2);
            assert_eq!(out[y * 19 + x], block[(y % 8) * 8 + x % 8], "({x}, {y})");
        }
    }
}

#[test]
fn info_tells_what_the_headers_say() {
    let jpeg = gray_jpeg(19, 11, 2, &[dc_block(0); 6]);
    let info = match Decoder::new(&jpeg) {
        Ok(d) => d.info(),
        Err(e) => panic!("{e:?}"),
    };
    assert_eq!((info.width, info.height, info.components, info.progressive), (19, 11, 1, false));
}

/// A baseline 4:4:4 image of one MCU per triple.
fn color_444(width: u16, height: u16, mcus: &[[[i32; 64]; 3]], interval: u16) -> Vec<u8> {
    let mut out = header(0xC0, width, height, &[(1, 1, 1, 0), (2, 1, 1, 0), (3, 1, 1, 0)], 1);
    if interval > 0 {
        segment(&mut out, 0xDD, &interval.to_be_bytes());
    }
    sos(&mut out, &[(1, 0, 0), (2, 1, 1), (3, 1, 1)], (0, 63), (0, 0));
    let mut bits = Bits::new();
    let mut pred = [0i32; 3];
    for (n, mcu) in mcus.iter().enumerate() {
        if interval > 0 && n > 0 && n % interval as usize == 0 {
            bits.restart(((n / interval as usize - 1) % 8) as u8);
            pred = [0; 3];
        }
        for c in 0..3 {
            let (dc, ac) = if c == 0 { (&STD_LUMA_DC, &STD_LUMA_AC) } else { (&STD_CHROMA_DC, &STD_CHROMA_AC) };
            pred[c] = put_block(&mut bits, &mcu[c], pred[c], dc, ac);
        }
    }
    out.extend(bits.finish());
    eoi(out)
}

fn expected_444(width: usize, height: usize, mcus: &[[[i32; 64]; 3]]) -> Vec<u8> {
    let per_row = (width + 7) / 8;
    let mut out = Vec::new();
    for y in 0..height {
        let mut rows = [vec![0u8; width], vec![0u8; width], vec![0u8; width]];
        for x in 0..width {
            for c in 0..3 {
                rows[c][x] = samples(&mcus[(y / 8) * per_row + x / 8][c], 1)[(y % 8) * 8 + x % 8];
            }
        }
        let mut line = vec![0u8; width * 3];
        ycc_row_to_rgb(&rows[0], &rows[1], &rows[2], &mut line, width, RGB());
        out.extend(line);
    }
    out
}

#[test]
fn color_planes_convert_to_rgb() {
    let mcus: Vec<[[i32; 64]; 3]> =
        (0..4).map(|n| [noisy_block(n), noisy_block(n + 100), noisy_block(n + 200)]).collect();
    let jpeg = color_444(13, 16, &mcus, 0);
    assert_eq!(decode(&jpeg, PixelFormat::Rgb).unwrap(), expected_444(13, 16, &mcus));
}

#[test]
fn pure_red_comes_back() {
    // Y = 76, Cb = 85, Cr = 255 as DC coefficients.
    let mcu = [dc_block((76 - 128) * 8), dc_block((85 - 128) * 8), dc_block((255 - 128) * 8)];
    let jpeg = color_444(8, 8, &[mcu], 0);
    let out = decode(&jpeg, PixelFormat::Rgb).unwrap();
    assert_eq!(&out[..3], &[254, 0, 0]);
}

#[test]
fn restart_intervals_reset_the_predictors() {
    let mcus: Vec<[[i32; 64]; 3]> =
        (0..6).map(|n| [noisy_block(n + 7), noisy_block(n + 70), noisy_block(n + 700)]).collect();
    for interval in [1, 2, 4] {
        let jpeg = color_444(24, 16, &mcus, interval);
        assert_eq!(decode(&jpeg, PixelFormat::Rgb).unwrap(), expected_444(24, 16, &mcus), "interval {interval}");
    }
}

#[test]
fn missing_restart_marker_is_malformed() {
    let mcus = [[dc_block(8), dc_block(0), dc_block(0)]; 2];
    let mut jpeg = color_444(16, 8, &mcus, 1);
    let at = jpeg.windows(2).position(|w| w == [0xFF, 0xD0]).unwrap();
    jpeg[at + 1] = 0xD9;
    assert!(matches!(
        refused(&jpeg, PixelFormat::Rgb),
        DecodeError::Malformed("expected RSTn between intervals")
    ));
}

#[test]
fn formats_hold_the_same_colors() {
    let mcus = [[noisy_block(1), noisy_block(2), noisy_block(3)]];
    let jpeg = color_444(8, 8, &mcus, 0);
    let rgb = decode(&jpeg, PixelFormat::Rgb).unwrap();
    let cases = [
        (PixelFormat::Bgr, 3, [2, 1, 0]),
        (PixelFormat::Rgba, 4, [0, 1, 2]),
        (PixelFormat::Bgra, 4, [2, 1, 0]),
        (PixelFormat::Argb, 4, [1, 2, 3]),
        (PixelFormat::Abgr, 4, [3, 2, 1]),
        (PixelFormat::Rgbx, 4, [0, 1, 2]),
        (PixelFormat::Bgrx, 4, [2, 1, 0]),
    ];
    for (format, bpp, at) in cases {
        let out = decode(&jpeg, format).unwrap();
        assert_eq!(out.len(), 64 * bpp);
        for i in 0..64 {
            for c in 0..3 {
                assert_eq!(out[i * bpp + at[c]], rgb[i * 3 + c], "{format:?} {i}");
            }
            if bpp == 4 {
                let pad = 6 - at[0] - at[1] - at[2];
                assert_eq!(out[i * 4 + pad], 0xFF, "{format:?} {i}");
            }
        }
    }
    let gray = decode(&jpeg, PixelFormat::Gray).unwrap();
    assert_eq!(gray, samples(&mcus[0][0], 1).to_vec());
}

/// A baseline image with chroma planes `(h, v)` times smaller, over one
/// MCU per entry: the luma blocks, then Cb and Cr.
fn color_subsampled(
    width: u16,
    height: u16,
    factor: (u8, u8),
    mcus: &[(Vec<[i32; 64]>, [i32; 64], [i32; 64])],
) -> Vec<u8> {
    let mut out = header(0xC0, width, height, &[(1, factor.0, factor.1, 0), (2, 1, 1, 0), (3, 1, 1, 0)], 1);
    sos(&mut out, &[(1, 0, 0), (2, 1, 1), (3, 1, 1)], (0, 63), (0, 0));
    let mut bits = Bits::new();
    let mut pred = [0i32; 3];
    for (luma, cb, cr) in mcus {
        for b in luma {
            pred[0] = put_block(&mut bits, b, pred[0], &STD_LUMA_DC, &STD_LUMA_AC);
        }
        pred[1] = put_block(&mut bits, cb, pred[1], &STD_CHROMA_DC, &STD_CHROMA_AC);
        pred[2] = put_block(&mut bits, cr, pred[2], &STD_CHROMA_DC, &STD_CHROMA_AC);
    }
    out.extend(bits.finish());
    eoi(out)
}

/// One chroma row of a plane, interpolated in both directions by two.
fn fancy_420_row(plane: &[u8], w: usize, h: usize, j: usize) -> Vec<u8> {
    let cur = j / 2;
    let nbr = if j % 2 == 0 { cur.saturating_sub(1) } else { (cur + 1).min(h - 1) };
    let mut mid = vec![0u8; w];
    h2v2_fancy_vblend(&plane[cur * 8..cur * 8 + w], &plane[nbr * 8..nbr * 8 + w], &mut mid, w);
    let mut out = vec![0u8; 2 * w];
    h2_fancy_upsample(&mid, &mut out, w);
    out
}

#[test]
fn chroma_420_is_interpolated() {
    let luma = vec![noisy_block(11), noisy_block(12), noisy_block(13), noisy_block(14)];
    let (cb, cr) = (noisy_block(15), noisy_block(16));
    let jpeg = color_subsampled(16, 16, (2, 2), &[(luma.clone(), cb, cr)]);
    let out = decode(&jpeg, PixelFormat::Rgb).unwrap();
    for y in 0..16 {
        let mut y_row = vec![0u8; 16];
        for x in 0..16 {
            y_row[x] = samples(&luma[(y / 8) * 2 + x / 8], 1)[(y % 8) * 8 + x % 8];
        }
        let cb_row = fancy_420_row(&samples(&cb, 1), 8, 8, y);
        let cr_row = fancy_420_row(&samples(&cr, 1), 8, 8, y);
        let mut line = vec![0u8; 48];
        ycc_row_to_rgb(&y_row, &cb_row, &cr_row, &mut line, 16, RGB());
        assert_eq!(&out[y * 48..(y + 1) * 48], &line[..], "row {y}");
    }
}

#[test]
fn chroma_422_and_440_are_interpolated_in_one_direction() {
    let luma = vec![dc_block(0), dc_block(0)];
    let cb = dc_block(0);
    let cr = noisy_block(21);
    let chroma = samples(&cr, 1);

    let out = decode(&color_subsampled(16, 8, (2, 1), &[(luma.clone(), cb, cr)]), PixelFormat::Rgb).unwrap();
    for y in 0..8 {
        let mut cr_row = vec![0u8; 16];
        h2_fancy_upsample(&chroma[y * 8..y * 8 + 8], &mut cr_row, 8);
        let mut line = vec![0u8; 48];
        ycc_row_to_rgb(&[128; 16], &[128; 16], &cr_row, &mut line, 16, RGB());
        assert_eq!(&out[y * 48..(y + 1) * 48], &line[..], "4:2:2 row {y}");
    }

    let out = decode(&color_subsampled(8, 16, (1, 2), &[(luma, cb, cr)]), PixelFormat::Rgb).unwrap();
    for y in 0..16 {
        let cur: usize = y / 2;
        let nbr = if y % 2 == 0 { cur.saturating_sub(1) } else { (cur + 1).min(7) };
        let mut cr_row = vec![0u8; 8];
        h2v2_fancy_vblend(&chroma[cur * 8..cur * 8 + 8], &chroma[nbr * 8..nbr * 8 + 8], &mut cr_row, 8);
        let mut line = vec![0u8; 24];
        ycc_row_to_rgb(&[128; 8], &[128; 8], &cr_row, &mut line, 8, RGB());
        assert_eq!(&out[y * 24..(y + 1) * 24], &line[..], "4:4:0 row {y}");
    }
}

#[test]
fn chroma_411_is_replicated() {
    let luma = vec![dc_block(0); 4];
    let cr = noisy_block(31);
    let chroma = samples(&cr, 1);
    let out = decode(&color_subsampled(30, 8, (4, 1), &[(luma, dc_block(0), cr)]), PixelFormat::Rgb).unwrap();
    for y in 0..8 {
        let cr_row: Vec<u8> = (0..30).map(|x| chroma[y * 8 + x / 4]).collect();
        let mut line = vec![0u8; 90];
        ycc_row_to_rgb(&[128; 30], &[128; 30], &cr_row, &mut line, 30, RGB());
        assert_eq!(&out[y * 90..(y + 1) * 90], &line[..], "row {y}");
    }
}

#[test]
fn flat_chroma_stays_flat() {
    let luma = vec![dc_block(80); 4];
    let jpeg = color_subsampled(15, 15, (2, 2), &[(luma, dc_block(-160), dc_block(240))]);
    let out = decode(&jpeg, PixelFormat::Rgb).unwrap();
    for px in out.chunks(3) {
        assert_eq!(px, &out[..3]);
    }
}

#[test]
fn separate_scans_give_the_same_image() {
    let mcus: Vec<[[i32; 64]; 3]> =
        (0..4).map(|n| [noisy_block(n + 40), noisy_block(n + 50), noisy_block(n + 60)]).collect();
    let mut out = header(0xC0, 16, 16, &[(1, 1, 1, 0), (2, 1, 1, 0), (3, 1, 1, 0)], 1);
    for c in 0..3 {
        let (slot, dc, ac) =
            if c == 0 { (0, &STD_LUMA_DC, &STD_LUMA_AC) } else { (1, &STD_CHROMA_DC, &STD_CHROMA_AC) };
        sos(&mut out, &[(c as u8 + 1, slot, slot)], (0, 63), (0, 0));
        let mut bits = Bits::new();
        let mut pred = 0;
        for mcu in &mcus {
            pred = put_block(&mut bits, &mcu[c], pred, dc, ac);
        }
        out.extend(bits.finish());
    }
    assert_eq!(decode(&eoi(out), PixelFormat::Rgb).unwrap(), expected_444(16, 16, &mcus));
}

#[test]
fn tables_between_scans_take_effect() {
    let mut out = header(0xC0, 8, 8, &[(1, 1, 1, 0), (2, 1, 1, 1), (3, 1, 1, 1)], 1);
    dqt(&mut out, 1, 1);
    let block = dc_block(40);
    for c in 0..3u8 {
        if c == 2 {
            dqt(&mut out, 1, 2);
        }
        sos(&mut out, &[(c + 1, 0, 0)], (0, 63), (0, 0));
        let mut bits = Bits::new();
        put_block(&mut bits, &block, 0, &STD_LUMA_DC, &STD_LUMA_AC);
        out.extend(bits.finish());
    }
    let px = decode(&eoi(out), PixelFormat::Rgb).unwrap();
    let mut want = [0u8; 3];
    ycc_row_to_rgb(&[133], &[133], &[138], &mut want, 1, RGB());
    assert_eq!(&px[..3], &want);
}

#[test]
fn cmyk_passes_through() {
    let mut out = header(0xC0, 8, 8, &[(1, 1, 1, 0), (2, 1, 1, 0), (3, 1, 1, 0), (4, 1, 1, 0)], 1);
    sos(&mut out, &[(1, 0, 0), (2, 0, 0), (3, 0, 0), (4, 0, 0)], (0, 63), (0, 0));
    let blocks = [noisy_block(81), noisy_block(82), noisy_block(83), noisy_block(84)];
    let mut bits = Bits::new();
    for b in &blocks {
        put_block(&mut bits, b, 0, &STD_LUMA_DC, &STD_LUMA_AC);
    }
    out.extend(bits.finish());
    let jpeg = eoi(out);
    let px = decode(&jpeg, PixelFormat::Cmyk).unwrap();
    assert_eq!(px.len(), 256);
    for i in 0..64 {
        for c in 0..4 {
            assert_eq!(px[i * 4 + c], samples(&blocks[c], 1)[i]);
        }
    }
    assert!(matches!(refused(&jpeg, PixelFormat::Rgb), DecodeError::Unsupported(_)));
    assert!(matches!(refused(&jpeg, PixelFormat::Gray), DecodeError::Unsupported(_)));
}

#[test]
fn component_counts_must_match_the_format() {
    let jpeg = gray_jpeg(8, 8, 1, &[dc_block(0)]);
    assert!(matches!(
        refused(&jpeg, PixelFormat::Cmyk),
        DecodeError::Unsupported("PixelFormat::Cmyk requires a 4-component source JPEG")
    ));

    let mut out = header(0xC0, 8, 8, &[(1, 1, 1, 0), (2, 1, 1, 0)], 1);
    sos(&mut out, &[(1, 0, 0), (2, 0, 0)], (0, 63), (0, 0));
    let mut bits = Bits::new();
    put_block(&mut bits, &dc_block(8), 0, &STD_LUMA_DC, &STD_LUMA_AC);
    put_block(&mut bits, &dc_block(16), 0, &STD_LUMA_DC, &STD_LUMA_AC);
    out.extend(bits.finish());
    let jpeg = eoi(out);
    assert!(matches!(
        refused(&jpeg, PixelFormat::Rgb),
        DecodeError::Unsupported("unsupported component count")
    ));
    assert_eq!(decode(&jpeg, PixelFormat::Gray).unwrap(), vec![129u8; 64]);
}

/// A progressive scan of coefficients `ss..=se` of one component, without
/// the bits below `al`, for the first time.
fn put_ac_first(bits: &mut Bits, zz: &[i32; 64], ss: usize, se: usize, al: u32) {
    let mut run = 0u32;
    for &v in &zz[ss..=se] {
        let m = v.abs() >> al;
        if m == 0 {
            run += 1;
            continue;
        }
        while run > 15 {
            bits.symbol(&STD_LUMA_AC, 0xF0);
            run -= 16;
        }
        let t = if v < 0 { -m } else { m };
        let size = size_of(t);
        bits.symbol(&STD_LUMA_AC, ((run << 4) | size) as u8);
        bits.put(magnitude(t, size), size);
        run = 0;
    }
    if run > 0 {
        bits.symbol(&STD_LUMA_AC, 0x00);
    }
}

/// A refinement of coefficients `ss..=se` by the bit `al`.
fn put_ac_refine(bits: &mut Bits, zz: &[i32; 64], ss: usize, se: usize, al: u32) {
    let last_new = (ss..=se).rev().find(|&k| zz[k].abs() >> al == 1).unwrap_or(0);
    let mut run = 0u32;
    let mut pending: Vec<u32> = Vec::new();
    for k in ss..=se {
        let m = zz[k].abs() >> al;
        if m == 0 {
            run += 1;
            continue;
        }
        while run > 15 && k <= last_new {
            bits.symbol(&STD_LUMA_AC, 0xF0);
            for b in pending.drain(..) {
                bits.put(b, 1);
            }
            run -= 16;
        }
        if m > 1 {
            pending.push((m & 1) as u32);
            continue;
        }
        bits.symbol(&STD_LUMA_AC, ((run << 4) | 1) as u8);
        bits.put(if zz[k] < 0 { 0 } else { 1 }, 1);
        for b in pending.drain(..) {
            bits.put(b, 1);
        }
        run = 0;
    }
    if run > 0 || !pending.is_empty() {
        bits.symbol(&STD_LUMA_AC, 0x00);
        for b in pending {
            bits.put(b, 1);
        }
    }
}

#[test]
fn progressive_scans_add_up_to_the_baseline_image() {
    let blocks: Vec<[i32; 64]> = (300..306).map(noisy_block).collect();
    let mut out = header(0xC2, 20, 16, &[(1, 1, 1, 0)], 2);

    // DC without its lowest bit.
    sos(&mut out, &[(1, 0, 0)], (0, 0), (0, 1));
    let mut bits = Bits::new();
    let mut pred = 0;
    for b in &blocks {
        let dc = b[0] >> 1;
        let size = size_of(dc - pred);
        bits.symbol(&STD_LUMA_DC, size as u8);
        bits.put(magnitude(dc - pred, size), size);
        pred = dc;
    }
    out.extend(bits.finish());

    // Two bands of AC without their two lowest bits.
    for (ss, se) in [(1, 5), (6, 63)] {
        sos(&mut out, &[(1, 0, 0)], (ss as u8, se as u8), (0, 2));
        let mut bits = Bits::new();
        for b in &blocks {
            put_ac_first(&mut bits, b, ss, se, 2);
        }
        out.extend(bits.finish());
    }

    // Those bits, one after the other.
    for al in [1u32, 0] {
        sos(&mut out, &[(1, 0, 0)], (1, 63), (al as u8 + 1, al as u8));
        let mut bits = Bits::new();
        for b in &blocks {
            put_ac_refine(&mut bits, b, 1, 63, al);
        }
        out.extend(bits.finish());
    }

    // The lowest bit of DC.
    sos(&mut out, &[(1, 0, 0)], (0, 0), (1, 0));
    let mut bits = Bits::new();
    for b in &blocks {
        bits.put((b[0] & 1) as u32, 1);
    }
    out.extend(bits.finish());
    let jpeg = eoi(out);

    let info = match Decoder::new(&jpeg) {
        Ok(d) => d.info(),
        Err(e) => panic!("{e:?}"),
    };
    assert!(info.progressive);
    assert_eq!(
        decode(&jpeg, PixelFormat::Gray).unwrap(),
        decode(&gray_jpeg(20, 16, 2, &blocks), PixelFormat::Gray).unwrap()
    );
}

#[test]
fn end_of_band_runs_skip_blocks() {
    // Codes 00, 01 and 10 for a coefficient, the end of a block, and the end
    // of two or three.
    let table = StdHuffman {
        bits: [0, 3, 0, 0, 0, 0, 0, 0, 0, 0, 0, 0, 0, 0, 0, 0],
        values: &[0x04, 0x00, 0x10],
    };
    let mut out = header(0xC2, 32, 8, &[(1, 1, 1, 0)], 1);
    dht(&mut out, 1, 0, &table);
    sos(&mut out, &[(1, 0, 0)], (0, 0), (0, 0));
    let mut bits = Bits::new();
    for _ in 0..4 {
        bits.symbol(&STD_LUMA_DC, 0);
    }
    out.extend(bits.finish());
    sos(&mut out, &[(1, 0, 0)], (1, 63), (0, 0));
    let mut bits = Bits::new();
    // Coefficient 9 in the first block, whose end is also that of the next
    // two.
    bits.symbol(&table, 0x04);
    bits.put(9, 4);
    bits.symbol(&table, 0x10);
    bits.put(1, 1);
    // Coefficient -15 in the fourth.
    bits.symbol(&table, 0x04);
    bits.put(0, 4);
    bits.symbol(&table, 0x00);
    out.extend(bits.finish());
    let px = decode(&eoi(out), PixelFormat::Gray).unwrap();
    let (mut first, mut last) = (dc_block(0), dc_block(0));
    first[1] = 9;
    last[1] = -15;
    let blocks = [first, dc_block(0), dc_block(0), last];
    for y in 0..8 {
        for x in 0..32 {
            assert_eq!(px[y * 32 + x], samples(&blocks[x / 8], 1)[y * 8 + x % 8], "({x}, {y})");
        }
    }
}

#[test]
fn progressive_color_with_interleaved_dc() {
    let mcus: Vec<[[i32; 64]; 3]> =
        (0..2).map(|n| [noisy_block(n + 400), noisy_block(n + 410), noisy_block(n + 420)]).collect();
    let mut out = header(0xC2, 16, 8, &[(1, 1, 1, 0), (2, 1, 1, 0), (3, 1, 1, 0)], 1);
    sos(&mut out, &[(1, 0, 0), (2, 0, 0), (3, 0, 0)], (0, 0), (0, 0));
    let mut bits = Bits::new();
    let mut pred = [0i32; 3];
    for mcu in &mcus {
        for c in 0..3 {
            let diff = mcu[c][0] - pred[c];
            let size = size_of(diff);
            bits.symbol(&STD_LUMA_DC, size as u8);
            bits.put(magnitude(diff, size), size);
            pred[c] = mcu[c][0];
        }
    }
    out.extend(bits.finish());
    for c in 0..3 {
        sos(&mut out, &[(c as u8 + 1, 0, 0)], (1, 63), (0, 0));
        let mut bits = Bits::new();
        for mcu in &mcus {
            put_ac_first(&mut bits, &mcu[c], 1, 63, 0);
        }
        out.extend(bits.finish());
    }
    assert_eq!(decode(&eoi(out), PixelFormat::Rgb).unwrap(), expected_444(16, 8, &mcus));
}

/// A stream with the given segments before the frame.
fn with_segments(segments: &[(u8, Vec<u8>)]) -> Vec<u8> {
    let mut out = vec![0xFF, 0xD8];
    for (marker, payload) in segments {
        segment(&mut out, *marker, payload);
    }
    let rest = gray_jpeg(8, 8, 1, &[dc_block(0)]);
    out.extend_from_slice(&rest[2..]);
    out
}

fn icc(seq: u8, total: u8, data: &[u8]) -> (u8, Vec<u8>) {
    let mut p = b"ICC_PROFILE\0".to_vec();
    p.extend_from_slice(&[seq, total]);
    p.extend_from_slice(data);
    (0xE2, p)
}

fn icc_of(segments: &[(u8, Vec<u8>)]) -> Option<Vec<u8>> {
    let jpeg = with_segments(segments);
    match Decoder::new(&jpeg) {
        Ok(d) => d.icc_profile().map(|p| p.to_vec()),
        Err(e) => panic!("{e:?}"),
    }
}

#[test]
fn icc_chunks_are_joined_in_order() {
    assert_eq!(icc_of(&[]), None);
    assert_eq!(icc_of(&[icc(1, 1, b"profile")]), Some(b"profile".to_vec()));
    assert_eq!(
        icc_of(&[icc(3, 3, b"c"), icc(1, 3, b"aa"), icc(2, 3, b"bbb")]),
        Some(b"aabbbc".to_vec())
    );
    assert_eq!(icc_of(&[icc(1, 1, b"")]), Some(Vec::new()));
}

#[test]
fn first_icc_chunk_of_a_number_wins() {
    assert_eq!(
        icc_of(&[icc(1, 2, b"a"), icc(1, 2, b"x"), icc(2, 2, b"b")]),
        Some(b"ab".to_vec())
    );
}

#[test]
fn incomplete_icc_profiles_are_dropped() {
    assert_eq!(icc_of(&[icc(1, 2, b"a")]), None);
    assert_eq!(icc_of(&[icc(0, 1, b"a")]), None);
    assert_eq!(icc_of(&[icc(2, 1, b"a")]), None);
    assert_eq!(icc_of(&[icc(1, 3, b"a"), icc(3, 3, b"c"), icc(4, 3, b"d")]), None);
    assert_eq!(icc_of(&[icc(1, 0, b"a")]), None);
}

#[test]
fn disagreeing_icc_totals_drop_the_profile() {
    assert_eq!(icc_of(&[icc(1, 1, b"a"), icc(2, 2, b"b")]), None);
}

#[test]
fn exif_payload_is_the_first_one() {
    let exif = |data: &[u8]| {
        let mut p = b"Exif\0\0".to_vec();
        p.extend_from_slice(data);
        (0xE1u8, p)
    };
    let jpeg = with_segments(&[(0xE1, b"http://ns.adobe.com/xap/1.0/\0".to_vec()), exif(b"II*"), exif(b"MM*")]);
    match Decoder::new(&jpeg) {
        Ok(d) => assert_eq!(d.exif(), Some(&b"II*"[..])),
        Err(e) => panic!("{e:?}"),
    }
    let jpeg = with_segments(&[]);
    match Decoder::new(&jpeg) {
        Ok(d) => assert_eq!(d.exif(), None),
        Err(e) => panic!("{e:?}"),
    }
}

#[test]
fn streams_must_begin_with_soi() {
    assert!(matches!(refused(&[], PixelFormat::Rgb), DecodeError::UnexpectedEof));
    assert!(matches!(refused(&[0xFF], PixelFormat::Rgb), DecodeError::UnexpectedEof));
    assert!(matches!(
        refused(&[0x89, 0x50], PixelFormat::Rgb),
        DecodeError::Malformed("missing SOI marker")
    ));
    assert!(matches!(
        refused(&[0xFF, 0xD9], PixelFormat::Rgb),
        DecodeError::Malformed("missing SOI marker")
    ));
}

#[test]
fn other_codings_are_unsupported() {
    for marker in [0xC1u8, 0xC3, 0xC5, 0xC6, 0xC7, 0xC9, 0xCA, 0xCB, 0xCD, 0xCE, 0xCF] {
        let jpeg = header(marker, 8, 8, &[(1, 1, 1, 0)], 1);
        assert!(
            matches!(
                refused(&jpeg, PixelFormat::Rgb),
                DecodeError::Unsupported("non-baseline/progressive SOFn")
            ),
            "marker {marker:#x}"
        );
    }
}

#[test]
fn twelve_bit_samples_are_unsupported() {
    let mut out = vec![0xFF, 0xD8];
    segment(&mut out, 0xC0, &[12, 0, 8, 0, 8, 1, 1, 0x11, 0]);
    assert!(matches!(
        refused(&out, PixelFormat::Rgb),
        DecodeError::Unsupported("non-8-bit precision")
    ));
}

#[test]
fn empty_images_are_refused() {
    let jpeg = header(0xC0, 0, 8, &[(1, 1, 1, 0)], 1);
    assert!(matches!(refused(&jpeg, PixelFormat::Rgb), DecodeError::InvalidDimensions(_)));
    let jpeg = header(0xC0, 8, 0, &[(1, 1, 1, 0)], 1);
    assert!(matches!(refused(&jpeg, PixelFormat::Rgb), DecodeError::InvalidDimensions(_)));
}

#[test]
fn frames_have_one_to_four_components() {
    let mut five = vec![0xFF, 0xD8];
    five.extend_from_slice(&[0xFF, 0xC0, 0, 23, 8, 0, 8, 0, 8, 5]);
    for id in 1..=5u8 {
        five.extend_from_slice(&[id, 0x11, 0]);
    }
    let none = vec![0xFF, 0xD8, 0xFF, 0xC0, 0, 8, 8, 0, 8, 0, 8, 0];
    for jpeg in [five, none] {
        assert!(matches!(
            refused(&jpeg, PixelFormat::Rgb),
            DecodeError::InvalidDimensions("unsupported component count")
        ));
    }
}

#[test]
fn scans_select_tables_up_to_three() {
    for (dc, ac) in [(4, 5), (4, 0), (0, 4), (15, 15)] {
        for marker in [0xC0, 0xC2] {
            let mut out = header(marker, 8, 8, &[(1, 1, 1, 0)], 1);
            sos(&mut out, &[(1, dc, ac)], (0, 0), (0, 0));
            assert!(matches!(
                refused(&out, PixelFormat::Rgb),
                DecodeError::Malformed("SOS table selector out of range")
            ));
        }
    }
    let mut out = header(0xC0, 8, 8, &[(1, 1, 1, 0)], 1);
    sos(&mut out, &[(1, 3, 3)], (0, 63), (0, 0));
    let (_, scan) = match MarkerReader::new(&out).read_to_scan() {
        Ok(parts) => parts,
        Err(e) => panic!("{e:?}"),
    };
    assert_eq!((scan.components[0].dc_table, scan.components[0].ac_table), (3, 3));
}

#[test]
fn headers_can_be_cloned() {
    let jpeg = with_segments(&[(0xE1, b"Exif\0\0payload".to_vec())]);
    let (headers, scan) = match MarkerReader::new(&jpeg).read_to_scan() {
        Ok(parts) => parts,
        Err(e) => panic!("{e:?}"),
    };
    let (again, scan_again) = (headers.clone(), scan.clone());
    assert_eq!(format!("{again:?}"), format!("{headers:?}"));
    assert_eq!(format!("{scan_again:?}"), format!("{scan:?}"));
    assert!(again.metadata.exif.is_some());

    let none = DecoderMetadata::default();
    assert!(none.exif.is_none() && none.icc_chunks.is_empty() && none.icc_total.is_none() && !none.icc_conflict);
}

#[test]
fn scans_need_a_frame_and_images_need_a_scan() {
    let mut out = vec![0xFF, 0xD8];
    sos(&mut out, &[(1, 0, 0)], (0, 63), (0, 0));
    assert!(matches!(refused(&out, PixelFormat::Rgb), DecodeError::Malformed("SOS before SOF")));
    let jpeg = eoi(header(0xC0, 8, 8, &[(1, 1, 1, 0)], 1));
    assert!(matches!(refused(&jpeg, PixelFormat::Rgb), DecodeError::Malformed("EOI before SOS")));
}

#[test]
fn undefined_huffman_table_is_malformed() {
    let mut out = vec![0xFF, 0xD8];
    dqt(&mut out, 0, 1);
    sof(&mut out, 0xC0, 8, 8, &[(1, 1, 1, 0)]);
    sos(&mut out, &[(1, 0, 0)], (0, 63), (0, 0));
    out.push(0);
    assert!(matches!(refused(&eoi(out), PixelFormat::Rgb), DecodeError::Malformed(_)));
}

#[test]
fn undefined_quantization_table_is_malformed() {
    let mut out = vec![0xFF, 0xD8];
    sof(&mut out, 0xC0, 8, 8, &[(1, 1, 1, 0)]);
    dht(&mut out, 0, 0, &STD_LUMA_DC);
    dht(&mut out, 1, 0, &STD_LUMA_AC);
    sos(&mut out, &[(1, 0, 0)], (0, 63), (0, 0));
    out.push(0);
    assert!(matches!(refused(&eoi(out), PixelFormat::Rgb), DecodeError::Malformed(_)));
}

#[test]
fn oversubscribed_huffman_table_is_malformed() {
    let table = StdHuffman { bits: [3, 0, 0, 0, 0, 0, 0, 0, 0, 0, 0, 0, 0, 0, 0, 0], values: &[0, 1, 2] };
    let mut out = vec![0xFF, 0xD8];
    dqt(&mut out, 0, 1);
    sof(&mut out, 0xC0, 8, 8, &[(1, 1, 1, 0)]);
    dht(&mut out, 0, 0, &table);
    dht(&mut out, 1, 0, &STD_LUMA_AC);
    sos(&mut out, &[(1, 0, 0)], (0, 63), (0, 0));
    out.push(0);
    assert!(matches!(
        refused(&eoi(out), PixelFormat::Rgb),
        DecodeError::Malformed("oversubscribed DHT table")
    ));
}

#[test]
fn truncated_headers_end_early() {
    let jpeg = gray_jpeg(8, 8, 1, &[dc_block(0)]);
    for len in [3, 10, 80, 100, 150] {
        assert!(matches!(refused(&jpeg[..len], PixelFormat::Rgb), DecodeError::UnexpectedEof), "length {len}");
    }
}

#[test]
fn errors_have_messages() {
    assert_eq!(DecodeError::UnexpectedEof.message(""), "unexpected end of JPEG data");
    assert_eq!(DecodeError::Malformed("x").message(""), "malformed JPEG: x");
    assert_eq!(DecodeError::Unsupported("y").message(""), "unsupported JPEG feature: y");
    assert_eq!(DecodeError::InvalidDimensions("z").message(""), "invalid dimensions: z");
    let e = DecodeError::from(std::io::Error::new(std::io::ErrorKind::Other, "disk"));
    assert_eq!(e.message("disk"), "I/O error: disk");
}

#[test]
fn headers_are_read_up_to_the_scan() {
    let jpeg = gray_jpeg(19, 11, 2, &[dc_block(0); 6]);
    let mut reader = MarkerReader::new(&jpeg);
    assert_eq!(reader.pos(), 0);
    assert_eq!(reader.remaining().len(), jpeg.len());
    let (headers, scan) = match reader.read_to_scan() {
        Ok(parts) => parts,
        Err(e) => panic!("{e:?}"),
    };
    let frame = &headers.frame;
    assert_eq!((frame.width, frame.height, frame.precision), (19, 11, 8));
    assert_eq!((frame.h_max(), frame.v_max(), frame.mcu_pixels()), (1, 1, (8, 8)));
    assert_eq!(headers.quant.len(), 1);
    assert_eq!(headers.quant[0].values, [2u16; 64]);
    assert_eq!(headers.huffman.len(), 4);
    assert_eq!(headers.restart_interval, 0);
    assert_eq!((scan.components.len(), scan.ss, scan.se, scan.ah, scan.al), (1, 0, 63, 0, 0));

    let mut huffman = headers.huffman;
    let mut quant = headers.quant;
    let mut interval = headers.restart_interval;
    let tail = [0xFF, 0xDD, 0, 4, 0, 9, 0xFF, 0xDB, 0, 2, 0xFF, 0xD9];
    let mut rest = MarkerReader::resume_at(&tail, 0);
    assert!(matches!(
        rest.next_scan_or_end(frame, &mut huffman, &mut quant, &mut interval, None),
        Ok(None)
    ));
    assert_eq!((interval, rest.pos()), (9, tail.len()));
}

#[test]
fn planes_are_padded_to_whole_mcus() {
    let component = |id, h, v| Component { id, h, v, qt: 0 };
    let frame = FrameHeader {
        precision: 8,
        height: 9,
        width: 17,
        components: vec![component(1, 2, 2), component(2, 1, 1), component(3, 1, 2)],
        progressive: false,
    };
    assert_eq!((frame.h_max(), frame.v_max(), frame.mcu_pixels()), (2, 2, (16, 16)));
    let planes = allocate_planes(&frame);
    let measures: Vec<(usize, usize, usize, usize, usize)> = planes
        .iter()
        .map(|p| (p.stride, p.padded_height, p.plane_width, p.plane_height, p.samples.len()))
        .collect();
    assert_eq!(measures, [(32, 16, 17, 9, 512), (16, 8, 9, 5, 128), (16, 16, 9, 9, 256)]);
}

#[test]
fn a_single_scan_fills_its_plane() {
    let blocks = [noisy_block(900), noisy_block(901)];
    let jpeg = gray_jpeg(16, 8, 1, &blocks);
    let mut reader = MarkerReader::new(&jpeg);
    let (headers, scan) = match reader.read_to_scan() {
        Ok(parts) => parts,
        Err(e) => panic!("{e:?}"),
    };
    let (dc, ac) = match build_huffman_tables(&headers.huffman) {
        Ok(tables) => tables,
        Err(e) => panic!("{e:?}"),
    };
    let quant = index_quant_tables(&headers.quant);
    let mut planes = allocate_planes(&headers.frame);
    let end = decode_baseline_scan_into(&jpeg, reader.pos(), &headers, &scan, &dc, &ac, &quant, &mut planes).unwrap();
    // The marker may not have been reached: the last bits of a scan are
    // enough for its last block.
    assert!(end.0 <= jpeg.len());
    for y in 0..8 {
        for x in 0..16 {
            assert_eq!(planes[0].samples[y * 16 + x], samples(&blocks[x / 8], 1)[y * 8 + x % 8]);
        }
    }
}

#[test]
fn later_quantization_tables_replace_earlier_ones() {
    let table = |id, v| QuantTable { id, values: [v; 64] };
    let tables = [table(0, 1), table(2, 2), table(0, 3)];
    let slots = index_quant_tables(&tables);
    assert_eq!(slots[0].map(|t| (t.id, t.values[0])), Some((0, 3)));
    assert!(slots[1].is_none());
    assert_eq!(slots[2].map(|t| (t.id, t.values[0])), Some((2, 2)));
    assert!(slots[3].is_none());
}

#[test]
fn io_errors_are_carried() {
    let e = DecodeError::from(std::io::Error::new(std::io::ErrorKind::Other, "disk"));
    assert!(matches!(e, DecodeError::Io(_)));
}
