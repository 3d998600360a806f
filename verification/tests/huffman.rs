use jpeg_rusturbo::decode::huffman::{
    decode_ac_fast, decode_dc_fast, extend, BitReader, FastAcHuffmanTable, FastDcHuffmanTable, HuffmanDecodeTable,
    FAST_AC_PEEK_WIDTH, FAST_DC_PEEK_WIDTH,
};
use jpeg_rusturbo::decode::markers::HuffmanTableSpec;

/// Code counts by length and symbols of a Huffman table.
struct StdHuffman {
    bits: [u8; 16],
    values: &'static [u8],
}

const STD_LUMA_DC: StdHuffman = StdHuffman {
    bits: [0, 1, 5, 1, 1, 1, 1, 1, 1, 0, 0, 0, 0, 0, 0, 0],
    values: &[0, 1, 2, 3, 4, 5, 6, 7, 8, 9, 10, 11],
};

const STD_CHROMA_DC: StdHuffman = StdHuffman {
    bits: [0, 3, 1, 1, 1, 1, 1, 1, 1, 1, 1, 0, 0, 0, 0, 0],
    values: &[0, 1, 2, 3, 4, 5, 6, 7, 8, 9, 10, 11],
};

const STD_LUMA_AC: StdHuffman = StdHuffman {
    bits: [0, 2, 1, 3, 3, 2, 4, 3, 5, 5, 4, 4, 0, 0, 1, 125],
    values: &[
        0x01, 0x02, 0x03, 0x00, 0x04, 0x11, 0x05, 0x12, 0x21, 0x31, 0x41, 0x06, 0x13, 0x51, 0x61, 0x07, 0x22, 0x71,
        0x14, 0x32, 0x81, 0x91, 0xa1, 0x08, 0x23, 0x42, 0xb1, 0xc1, 0x15, 0x52, 0xd1, 0xf0, 0x24, 0x33, 0x62, 0x72,
        0x82, 0x09, 0x0a, 0x16, 0x17, 0x18, 0x19, 0x1a, 0x25, 0x26, 0x27, 0x28, 0x29, 0x2a, 0x34, 0x35, 0x36, 0x37,
        0x38, 0x39, 0x3a, 0x43, 0x44, 0x45, 0x46, 0x47, 0x48, 0x49, 0x4a, 0x53, 0x54, 0x55, 0x56, 0x57, 0x58, 0x59,
        0x5a, 0x63, 0x64, 0x65, 0x66, 0x67, 0x68, 0x69, 0x6a, 0x73, 0x74, 0x75, 0x76, 0x77, 0x78, 0x79, 0x7a, 0x83,
        0x84, 0x85, 0x86, 0x87, 0x88, 0x89, 0x8a, 0x92, 0x93, 0x94, 0x95, 0x96, 0x97, 0x98, 0x99, 0x9a, 0xa2, 0xa3,
        0xa4, 0xa5, 0xa6, 0xa7, 0xa8, 0xa9, 0xaa, 0xb2, 0xb3, 0xb4, 0xb5, 0xb6, 0xb7, 0xb8, 0xb9, 0xba, 0xc2, 0xc3,
        0xc4, 0xc5, 0xc6, 0xc7, 0xc8, 0xc9, 0xca, 0xd2, 0xd3, 0xd4, 0xd5, 0xd6, 0xd7, 0xd8, 0xd9, 0xda, 0xe1, 0xe2,
        0xe3, 0xe4, 0xe5, 0xe6, 0xe7, 0xe8, 0xe9, 0xea, 0xf1, 0xf2, 0xf3, 0xf4, 0xf5, 0xf6, 0xf7, 0xf8, 0xf9, 0xfa,
    ],
};

const STD_CHROMA_AC: StdHuffman = StdHuffman {
    bits: [0, 2, 1, 2, 4, 4, 3, 4, 7, 5, 4, 4, 0, 1, 2, 119],
    values: &[
        0x00, 0x01, 0x02, 0x03, 0x11, 0x04, 0x05, 0x21, 0x31, 0x06, 0x12, 0x41, 0x51, 0x07, 0x61, 0x71, 0x13, 0x22,
        0x32, 0x81, 0x08, 0x14, 0x42, 0x91, 0xa1, 0xb1, 0xc1, 0x09, 0x23, 0x33, 0x52, 0xf0, 0x15, 0x62, 0x72, 0xd1,
        0x0a, 0x16, 0x24, 0x34, 0xe1, 0x25, 0xf1, 0x17, 0x18, 0x19, 0x1a, 0x26, 0x27, 0x28, 0x29, 0x2a, 0x35, 0x36,
        0x37, 0x38, 0x39, 0x3a, 0x43, 0x44, 0x45, 0x46, 0x47, 0x48, 0x49, 0x4a, 0x53, 0x54, 0x55, 0x56, 0x57, 0x58,
        0x59, 0x5a, 0x63, 0x64, 0x65, 0x66, 0x67, 0x68, 0x69, 0x6a, 0x73, 0x74, 0x75, 0x76, 0x77, 0x78, 0x79, 0x7a,
        0x82, 0x83, 0x84, 0x85, 0x86, 0x87, 0x88, 0x89, 0x8a, 0x92, 0x93, 0x94, 0x95, 0x96, 0x97, 0x98, 0x99, 0x9a,
        0xa2, 0xa3, 0xa4, 0xa5, 0xa6, 0xa7, 0xa8, 0xa9, 0xaa, 0xb2, 0xb3, 0xb4, 0xb5, 0xb6, 0xb7, 0xb8, 0xb9, 0xba,
        0xc2, 0xc3, 0xc4, 0xc5, 0xc6, 0xc7, 0xc8, 0xc9, 0xca, 0xd2, 0xd3, 0xd4, 0xd5, 0xd6, 0xd7, 0xd8, 0xd9, 0xda,
        0xe2, 0xe3, 0xe4, 0xe5, 0xe6, 0xe7, 0xe8, 0xe9, 0xea, 0xf2, 0xf3, 0xf4, 0xf5, 0xf6, 0xf7, 0xf8, 0xf9, 0xfa,
    ],
};

#[test]
fn extend_inverse_of_encoder_categories() {
    assert_eq!(extend(0b101, 3), 5);
    assert_eq!(extend(0b010, 3), -5);
    assert_eq!(extend(1, 1), 1);
    assert_eq!(extend(0, 1), -1);
    assert_eq!(extend(0, 10), -1023);
    assert_eq!(extend(1023, 10), 1023);
}

#[test]
fn bit_reader_basic() {
    let data = [0b1010_1100u8, 0b0011_0101];
    let mut br = BitReader::new(&data, 0);
    assert_eq!(br.get_bits(4).unwrap(), 0b1010);
    assert_eq!(br.get_bits(4).unwrap(), 0b1100);
    assert_eq!(br.get_bits(8).unwrap(), 0b0011_0101);
}

#[test]
fn bit_reader_unstuffs_ff00() {
    let data = [0xAB, 0xFF, 0x00, 0xCD];
    let mut br = BitReader::new(&data, 0);
    assert_eq!(br.get_bits(8).unwrap(), 0xAB);
    assert_eq!(br.get_bits(8).unwrap(), 0xFF);
    assert_eq!(br.get_bits(8).unwrap(), 0xCD);
}

#[test]
fn bit_reader_surfaces_marker() {
    let data = [0x12, 0xFF, 0xD9];
    let mut br = BitReader::new(&data, 0);
    assert_eq!(br.get_bits(8).unwrap(), 0x12);
    let _ = br.get_bits(8).unwrap();
    assert_eq!(br.marker(), Some(0xD9));
}

fn ac_spec(std: &StdHuffman, id: u8) -> HuffmanTableSpec {
    HuffmanTableSpec {
        class: 1,
        id,
        bits: std.bits,
        values: std.values.to_vec(),
    }
}

fn cross_check_against_slow_path(spec: &HuffmanTableSpec) -> (usize, usize) {
    let fast = FastAcHuffmanTable::from_spec(spec).unwrap();
    let slow = HuffmanDecodeTable::from_spec(spec).unwrap();
    let mut valid = 0usize;
    for i in 0..(1u32 << FAST_AC_PEEK_WIDTH) {
        let aligned = i << (32 - FAST_AC_PEEK_WIDTH);
        let bytes = aligned.to_be_bytes();
        let mut br_fast = BitReader::new(&bytes, 0);
        let got = decode_ac_fast(&mut br_fast, &fast).unwrap();
        if let Some(d) = got {
            valid += 1;
            assert!(
                (d.total_consumed as u32) <= FAST_AC_PEEK_WIDTH,
                "key {i:#x}: total_consumed {} exceeds peek width",
                d.total_consumed
            );
            let mut br_slow = BitReader::new(&bytes, 0);
            let sym = br_slow.decode_symbol(&slow).unwrap();
            let run_slow = (sym >> 4) & 0x0F;
            let size_slow = sym & 0x0F;
            let mag_slow = if size_slow == 0 {
                0
            } else {
                br_slow.get_bits(size_slow as u32).unwrap()
            };
            assert_eq!(d.run, run_slow, "key {i:#x}: run mismatch");
            assert_eq!(d.size, size_slow, "key {i:#x}: size mismatch");
            assert_eq!(
                d.magnitude_raw, mag_slow,
                "key {i:#x}: magnitude mismatch (size={size_slow})"
            );
        }
    }
    (valid, 1usize << FAST_AC_PEEK_WIDTH)
}

#[test]
fn fast_ac_lut_round_trips_via_standard_luma_ac() {
    let spec = ac_spec(&STD_LUMA_AC, 0);
    let (valid, total) = cross_check_against_slow_path(&spec);
    assert!(
        valid * 2 >= total,
        "luma AC fast-path coverage too low: {valid}/{total}"
    );
}

#[test]
fn fast_ac_lut_round_trips_via_standard_chroma_ac() {
    let spec = ac_spec(&STD_CHROMA_AC, 1);
    let (valid, total) = cross_check_against_slow_path(&spec);
    assert!(
        valid * 2 >= total,
        "chroma AC fast-path coverage too low: {valid}/{total}"
    );
}

#[test]
fn fast_ac_lut_marks_long_codes_as_slow_path() {
    let spec = ac_spec(&STD_LUMA_AC, 0);
    let fast = FastAcHuffmanTable::from_spec(&spec).unwrap();
    for i in 0..(1u32 << FAST_AC_PEEK_WIDTH) {
        let e = fast.lookup(i);
        if e.is_valid() {
            let total = e.total_consumed() as u32;
            let size = e.size() as u32;
            assert!(total <= FAST_AC_PEEK_WIDTH);
            assert!(size <= total);
        }
    }
}

#[test]
fn fast_ac_lut_handles_zrl_and_eob() {
    let spec = ac_spec(&STD_LUMA_AC, 0);
    let fast = FastAcHuffmanTable::from_spec(&spec).unwrap();

    let mut found_eob = false;
    let mut found_run0_size_nonzero = false;
    for i in 0..(1u32 << FAST_AC_PEEK_WIDTH) {
        let e = fast.lookup(i);
        if e.is_valid() {
            if e.run() == 0 && e.size() == 0 {
                found_eob = true;
            }
            if e.run() == 0 && e.size() != 0 {
                found_run0_size_nonzero = true;
            }
        }
    }
    assert!(found_eob, "EOB (run=0, size=0) must hit fast path");
    assert!(
        found_run0_size_nonzero,
        "expected at least one run=0 non-zero size symbol in fast path"
    );
}

fn dc_spec(std: &StdHuffman, id: u8) -> HuffmanTableSpec {
    HuffmanTableSpec {
        class: 0,
        id,
        bits: std.bits,
        values: std.values.to_vec(),
    }
}

fn cross_check_dc_against_slow_path(spec: &HuffmanTableSpec) -> (usize, usize) {
    let fast = FastDcHuffmanTable::from_spec(spec).unwrap();
    let slow = HuffmanDecodeTable::from_spec(spec).unwrap();
    let mut valid = 0usize;
    for i in 0..(1u32 << FAST_DC_PEEK_WIDTH) {
        let aligned = i << (32 - FAST_DC_PEEK_WIDTH);
        let bytes = aligned.to_be_bytes();
        let mut br_fast = BitReader::new(&bytes, 0);
        let got = decode_dc_fast(&mut br_fast, &fast).unwrap();
        if let Some(d) = got {
            valid += 1;
            assert!(
                (d.total_consumed as u32) <= FAST_DC_PEEK_WIDTH,
                "key {i:#x}: total_consumed {} exceeds peek width",
                d.total_consumed
            );
            let mut br_slow = BitReader::new(&bytes, 0);
            let sym = br_slow.decode_symbol(&slow).unwrap();
            let size_slow = sym;
            let mag_slow = if size_slow == 0 {
                0
            } else {
                br_slow.get_bits(size_slow as u32).unwrap()
            };
            assert_eq!(d.size, size_slow, "key {i:#x}: size mismatch");
            assert_eq!(
                d.magnitude_raw, mag_slow,
                "key {i:#x}: magnitude mismatch (size={size_slow})"
            );
        }
    }
    (valid, 1usize << FAST_DC_PEEK_WIDTH)
}

#[test]
fn fast_dc_lut_round_trips_via_standard_luma_dc() {
    let spec = dc_spec(&STD_LUMA_DC, 0);
    let (valid, total) = cross_check_dc_against_slow_path(&spec);
    assert!(
        valid * 2 >= total,
        "luma DC fast-path coverage too low: {valid}/{total}"
    );
}

#[test]
fn fast_dc_lut_round_trips_via_standard_chroma_dc() {
    let spec = dc_spec(&STD_CHROMA_DC, 1);
    let (valid, total) = cross_check_dc_against_slow_path(&spec);
    assert!(
        valid * 2 >= total,
        "chroma DC fast-path coverage too low: {valid}/{total}"
    );
}

#[test]
fn fast_dc_lut_marks_oversize_as_slow_path() {
    let spec = dc_spec(&STD_LUMA_DC, 0);
    let fast = FastDcHuffmanTable::from_spec(&spec).unwrap();
    for i in 0..(1u32 << FAST_DC_PEEK_WIDTH) {
        let e = fast.lookup(i);
        if e.is_valid() {
            let total = e.total_consumed() as u32;
            let size = e.size() as u32;
            assert!(total <= FAST_DC_PEEK_WIDTH);
            assert!(size <= total);
        }
    }
}

#[test]
fn huffman_table_decodes_standard_luma_dc() {
    let spec = HuffmanTableSpec {
        class: 0,
        id: 0,
        bits: STD_LUMA_DC.bits,
        values: STD_LUMA_DC.values.to_vec(),
    };
    let tbl = HuffmanDecodeTable::from_spec(&spec).unwrap();
    for i in 0..0x40usize {
        let entry = tbl.look[i];
        assert_eq!(entry, 2u16 << 8, "look[{i:#x}]");
    }
}

/// Reads an AC term from `fast` through the lookup and from `slow` step by
/// step, and tells whether the lookup had it.
fn same_term(fast: &mut BitReader, slow: &mut BitReader, lut: &FastAcHuffmanTable, table: &HuffmanDecodeTable) -> bool {
    let hit = decode_ac_fast(fast, lut).unwrap();
    let sym = slow.decode_symbol(table).unwrap();
    let size = (sym & 15) as u32;
    let bits = if size > 0 { slow.get_bits(size).unwrap() } else { 0 };
    match hit {
        Some(d) => {
            assert_eq!((d.run, d.size as u32, d.magnitude_raw), (sym >> 4, size, bits));
            true
        }
        None => {
            assert_eq!(fast.decode_symbol(table).unwrap(), sym);
            if size > 0 {
                assert_eq!(fast.get_bits(size).unwrap(), bits);
            }
            false
        }
    }
}

#[test]
fn lookup_and_plain_reader_walk_one_stream_together() {
    let spec = ac_spec(&STD_LUMA_AC, 0);
    let lut = FastAcHuffmanTable::from_spec(&spec).unwrap();
    let table = HuffmanDecodeTable::from_spec(&spec).unwrap();
    // A short code, stuffed FF bytes, a long code, and a marker at the end.
    let data = [0x12, 0x34, 0xFF, 0x00, 0x0F, 0xFF, 0x00, 0x81, 0x5A, 0x22, 0x47, 0x10, 0x09, 0xFF, 0xD9];
    let mut fast = BitReader::new(&data, 0);
    let mut slow = BitReader::new(&data, 0);
    let (mut hits, mut misses) = (0, 0);
    for _ in 0..12 {
        if same_term(&mut fast, &mut slow, &lut, &table) {
            hits += 1;
        } else {
            misses += 1;
        }
    }
    assert!(hits > 0 && misses > 0, "{hits} hits, {misses} misses");
    for _ in 0..64 {
        assert_eq!(fast.get_bit().unwrap(), slow.get_bit().unwrap());
    }
}
