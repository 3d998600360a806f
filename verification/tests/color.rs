use jpeg_rusturbo::color::{
    extract_block_ycbcr, extract_block_ycbcr_rgb_full, extract_mcu_420, extract_mcu_420_rgb_full, extract_mcu_422,
    extract_mcu_422_rgb_full, RGB,
};

fn patterned_rgb(width: usize, height: usize) -> Vec<u8> {
    let mut pixels = vec![0u8; width * height * RGB().bpp];
    for y in 0..height {
        for x in 0..width {
            let i = (y * width + x) * RGB().bpp;
            pixels[i] = ((x * 17 + y * 3) & 0xFF) as u8;
            pixels[i + 1] = ((x * 5 + y * 11 + 7) & 0xFF) as u8;
            pixels[i + 2] = ((x * 13 + y * 19 + 23) & 0xFF) as u8;
        }
    }
    pixels
}

#[test]
fn extract_block_ycbcr_rgb_full_matches_generic_rgb() {
    let width = 24;
    let height = 24;
    let pixels = patterned_rgb(width, height);

    let mut y_generic = [0i16; 64];
    let mut cb_generic = [0i16; 64];
    let mut cr_generic = [0i16; 64];
    extract_block_ycbcr(
        &pixels,
        width as u32,
        height as u32,
        RGB(),
        8,
        8,
        &mut y_generic,
        &mut cb_generic,
        &mut cr_generic,
    );

    let mut y_fast = [0i16; 64];
    let mut cb_fast = [0i16; 64];
    let mut cr_fast = [0i16; 64];
    extract_block_ycbcr_rgb_full(
        &pixels,
        width as u32,
        8,
        8,
        &mut y_fast,
        &mut cb_fast,
        &mut cr_fast,
    );

    assert_eq!(y_fast, y_generic);
    assert_eq!(cb_fast, cb_generic);
    assert_eq!(cr_fast, cr_generic);
}

#[test]
fn extract_mcu_420_rgb_full_matches_generic_rgb() {
    let width = 32;
    let height = 32;
    let pixels = patterned_rgb(width, height);

    let mut y_generic = [[0i16; 64]; 4];
    let mut cb_generic = [0i16; 64];
    let mut cr_generic = [0i16; 64];
    extract_mcu_420(
        &pixels,
        width as u32,
        height as u32,
        RGB(),
        16,
        16,
        &mut y_generic,
        &mut cb_generic,
        &mut cr_generic,
    );

    let mut y_fast = [[0i16; 64]; 4];
    let mut cb_fast = [0i16; 64];
    let mut cr_fast = [0i16; 64];
    extract_mcu_420_rgb_full(
        &pixels,
        width as u32,
        16,
        16,
        &mut y_fast,
        &mut cb_fast,
        &mut cr_fast,
    );

    assert_eq!(y_fast, y_generic);
    assert_eq!(cb_fast, cb_generic);
    assert_eq!(cr_fast, cr_generic);
}

#[test]
fn extract_mcu_422_rgb_full_matches_generic_rgb() {
    let width = 32;
    let height = 16;
    let pixels = patterned_rgb(width, height);

    let mut y_generic = [[0i16; 64]; 2];
    let mut cb_generic = [0i16; 64];
    let mut cr_generic = [0i16; 64];
    extract_mcu_422(
        &pixels,
        width as u32,
        height as u32,
        RGB(),
        16,
        8,
        &mut y_generic,
        &mut cb_generic,
        &mut cr_generic,
    );

    let mut y_fast = [[0i16; 64]; 2];
    let mut cb_fast = [0i16; 64];
    let mut cr_fast = [0i16; 64];
    extract_mcu_422_rgb_full(
        &pixels,
        width as u32,
        16,
        8,
        &mut y_fast,
        &mut cb_fast,
        &mut cr_fast,
    );

    assert_eq!(y_fast, y_generic);
    assert_eq!(cb_fast, cb_generic);
    assert_eq!(cr_fast, cr_generic);
}
