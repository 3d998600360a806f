use jpeg_rusturbo::dct::{fdct_islow, fdct_islow_neon};

fn ramp_block() -> [i16; 64] {
    let mut b = [0i16; 64];
    for (i, v) in b.iter_mut().enumerate() {
        *v = (i as i16) - 32;
    }
    b
}

fn random_block(seed: u64) -> [i16; 64] {
    let mut s = seed.wrapping_mul(6364136223846793005).wrapping_add(1442695040888963407);
    let mut b = [0i16; 64];
    for v in &mut b {
        s = s.wrapping_mul(6364136223846793005).wrapping_add(1442695040888963407);
        *v = ((s >> 33) as i32 % 256 - 128) as i16;
    }
    b
}

#[test]
fn dc_only_block() {
    let mut b = [50i16; 64];
    fdct_islow(&mut b);
    assert_eq!(b[0], 50 * 64);
    for (i, &v) in b.iter().enumerate().skip(1) {
        assert_eq!(v, 0, "AC[{i}] not zero");
    }
}

#[test]
fn neon_matches_scalar_zeros() {
    let mut a = [0i16; 64];
    let mut b = [0i16; 64];
    fdct_islow(&mut a);
    fdct_islow_neon(&mut b);
    assert_eq!(a, b);
}

#[test]
fn neon_matches_scalar_const() {
    let mut a = [42i16; 64];
    let mut b = [42i16; 64];
    fdct_islow(&mut a);
    fdct_islow_neon(&mut b);
    assert_eq!(a, b);
}

#[test]
fn neon_matches_scalar_ramp() {
    let mut a = ramp_block();
    let mut b = a;
    fdct_islow(&mut a);
    fdct_islow_neon(&mut b);
    assert_eq!(a, b);
}

#[test]
fn neon_matches_scalar_random() {
    for seed in 0..5u64 {
        let mut a = random_block(seed);
        let mut b = a;
        fdct_islow(&mut a);
        fdct_islow_neon(&mut b);
        assert_eq!(a, b, "seed={seed}");
    }
}

#[test]
fn neon_matches_scalar_extremes() {
    let mut a = [0i16; 64];
    for (i, v) in a.iter_mut().enumerate() {
        *v = if i % 2 == 0 { 127 } else { -128 };
    }
    let mut b = a;
    fdct_islow(&mut a);
    fdct_islow_neon(&mut b);
    assert_eq!(a, b);
}
