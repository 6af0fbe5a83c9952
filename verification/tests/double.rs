use vec4_embed::double::Double;
use vec4_embed::single::Single;

fn wide_patterns() -> Vec<u64> {
    let mut all = Vec::new();
    let mut bits: u64 = 0;
    loop {
        all.push(bits);
        match bits.checked_add(0x0000_3a5f_1c2b_7d13) {
            Some(next) => bits = next,
            None => break,
        }
    }
    let edges: [u64; 16] = [
        0,
        1,
        0x000f_ffff_ffff_ffff,
        0x0010_0000_0000_0000,
        // half of the smallest subnormal binary32, 2^-150
        0x3690_0000_0000_0000,
        // the smallest subnormal binary32, 2^-149
        0x36a0_0000_0000_0000,
        // the smallest normal binary32, 2^-126
        0x3810_0000_0000_0000,
        0x3ff0_0000_0000_0000,
        // 1 + 2^-24, halfway between two binary32
        0x3ff0_0000_1000_0000,
        // 1 + 3 * 2^-24, halfway again, the lower neighbour is odd
        0x3ff0_0000_3000_0000,
        // the largest finite binary32
        0x47ef_ffff_e000_0000,
        // halfway between it and 2^128
        0x47ef_ffff_f000_0000,
        // 2^128
        0x47f0_0000_0000_0000,
        0x7fef_ffff_ffff_ffff,
        0x7ff0_0000_0000_0000,
        0x7ff8_0000_0000_0000,
    ];
    for edge in edges {
        for near in edge.saturating_sub(200)..=edge.saturating_add(200) {
            all.push(near);
            all.push(near ^ 0x8000_0000_0000_0000);
        }
    }
    // every binary32 exponent, with fractions that end on, below and above a midpoint
    for exponent in 0x360u64..0x482 {
        for fraction in [
            0u64,
            0x0_0000_0fff_ffff,
            0x0_0000_1000_0000,
            0x0_0000_1000_0001,
            0x0_0000_3000_0000,
            0x8_0000_0000_0000,
            0xf_ffff_efff_ffff,
            0xf_ffff_f000_0000,
            0xf_ffff_ffff_ffff,
        ] {
            all.push((exponent << 52) | fraction);
        }
    }
    all
}

#[test]
fn to_single_is_the_native_cast() {
    for bits in wide_patterns() {
        let native = f64::from_bits(bits) as f32;
        let ours = Double::from_bits(bits).to_single();
        if native.is_nan() {
            assert!(f32::from_bits(ours.to_bits()).is_nan(), "{:#x}", bits);
        } else {
            assert_eq!(ours.to_bits(), native.to_bits(), "{:#x}", bits);
        }
    }
}

#[test]
fn to_single_rounds_ties_to_even_and_overflows_to_infinity() {
    let round = |x: f64| Double::from_bits(x.to_bits()).to_single().to_bits();
    assert_eq!(round(1.0), 0x3f80_0000);
    assert_eq!(round(1.0 + 2f64.powi(-24)), 0x3f80_0000);
    assert_eq!(round(1.0 + 3.0 * 2f64.powi(-24)), 0x3f80_0002);
    assert_eq!(round(1.0 + 2f64.powi(-24) + 2f64.powi(-50)), 0x3f80_0001);
    assert_eq!(round(0.1), 0.1f32.to_bits());
    assert_eq!(round(-0.1), (-0.1f32).to_bits());
    assert_eq!(round(3.4028234663852886e38), 0x7f7f_ffff);
    assert_eq!(round(3.4028235677973366e38), 0x7f80_0000);
    assert_eq!(round(1e300), 0x7f80_0000);
    assert_eq!(round(-1e300), 0xff80_0000);
    assert_eq!(round(f64::INFINITY), 0x7f80_0000);
    assert_eq!(round(2f64.powi(-149)), 1);
    assert_eq!(round(2f64.powi(-150)), 0);
    assert_eq!(round(2f64.powi(-150) * 1.5), 1);
    assert_eq!(round(1e-300), 0);
    assert_eq!(round(-0.0), 0x8000_0000);
    assert!(f32::from_bits(round(f64::NAN)).is_nan());
}

#[test]
fn from_single_is_the_native_widening() {
    let mut bits: u32 = 0;
    loop {
        let native = f64::from(f32::from_bits(bits));
        let ours = Double::from_single(Single::from_bits(bits));
        if native.is_nan() {
            assert!(f64::from_bits(ours.to_bits()).is_nan(), "{:#x}", bits);
        } else {
            assert_eq!(ours.to_bits(), native.to_bits(), "{:#x}", bits);
        }
        match bits.checked_add(30_011) {
            Some(next) => bits = next,
            None => break,
        }
    }
}

#[test]
fn from_single_of_subnormals_and_edges() {
    let edges: [u32; 10] = [
        0,
        1,
        2,
        3,
        0x0040_0000,
        0x007f_ffff,
        0x0080_0000,
        0x3f80_0000,
        0x7f7f_ffff,
        0x7f80_0000,
    ];
    for edge in edges {
        for bits in [edge, edge | 0x8000_0000] {
            let native = f64::from(f32::from_bits(bits));
            let ours = Double::from_single(Single::from_bits(bits));
            assert_eq!(ours.to_bits(), native.to_bits(), "{:#x}", bits);
        }
    }
    for bits in 1u32..0x2000 {
        let native = f64::from(f32::from_bits(bits));
        assert_eq!(Double::from_single(Single::from_bits(bits)).to_bits(), native.to_bits());
    }
    let nan = Double::from_single(Single::from_bits(0x7fc0_0000));
    assert!(f64::from_bits(nan.to_bits()).is_nan());
    let signalling = Double::from_single(Single::from_bits(0xff80_0001));
    assert!(f64::from_bits(signalling.to_bits()).is_nan());
}

#[test]
fn widening_then_narrowing_gives_the_binary32_back() {
    let mut bits: u32 = 0;
    loop {
        let x = Single::from_bits(bits);
        if !f32::from_bits(bits).is_nan() {
            assert_eq!(Double::from_single(x).to_single().to_bits(), bits, "{:#x}", bits);
        }
        match bits.checked_add(70_001) {
            Some(next) => bits = next,
            None => break,
        }
    }
}

#[test]
fn double_bits_and_sign() {
    let x = Double::from_bits((-2.5f64).to_bits());
    assert_eq!(x.to_bits(), 0xc004_0000_0000_0000);
    assert_eq!(x.abs_bits(), 2.5f64.to_bits());
}
