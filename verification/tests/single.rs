use vec4_embed::single::Single;

/// Bit patterns spread over the whole range, dense around the edges.
fn patterns() -> Vec<u32> {
    let mut all = Vec::new();
    let mut bits: u32 = 0;
    loop {
        all.push(bits);
        match bits.checked_add(40_503) {
            Some(next) => bits = next,
            None => break,
        }
    }
    let edges: [u32; 14] = [
        0,
        1,
        0x007f_ffff,
        0x0080_0000,
        0x3b80_8081,
        0x3f7f_ffff,
        0x3f80_0000,
        0x437f_0000,
        0x4380_0000,
        0x4f7f_ffff,
        0x4f80_0000,
        0x7f7f_ffff,
        0x7f80_0000,
        0x7fc0_0000,
    ];
    for edge in edges {
        for near in edge.saturating_sub(300)..=edge.saturating_add(300) {
            all.push(near);
            all.push(near ^ 0x8000_0000);
        }
    }
    all
}

#[test]
fn from_u32_is_the_native_cast() {
    let mut n: u32 = 0;
    loop {
        assert_eq!(Single::from_u32(n).to_bits(), (n as f32).to_bits(), "{}", n);
        match n.checked_add(9_973) {
            Some(next) => n = next,
            None => break,
        }
    }
}

#[test]
fn from_u32_rounds_ties_to_even() {
    // 2^24 + 1 lies halfway between 2^24 and 2^24 + 2
    assert_eq!(Single::from_u32(16_777_216).to_bits(), 0x4b80_0000);
    assert_eq!(Single::from_u32(16_777_217).to_bits(), 0x4b80_0000);
    assert_eq!(Single::from_u32(16_777_218).to_bits(), 0x4b80_0001);
    assert_eq!(Single::from_u32(16_777_219).to_bits(), 0x4b80_0002);
    assert_eq!(Single::from_u32(u32::MAX).to_bits(), 0x4f80_0000);
    assert_eq!(Single::from_u32(0xffff_ff7f).to_bits(), 0x4f7f_ffff);
    assert_eq!(Single::from_u32(0xffff_ff80).to_bits(), 0x4f80_0000);
    assert_eq!(Single::from_u32(0).to_bits(), 0);
    assert_eq!(Single::from_u32(1).to_bits(), 0x3f80_0000);
    assert_eq!(Single::from_u32(3).to_bits(), 3.0f32.to_bits());
}

#[test]
fn from_u32_near_powers_of_two() {
    for shift in 0..32u32 {
        let p = 1u32 << shift;
        for n in p.saturating_sub(130)..=p.saturating_add(130) {
            assert_eq!(Single::from_u32(n).to_bits(), (n as f32).to_bits(), "{}", n);
        }
    }
}

#[test]
fn to_u32_is_the_native_cast() {
    for bits in patterns() {
        let native = f32::from_bits(bits) as u32;
        assert_eq!(Single::from_bits(bits).to_u32(), native, "{:#x}", bits);
    }
}

#[test]
fn to_u32_truncates_and_saturates() {
    assert_eq!(Single::from_bits(0.99f32.to_bits()).to_u32(), 0);
    assert_eq!(Single::from_bits(1.0f32.to_bits()).to_u32(), 1);
    assert_eq!(Single::from_bits(2.999f32.to_bits()).to_u32(), 2);
    assert_eq!(Single::from_bits((-2.5f32).to_bits()).to_u32(), 0);
    assert_eq!(Single::from_bits(4294967040.0f32.to_bits()).to_u32(), 4_294_967_040);
    assert_eq!(Single::from_bits(4294967296.0f32.to_bits()).to_u32(), u32::MAX);
    assert_eq!(Single::from_bits(f32::INFINITY.to_bits()).to_u32(), u32::MAX);
    assert_eq!(Single::from_bits(f32::NEG_INFINITY.to_bits()).to_u32(), 0);
    assert_eq!(Single::from_bits(f32::NAN.to_bits()).to_u32(), 0);
    assert_eq!(Single::from_bits(0x8000_0000).to_u32(), 0);
}

#[test]
fn from_channel_is_the_native_division() {
    for c in 0..=255u8 {
        let native = f32::from(c) / 255.0;
        assert_eq!(Single::from_channel(c).to_bits(), native.to_bits(), "{}", c);
    }
}

#[test]
fn from_channel_at_the_ends() {
    assert_eq!(Single::from_channel(0).to_bits(), 0);
    assert_eq!(Single::from_channel(255).to_bits(), 0x3f80_0000);
    assert_eq!(Single::from_channel(51).to_bits(), 0.2f32.to_bits());
}

#[test]
fn to_channel_is_the_native_product_and_cast() {
    for bits in patterns() {
        let native = (f32::from_bits(bits) * 255.0) as u8;
        assert_eq!(Single::from_bits(bits).to_channel(), native, "{:#x}", bits);
    }
}

#[test]
fn to_channel_truncates_and_saturates() {
    assert_eq!(Single::from_bits(1.0f32.to_bits()).to_channel(), 255);
    assert_eq!(Single::from_bits(0.5f32.to_bits()).to_channel(), 127);
    assert_eq!(Single::from_bits(0.0f32.to_bits()).to_channel(), 0);
    assert_eq!(Single::from_bits(2.0f32.to_bits()).to_channel(), 255);
    assert_eq!(Single::from_bits((-1.0f32).to_bits()).to_channel(), 0);
    assert_eq!(Single::from_bits(f32::NAN.to_bits()).to_channel(), 0);
    assert_eq!(Single::from_bits(f32::INFINITY.to_bits()).to_channel(), 255);
    assert_eq!(Single::from_bits(f32::MAX.to_bits()).to_channel(), 255);
    assert_eq!(Single::from_bits(f32::MIN_POSITIVE.to_bits()).to_channel(), 0);
}

#[test]
fn channel_round_trip_stays_within_one() {
    for c in 0..=255u8 {
        let back = Single::from_channel(c).to_channel();
        assert!(back == c || back + 1 == c, "{} came back as {}", c, back);
    }
}

#[test]
fn full_channel_round_trips_exactly() {
    let one = Single::from_channel(255);
    assert_eq!(f32::from_bits(one.to_bits()), 1.0);
    assert_eq!(one.to_channel(), 255);
}

#[test]
fn bits_and_sign() {
    let x = Single::from_bits((-3.5f32).to_bits());
    assert_eq!(x.to_bits(), 0xc060_0000);
    assert!(x.is_sign_negative());
    assert_eq!(x.abs_bits(), 3.5f32.to_bits());
    assert!(!Single::zero().is_sign_negative());
    assert_eq!(Single::zero().to_bits(), 0.0f32.to_bits());
}
