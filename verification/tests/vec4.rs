use vec4_embed::double::Double;
use vec4_embed::single::Single;
use vec4_embed::vec4::{Native, Shape, Vec4};

fn s(x: f32) -> Single {
    Single::from_bits(x.to_bits())
}

fn d(x: f64) -> Double {
    Double::from_bits(x.to_bits())
}

fn floats(v: &Vec4) -> [f32; 4] {
    let c = v.to();
    [
        f32::from_bits(c[0].to_bits()),
        f32::from_bits(c[1].to_bits()),
        f32::from_bits(c[2].to_bits()),
        f32::from_bits(c[3].to_bits()),
    ]
}

fn bits(v: &Vec4) -> [u32; 4] {
    let c = v.to();
    [c[0].to_bits(), c[1].to_bits(), c[2].to_bits(), c[3].to_bits()]
}

#[test]
fn two_coordinates_are_zero_filled() {
    let v = Vec4::from_single2([s(3.0), s(4.0)]);
    assert_eq!(floats(&v), [3.0, 4.0, 0.0, 0.0]);
    assert_eq!(bits(&v), [3.0f32.to_bits(), 4.0f32.to_bits(), 0, 0]);
}

#[test]
fn three_coordinates_are_zero_filled() {
    let v = Vec4::from_single3([s(-1.5), s(2.25), s(1e-40)]);
    assert_eq!(
        bits(&v),
        [(-1.5f32).to_bits(), 2.25f32.to_bits(), 1e-40f32.to_bits(), 0]
    );
}

#[test]
fn four_coordinates_are_kept() {
    let v = Vec4::from_single4([s(1.0), s(2.0), s(3.0), s(4.0)]);
    assert_eq!(floats(&v), [1.0, 2.0, 3.0, 4.0]);
    let w = Vec4::from([s(5.0), s(6.0), s(7.0), s(8.0)]);
    assert_eq!(floats(&w), [5.0, 6.0, 7.0, 8.0]);
}

#[test]
fn binary32_shapes_round_trip_bit_for_bit() {
    let odd = [0x7fc0_1234u32, 0x8000_0000, 0x0000_0001, 0xff80_0000];
    let all = [
        Single::from_bits(odd[0]),
        Single::from_bits(odd[1]),
        Single::from_bits(odd[2]),
        Single::from_bits(odd[3]),
    ];
    let two = Vec4::from_single2([all[0], all[1]]).to_single2();
    assert_eq!([two[0].to_bits(), two[1].to_bits()], [odd[0], odd[1]]);
    let three = Vec4::from_single3([all[0], all[1], all[2]]).to_single3();
    assert_eq!(
        [three[0].to_bits(), three[1].to_bits(), three[2].to_bits()],
        [odd[0], odd[1], odd[2]]
    );
    let four = Vec4::from_single4(all).to_single4();
    assert_eq!(
        [four[0].to_bits(), four[1].to_bits(), four[2].to_bits(), four[3].to_bits()],
        odd
    );
}

#[test]
fn narrowing_drops_the_last_components() {
    let v = Vec4::from_single4([s(1.0), s(2.0), s(3.0), s(4.0)]);
    let two = v.to_single2();
    assert_eq!([two[0].to_bits(), two[1].to_bits()], [1.0f32.to_bits(), 2.0f32.to_bits()]);
    let three = v.to_double3();
    assert_eq!(
        [three[0].to_bits(), three[1].to_bits(), three[2].to_bits()],
        [1.0f64.to_bits(), 2.0f64.to_bits(), 3.0f64.to_bits()]
    );
    assert_eq!(v.to_pair(), [1, 2]);
}

#[test]
fn binary64_coordinates_are_rounded_to_binary32() {
    let v = Vec4::from_double2([d(0.1), d(-1e300)]);
    assert_eq!(bits(&v), [0.1f32.to_bits(), f32::NEG_INFINITY.to_bits(), 0, 0]);
    let w = Vec4::from_double3([d(1.0), d(2.5), d(1e-50)]);
    assert_eq!(floats(&w), [1.0, 2.5, 0.0, 0.0]);
    let x = Vec4::from_double4([d(0.1), d(0.2), d(0.3), d(16777217.0)]);
    assert_eq!(floats(&x), [0.1f64 as f32, 0.2f64 as f32, 0.3f64 as f32, 16777216.0]);
}

#[test]
fn binary64_round_trip_loses_what_the_rounding_took() {
    let input = [0.1f64, 3.0, -2.5e-3, 1.0e10];
    let v = Vec4::from_double4([d(input[0]), d(input[1]), d(input[2]), d(input[3])]);
    let back = v.to_double4();
    for i in 0..4 {
        let expected = f64::from(input[i] as f32);
        assert_eq!(back[i].to_bits(), expected.to_bits());
    }
    // what a binary32 can hold comes back exactly
    assert_eq!(f64::from_bits(back[1].to_bits()), 3.0);
    // going in again changes nothing
    let again = Vec4::from_double4(back);
    assert_eq!(bits(&again), bits(&v));
}

#[test]
fn binary64_views_of_two_and_four_components() {
    let v = Vec4::from_single4([s(0.5), s(-0.25), s(1e-45), s(f32::MAX)]);
    let two = v.to_double2();
    assert_eq!([two[0].to_bits(), two[1].to_bits()], [0.5f64.to_bits(), (-0.25f64).to_bits()]);
    let four = v.to_double4();
    assert_eq!(four[2].to_bits(), f64::from(1e-45f32).to_bits());
    assert_eq!(four[3].to_bits(), f64::from(f32::MAX).to_bits());
}

#[test]
fn pairs_are_cast_without_scaling() {
    let v = Vec4::from_pair([640, 480]);
    assert_eq!(floats(&v), [640.0, 480.0, 0.0, 0.0]);
    assert_eq!(v.to_pair(), [640, 480]);
    let big = Vec4::from_pair([u32::MAX, 16_777_217]);
    assert_eq!(floats(&big), [4294967296.0, 16777216.0, 0.0, 0.0]);
    assert_eq!(big.to_pair(), [u32::MAX, 16_777_216]);
}

#[test]
fn pairs_truncate_and_never_fail() {
    let v = Vec4::from_single4([s(2.99), s(-7.0), s(0.0), s(0.0)]);
    assert_eq!(v.to_pair(), [2, 0]);
    let w = Vec4::from_single2([s(f32::NAN), s(f32::INFINITY)]);
    assert_eq!(w.to_pair(), [0, u32::MAX]);
}

#[test]
fn white_round_trips_exactly() {
    let v = Vec4::from_color([255, 255, 255, 255]);
    assert_eq!(floats(&v), [1.0, 1.0, 1.0, 1.0]);
    assert_eq!(v.to_color(), [255, 255, 255, 255]);
}

#[test]
fn black_round_trips_exactly() {
    let v = Vec4::from_color([0, 0, 0, 0]);
    assert_eq!(bits(&v), [0, 0, 0, 0]);
    assert_eq!(v.to_color(), [0, 0, 0, 0]);
}

#[test]
fn colours_are_scaled_by_255() {
    let v = Vec4::from_color([0, 51, 128, 255]);
    assert_eq!(floats(&v), [0.0, 51.0 / 255.0, 128.0 / 255.0, 1.0]);
    assert_eq!(floats(&v)[1], 0.2);
    let c = Vec4::from_single4([s(0.5), s(0.999), s(1.5), s(-0.5)]).to_color();
    assert_eq!(c, [127, 254, 255, 0]);
}

#[test]
fn colours_come_back_within_one() {
    for c in 0..=255u8 {
        let back = Vec4::from_color([c, 255 - c, c / 2, 255]).to_color();
        let sent = [c, 255 - c, c / 2, 255];
        for i in 0..4 {
            assert!(back[i] == sent[i] || back[i] + 1 == sent[i]);
            let native = ((f32::from(sent[i]) / 255.0) * 255.0) as u8;
            assert_eq!(back[i], native);
        }
    }
}

#[test]
fn widen_chooses_by_shape() {
    let spatial = Vec4::widen(Native::Pair([1, 2]));
    assert_eq!(floats(&spatial), [1.0, 2.0, 0.0, 0.0]);
    let colour = Vec4::widen(Native::Color([255, 0, 255, 0]));
    assert_eq!(floats(&colour), [1.0, 0.0, 1.0, 0.0]);
    assert_eq!(floats(&Vec4::widen(Native::Single2([s(3.0), s(4.0)]))), [3.0, 4.0, 0.0, 0.0]);
    assert_eq!(
        floats(&Vec4::widen(Native::Single3([s(3.0), s(4.0), s(5.0)]))),
        [3.0, 4.0, 5.0, 0.0]
    );
    assert_eq!(
        floats(&Vec4::widen(Native::Single4([s(3.0), s(4.0), s(5.0), s(6.0)]))),
        [3.0, 4.0, 5.0, 6.0]
    );
    assert_eq!(floats(&Vec4::widen(Native::Double2([d(3.0), d(4.0)]))), [3.0, 4.0, 0.0, 0.0]);
    assert_eq!(
        floats(&Vec4::widen(Native::Double3([d(3.0), d(4.0), d(5.0)]))),
        [3.0, 4.0, 5.0, 0.0]
    );
    assert_eq!(
        floats(&Vec4::widen(Native::Double4([d(3.0), d(4.0), d(5.0), d(6.0)]))),
        [3.0, 4.0, 5.0, 6.0]
    );
}

#[test]
fn narrow_gives_the_shape_asked_for() {
    let v = Vec4::from_single4([s(1.0), s(0.5), s(0.25), s(0.0)]);
    let shapes = [
        Shape::Single2,
        Shape::Single3,
        Shape::Single4,
        Shape::Double2,
        Shape::Double3,
        Shape::Double4,
        Shape::Pair,
        Shape::Color,
    ];
    for shape in shapes {
        assert_eq!(v.narrow(shape).shape(), shape);
    }
    match v.narrow(Shape::Color) {
        Native::Color(c) => assert_eq!(c, [255, 127, 63, 0]),
        _ => panic!("not a colour"),
    }
    match v.narrow(Shape::Pair) {
        Native::Pair(p) => assert_eq!(p, [1, 0]),
        _ => panic!("not a pair"),
    }
    match v.narrow(Shape::Double3) {
        Native::Double3(c) => assert_eq!(
            [c[0].to_bits(), c[1].to_bits(), c[2].to_bits()],
            [1.0f64.to_bits(), 0.5f64.to_bits(), 0.25f64.to_bits()]
        ),
        _ => panic!("not three binary64"),
    }
    match v.narrow(Shape::Single2) {
        Native::Single2(c) => assert_eq!([c[0].to_bits(), c[1].to_bits()], [0x3f80_0000, 0x3f00_0000]),
        _ => panic!("not two binary32"),
    }
}
