use proxima::metric::{distance_bits, distance_key};

fn key(x: f32) -> u32 {
    distance_key(x.to_bits())
}

#[test]
fn keys_order_like_the_floats() {
    let xs = [
        f32::NEG_INFINITY,
        -3.5,
        -1.0,
        -1e-30,
        0.0,
        1e-30,
        0.5,
        1.0,
        2.0,
        1e30,
        f32::INFINITY,
    ];
    for w in xs.windows(2) {
        assert!(key(w[0]) < key(w[1]), "{} vs {}", w[0], w[1]);
    }
}

#[test]
fn negative_zero_sits_just_below_positive_zero() {
    assert_eq!(key(0.0), 0x7f80_0001);
    assert_eq!(key(-0.0), 0x7f80_0000);
}

#[test]
fn key_values_are_exact() {
    assert_eq!(key(1.0), 0x7f80_0001 + 0x3f80_0000);
    assert_eq!(key(-1.0), 0x7f80_0000 - 0x3f80_0000);
    assert_eq!(key(5.0), 0x7f80_0001 + 0x40a0_0000);
    assert_eq!(key(f32::NEG_INFINITY), 0);
    assert_eq!(key(f32::INFINITY), 0xff00_0001);
}

#[test]
fn bits_roundtrip_through_keys() {
    for x in [0.0f32, -0.0, 1.0, -2.5, 3.25e7, f32::MAX, f32::MIN, f32::INFINITY] {
        assert_eq!(f32::from_bits(distance_bits(key(x))), x);
        assert_eq!(distance_bits(key(x)), x.to_bits());
    }
    for k in [0u32, 1, 0x7f80_0000, 0x7f80_0001, 0xff80_0000, 0xff80_0001, 0xffff_ffff, 12345678] {
        assert_eq!(distance_key(distance_bits(k)), k);
    }
}

#[test]
fn every_nan_sorts_after_infinity() {
    let inf = key(f32::INFINITY);
    let pos_nan = f32::from_bits(0x7fc0_0000);
    let neg_nan = f32::from_bits(0xffc0_0000);
    assert!(key(pos_nan) > inf);
    assert!(key(neg_nan) > inf);
    assert!(key(f32::NAN) > inf);
    assert!(key(-f32::NAN) > inf);
    assert!(key(f32::from_bits(0xff80_0001)) > inf);
    assert!(key(f32::from_bits(0x7f80_0001)) > inf);
}
