use minecraft_afk_bot::datatypes::{Double, Float};

fn singles() -> Vec<f32> {
    vec![
        0.0,
        -0.0,
        1.0,
        -1.0,
        6.0,
        5.999,
        6.001,
        10.0,
        20.0,
        0.5,
        f32::MIN_POSITIVE,
        -f32::MIN_POSITIVE,
        1.0e-45,
        -1.0e-45,
        f32::MAX,
        f32::MIN,
        f32::INFINITY,
        f32::NEG_INFINITY,
        f32::NAN,
        -f32::NAN,
        f32::from_bits(0x7f80_0001),
        f32::from_bits(0xffff_ffff),
    ]
}

fn doubles() -> Vec<f64> {
    vec![
        0.0,
        -0.0,
        1.0,
        -1.0,
        15.999999999,
        16.0,
        16.000000001,
        3.5,
        1.0e300,
        -1.0e300,
        f64::MIN_POSITIVE,
        5.0e-324,
        -5.0e-324,
        f64::MAX,
        f64::MIN,
        f64::INFINITY,
        f64::NEG_INFINITY,
        f64::NAN,
        -f64::NAN,
        f64::from_bits(0x7ff0_0000_0000_0001),
    ]
}

#[test]
fn single_order_is_the_order_of_the_numbers() {
    for a in singles() {
        for b in singles() {
            assert_eq!(
                Float(a.to_bits()).lt(Float(b.to_bits())),
                a < b,
                "{} < {}",
                a,
                b
            );
        }
    }
}

#[test]
fn single_zero_and_nan() {
    for a in singles() {
        assert_eq!(Float(a.to_bits()).is_zero(), a == 0.0, "{}", a);
        assert_eq!(Float(a.to_bits()).is_nan(), a.is_nan(), "{}", a);
    }
}

#[test]
fn double_order_is_the_order_of_the_numbers() {
    for a in doubles() {
        for b in doubles() {
            let x = Double(a.to_bits());
            let y = Double(b.to_bits());
            assert_eq!(x.lt(y), a < b, "{} < {}", a, b);
            assert_eq!(x.ge(y), a >= b, "{} >= {}", a, b);
        }
        assert_eq!(Double(a.to_bits()).is_nan(), a.is_nan());
    }
}

#[test]
fn sixteen_is_the_reach() {
    assert_eq!(minecraft_afk_bot::bot::REACH_SQUARED, 16.0f64.to_bits());
}

#[test]
fn integer_to_single_exact_values() {
    assert_eq!(Float::from_int(0), Float(0));
    assert_eq!(Float::from_int(1), Float(0x3f80_0000));
    assert_eq!(Float::from_int(-1), Float(0xbf80_0000));
    assert_eq!(Float::from_int(20), Float(0x41a0_0000));
    assert_eq!(Float::from_int(16_777_216), Float(0x4b80_0000));
    // a tie goes to the even neighbour
    assert_eq!(Float::from_int(16_777_217), Float(0x4b80_0000));
    assert_eq!(Float::from_int(16_777_219), Float(0x4b80_0002));
    assert_eq!(Float::from_int(i64::MAX), Float(0x5f00_0000));
    assert_eq!(Float::from_int(i64::MIN), Float(0xdf00_0000));
}

#[test]
fn integer_to_single_is_the_conversion() {
    let mut samples: Vec<i64> = vec![i64::MAX, i64::MIN, i64::MAX - 1, i64::MIN + 1];
    for n in -300i64..300 {
        samples.push(n);
    }
    for shift in 0..63 {
        let p = 1i64 << shift;
        for d in [-3i64, -2, -1, 0, 1, 2, 3] {
            samples.push(p.wrapping_add(d));
            samples.push((-p).wrapping_add(d));
            samples.push(p.wrapping_add(p >> 1).wrapping_add(d));
            samples.push(p.wrapping_add(p >> 24).wrapping_add(d));
            samples.push(p.wrapping_add(p >> 25).wrapping_add(d));
            samples.push(p.wrapping_mul(3).wrapping_add(d));
        }
    }
    let mut x: u64 = 0x9e37_79b9_7f4a_7c15;
    for _ in 0..20000 {
        x ^= x << 13;
        x ^= x >> 7;
        x ^= x << 17;
        let n = x as i64;
        samples.push(n);
        samples.push(n >> 20);
        samples.push(n >> 37);
    }
    for n in samples {
        assert_eq!(Float::from_int(n), Float((n as f32).to_bits()), "{}", n);
    }
}

#[test]
fn small_integers_keep_their_order() {
    let samples = [
        -16_777_216i64,
        -16_777_215,
        -65536,
        -21,
        -20,
        -1,
        0,
        1,
        2,
        3,
        9,
        10,
        11,
        19,
        20,
        255,
        256,
        8_388_607,
        8_388_608,
        16_777_215,
        16_777_216,
    ];
    for a in samples {
        for b in samples {
            assert_eq!(Float::from_int(a).lt(Float::from_int(b)), a < b, "{} < {}", a, b);
        }
    }
}
