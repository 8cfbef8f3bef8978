use raytracer::Scalar;

fn s(x: f32) -> Scalar {
    Scalar::from_bits(x.to_bits())
}

fn same(got: Scalar, want: f32) -> bool {
    if want.is_nan() {
        got.is_nan()
    } else {
        got.to_bits() == want.to_bits()
    }
}

fn samples() -> Vec<f32> {
    let mut v: Vec<f32> = vec![
        0.0,
        -0.0,
        1.0,
        -1.0,
        2.0,
        0.5,
        0.1,
        0.3,
        -0.7,
        3.0,
        5.0,
        10.0,
        11.0,
        12.0,
        1.0e-45,
        -1.0e-45,
        1.0e-40,
        1.1754942e-38,
        1.1754944e-38,
        2.3509887e-38,
        3.4028235e38,
        -3.4028235e38,
        1.7014117e38,
        16777216.0,
        16777217.0,
        8388608.0,
        8388607.5,
        0.33333,
        f32::INFINITY,
        f32::NEG_INFINITY,
        f32::NAN,
        f32::EPSILON,
        1.0 + f32::EPSILON,
        1.0 - f32::EPSILON / 2.0,
    ];
    let mut state: u32 = 0x1234_5678;
    for _ in 0..400 {
        state = state.wrapping_mul(1664525).wrapping_add(1013904223);
        v.push(f32::from_bits(state));
    }
    v
}

fn next(state: &mut u64) -> u32 {
    *state = state.wrapping_mul(6364136223846793005).wrapping_add(1442695040888963407);
    (*state >> 32) as u32
}

#[test]
fn add_agrees_with_the_machine_on_sample_pairs() {
    let v = samples();
    for &a in &v {
        for &b in &v {
            assert!(same(s(a).add(s(b)), a + b), "{:?} + {:?}", a, b);
        }
    }
}

#[test]
fn sub_agrees_with_the_machine_on_sample_pairs() {
    let v = samples();
    for &a in &v {
        for &b in &v {
            assert!(same(s(a).sub(s(b)), a - b), "{:?} - {:?}", a, b);
        }
    }
}

#[test]
fn add_agrees_with_the_machine_on_close_exponents() {
    let mut state: u64 = 42;
    for _ in 0..200000 {
        let a = next(&mut state);
        let shift = next(&mut state) % 60;
        let exp_a = (a >> 23) & 0xff;
        let exp_b = if exp_a >= 30 { exp_a - 30 + shift } else { shift };
        let exp_b = if exp_b > 254 { 254 } else { exp_b };
        let b = (next(&mut state) & 0x807f_ffff) | (exp_b << 23);
        let x = f32::from_bits(a);
        let y = f32::from_bits(b);
        assert!(same(s(x).add(s(y)), x + y), "{:?} + {:?}", x, y);
        assert!(same(s(x).sub(s(y)), x - y), "{:?} - {:?}", x, y);
    }
}

#[test]
fn add_gives_exact_sums() {
    assert_eq!(s(1.0).add(s(2.0)).to_bits(), 3.0f32.to_bits());
    assert_eq!(s(0.5).add(s(0.25)).to_bits(), 0.75f32.to_bits());
    assert_eq!(s(-1.0).add(s(11.0)).to_bits(), 10.0f32.to_bits());
    assert_eq!(s(16777216.0).add(s(1.0)).to_bits(), 16777216.0f32.to_bits());
    assert_eq!(s(16777216.0).add(s(3.0)).to_bits(), 16777220.0f32.to_bits());
}

#[test]
fn add_of_opposites_is_positive_zero() {
    assert_eq!(s(1.5).add(s(-1.5)).to_bits(), 0);
    assert_eq!(s(-0.0).add(s(0.0)).to_bits(), 0);
    assert_eq!(s(-0.0).add(s(-0.0)).to_bits(), 0x8000_0000);
}

#[test]
fn add_overflows_to_infinity() {
    assert_eq!(s(3.4028235e38).add(s(3.4028235e38)).to_bits(), 0x7f80_0000);
    assert_eq!(s(-3.4028235e38).add(s(-3.4028235e38)).to_bits(), 0xff80_0000);
}

#[test]
fn add_of_opposite_infinities_is_the_quiet_nan() {
    assert_eq!(s(f32::INFINITY).add(s(f32::NEG_INFINITY)).to_bits(), 0x7fc0_0000);
    assert_eq!(s(f32::NAN).add(s(1.0)).to_bits(), 0x7fc0_0000);
    assert_eq!(s(f32::INFINITY).sub(s(f32::INFINITY)).to_bits(), 0x7fc0_0000);
}

#[test]
fn mul_agrees_with_the_machine_on_sample_pairs() {
    let v = samples();
    for &a in &v {
        for &b in &v {
            assert!(same(s(a).mul(s(b)), a * b), "{:?} * {:?}", a, b);
        }
    }
}

#[test]
fn div_agrees_with_the_machine_on_sample_pairs() {
    let v = samples();
    for &a in &v {
        for &b in &v {
            assert!(same(s(a).div(s(b)), a / b), "{:?} / {:?}", a, b);
        }
    }
}

#[test]
fn mul_and_div_agree_with_the_machine_on_random_pairs() {
    let mut state: u64 = 4242;
    for round in 0..200000 {
        let mut a = next(&mut state);
        let mut b = next(&mut state);
        if round % 4 == 1 {
            // Products and quotients near the least numbers.
            a = (a & 0x807f_ffff) | ((next(&mut state) % 40) << 23);
            b = (b & 0x807f_ffff) | ((100 + next(&mut state) % 60) << 23);
        } else if round % 4 == 2 {
            // Products and quotients near the greatest numbers.
            a = (a & 0x807f_ffff) | ((200 + next(&mut state) % 55) << 23);
            b = (b & 0x807f_ffff) | ((120 + next(&mut state) % 60) << 23);
        } else if round % 4 == 3 {
            // Few digits: exact results and ties.
            a &= 0xffff_0000;
            b &= 0xfff0_0000;
        }
        let x = f32::from_bits(a);
        let y = f32::from_bits(b);
        assert!(same(s(x).mul(s(y)), x * y), "{:?} * {:?}", x, y);
        assert!(same(s(x).div(s(y)), x / y), "{:?} / {:?}", x, y);
        assert!(same(s(y).div(s(x)), y / x), "{:?} / {:?}", y, x);
    }
}

#[test]
fn mul_gives_exact_products() {
    assert_eq!(s(3.0).mul(s(4.0)).to_bits(), 12.0f32.to_bits());
    assert_eq!(s(-0.5).mul(s(8.0)).to_bits(), (-4.0f32).to_bits());
    assert_eq!(s(0.33333).mul(s(3.0)).to_bits(), (0.33333f32 * 3.0).to_bits());
    assert_eq!(s(-0.0).mul(s(5.0)).to_bits(), 0x8000_0000);
    assert_eq!(s(-2.0).mul(s(-0.0)).to_bits(), 0);
    assert_eq!(s(f32::INFINITY).mul(s(0.0)).to_bits(), 0x7fc0_0000);
    assert_eq!(s(f32::INFINITY).mul(s(-2.0)).to_bits(), 0xff80_0000);
    assert_eq!(s(1.0e30).mul(s(1.0e30)).to_bits(), 0x7f80_0000);
    assert_eq!(s(1.0e-30).mul(s(1.0e-30)).to_bits(), 0);
}

#[test]
fn div_gives_exact_quotients() {
    assert_eq!(s(12.0).div(s(4.0)).to_bits(), 3.0f32.to_bits());
    assert_eq!(s(12.0).div(s(2.0)).to_bits(), 6.0f32.to_bits());
    assert_eq!(s(1.0).div(s(3.0)).to_bits(), 0x3eaa_aaab);
    assert_eq!(s(1.0).div(s(0.0)).to_bits(), 0x7f80_0000);
    assert_eq!(s(-1.0).div(s(0.0)).to_bits(), 0xff80_0000);
    assert_eq!(s(1.0).div(s(-0.0)).to_bits(), 0xff80_0000);
    assert_eq!(s(0.0).div(s(0.0)).to_bits(), 0x7fc0_0000);
    assert_eq!(s(f32::INFINITY).div(s(f32::INFINITY)).to_bits(), 0x7fc0_0000);
    assert_eq!(s(5.0).div(s(f32::NEG_INFINITY)).to_bits(), 0x8000_0000);
    assert_eq!(s(0.0).div(s(-7.0)).to_bits(), 0x8000_0000);
}

#[test]
fn div_by_two_rounds_ties_to_even() {
    let two = s(2.0);
    for bits in 0u32..5000 {
        let a = f32::from_bits(bits);
        assert!(same(s(a).div(two), a / 2.0), "{:?} / 2", a);
        let b = f32::from_bits(bits + 0x007f_f000);
        assert!(same(s(b).div(two), b / 2.0), "{:?} / 2", b);
    }
    assert_eq!(Scalar::from_bits(1).div(two).to_bits(), 0);
    assert_eq!(Scalar::from_bits(3).div(two).to_bits(), 2);
    assert_eq!(Scalar::from_bits(5).div(two).to_bits(), 2);
    assert_eq!(Scalar::from_bits(0x8000_0001).div(two).to_bits(), 0x8000_0000);
}

#[test]
fn from_usize_agrees_with_the_machine() {
    let mut values: Vec<usize> = vec![
        0,
        1,
        2,
        3,
        4,
        7,
        17,
        255,
        256,
        16777215,
        16777216,
        16777217,
        16777218,
        16777219,
        33554431,
        33554433,
        4294967295,
        usize::MAX,
        usize::MAX - 1,
        usize::MAX / 2,
        usize::MAX / 2 + 1,
    ];
    let mut state: u64 = 7;
    for _ in 0..20000 {
        let hi = next(&mut state) as u64;
        let lo = next(&mut state) as u64;
        let shift = next(&mut state) % 64;
        values.push((((hi << 32) | lo) >> shift) as usize);
    }
    for n in values {
        assert_eq!(Scalar::from_usize(n).to_bits(), (n as f32).to_bits(), "{}", n);
    }
}

#[test]
fn from_i32_agrees_with_the_machine() {
    let mut values: Vec<i32> =
        vec![0, 1, -1, 2, -2, 16777216, 16777217, -16777217, i32::MAX, i32::MIN, i32::MIN + 1];
    let mut state: u64 = 9;
    for _ in 0..20000 {
        let shift = next(&mut state) % 32;
        values.push((next(&mut state) as i32) >> shift);
    }
    for n in values {
        assert_eq!(Scalar::from_i32(n).to_bits(), (n as f32).to_bits(), "{}", n);
    }
}

#[test]
fn from_usize_rounds_ties_to_even() {
    assert_eq!(Scalar::from_usize(16777217).to_bits(), 0x4b80_0000);
    assert_eq!(Scalar::from_usize(16777219).to_bits(), 0x4b80_0002);
    assert_eq!(Scalar::from_usize(3).to_bits(), 0x4040_0000);
}

#[test]
fn comparisons_agree_with_the_machine() {
    let v = samples();
    for &a in &v {
        for &b in &v {
            assert_eq!(s(a).lt(s(b)), a < b, "{:?} < {:?}", a, b);
            assert_eq!(s(a).le(s(b)), a <= b, "{:?} <= {:?}", a, b);
            assert_eq!(s(a).gt(s(b)), a > b, "{:?} > {:?}", a, b);
            assert_eq!(s(a).ge(s(b)), a >= b, "{:?} >= {:?}", a, b);
        }
    }
}

#[test]
fn min_and_max_agree_with_the_machine() {
    let v = samples();
    for &a in &v {
        for &b in &v {
            let lo = f32::from_bits(s(a).min(s(b)).to_bits());
            let hi = f32::from_bits(s(a).max(s(b)).to_bits());
            if a.is_nan() && b.is_nan() {
                assert!(lo.is_nan() && hi.is_nan());
            } else {
                assert!(lo == a.min(b), "min {:?} {:?}", a, b);
                assert!(hi == a.max(b), "max {:?} {:?}", a, b);
            }
        }
    }
}

#[test]
fn min_and_max_let_a_nan_give_way() {
    assert_eq!(s(f32::NAN).min(s(2.0)).to_bits(), 2.0f32.to_bits());
    assert_eq!(s(2.0).min(s(f32::NAN)).to_bits(), 2.0f32.to_bits());
    assert_eq!(s(f32::NAN).max(s(2.0)).to_bits(), 2.0f32.to_bits());
    assert_eq!(s(2.0).max(s(f32::NAN)).to_bits(), 2.0f32.to_bits());
    assert_eq!(s(f32::INFINITY).min(s(-3.0)).to_bits(), (-3.0f32).to_bits());
    assert_eq!(s(f32::NEG_INFINITY).max(s(-3.0)).to_bits(), (-3.0f32).to_bits());
}

#[test]
fn neg_flips_the_sign_bit() {
    assert_eq!(s(1.0).neg().to_bits(), (-1.0f32).to_bits());
    assert_eq!(s(-0.0).neg().to_bits(), 0);
    assert_eq!(s(f32::INFINITY).neg().to_bits(), f32::NEG_INFINITY.to_bits());
}

#[test]
fn classification_agrees_with_the_machine() {
    for &a in &samples() {
        assert_eq!(s(a).is_nan(), a.is_nan());
        assert_eq!(s(a).is_infinite(), a.is_infinite());
        assert_eq!(s(a).is_finite(), a.is_finite());
    }
    assert_eq!(Scalar::zero().to_bits(), 0);
    assert_eq!(Scalar::infinity().to_bits(), f32::INFINITY.to_bits());
    assert_eq!(Scalar::neg_infinity().to_bits(), f32::NEG_INFINITY.to_bits());
}

#[test]
fn sqrt_agrees_with_the_machine() {
    for &a in &samples() {
        assert!(same(s(a).sqrt(), a.sqrt()), "sqrt {:?}", a);
    }
    let mut state: u64 = 99;
    for _ in 0..200000 {
        let a = f32::from_bits(next(&mut state) & 0x7fff_ffff);
        assert!(same(s(a).sqrt(), a.sqrt()), "sqrt {:?}", a);
    }
    for bits in 0u32..70000 {
        let a = f32::from_bits(bits);
        assert!(same(s(a).sqrt(), a.sqrt()), "sqrt {:?}", a);
        let b = f32::from_bits(0x7f7f_ffff - bits);
        assert!(same(s(b).sqrt(), b.sqrt()), "sqrt {:?}", b);
    }
}

#[test]
fn sqrt_of_squares_is_exact() {
    assert_eq!(s(4.0).sqrt().to_bits(), 2.0f32.to_bits());
    assert_eq!(s(9.0).sqrt().to_bits(), 3.0f32.to_bits());
    assert_eq!(s(0.25).sqrt().to_bits(), 0.5f32.to_bits());
    assert_eq!(s(2.0).sqrt().to_bits(), 0x3fb5_04f3);
    assert_eq!(s(0.0).sqrt().to_bits(), 0);
    assert_eq!(s(-0.0).sqrt().to_bits(), 0x8000_0000);
    assert_eq!(s(-1.0).sqrt().to_bits(), 0x7fc0_0000);
    assert_eq!(s(f32::NEG_INFINITY).sqrt().to_bits(), 0x7fc0_0000);
    assert_eq!(s(f32::INFINITY).sqrt().to_bits(), 0x7f80_0000);
}
