use skillopt::single::Single;

fn m(x: f32) -> Single {
    Single { bits: x.to_bits() }
}

/// Both are the same number, or neither is one.
fn same(got: Single, expected: f32) -> bool {
    let got = f32::from_bits(got.bits);
    got.to_bits() == expected.to_bits() || got.is_nan() && expected.is_nan()
}

/// Numbers of all kinds: special ones, and some of every size.
fn numbers() -> Vec<f32> {
    let mut all = vec![
        0.0, -0.0, 1.0, -1.0, 0.5, 2.0, 3.0, 0.1, 1.0 / 3.0, 1e-4, 1.5, 16_777_216.0, 16_777_215.0, 33_554_434.0,
        f32::MAX, f32::MIN, f32::MIN_POSITIVE, 1e-45, -1e-45, 1.1754942e-38, f32::INFINITY, f32::NEG_INFINITY, f32::NAN,
        f32::EPSILON, 1.0 + f32::EPSILON, 0.99999994,
    ];
    let mut x = 1u32;
    for _ in 0..200 {
        x = x.wrapping_mul(1_664_525).wrapping_add(1_013_904_223);
        all.push(f32::from_bits(x));
        all.push(x as f32 / 4_294_967_296.0);
        all.push((x >> 20) as f32);
    }
    all
}

#[test]
fn arithmetic_is_that_of_std() {
    let all = numbers();
    for a in &all {
        for b in &all {
            assert!(same(m(*a).plus(m(*b)), a + b), "{:e} + {:e}", a, b);
            assert!(same(m(*a).minus(m(*b)), a - b), "{:e} - {:e}", a, b);
            assert!(same(m(*a).times(m(*b)), a * b), "{:e} * {:e}", a, b);
            assert!(same(m(*a).over(m(*b)), a / b), "{:e} / {:e}", a, b);
            assert_eq!(m(*a).is_less(m(*b)), a < b, "{:e} < {:e}", a, b);
            assert_eq!(m(*a).is_at_most(m(*b)), a <= b, "{:e} <= {:e}", a, b);
        }
    }
}

#[test]
fn sums_of_neighbours_are_those_of_std() {
    let mut x = 7u32;
    for _ in 0..20_000 {
        x = x.wrapping_mul(1_664_525).wrapping_add(1_013_904_223);
        let a = f32::from_bits(x);
        for shift in [0u32, 1, 23, 24, 25, 26] {
            let b = f32::from_bits((x ^ 0x8000_0000).wrapping_sub(shift << 23).wrapping_add(shift));
            assert!(same(m(a).plus(m(b)), a + b), "{:e} + {:e}", a, b);
        }
    }
}

#[test]
fn counts_are_those_of_std() {
    for n in [0u64, 1, 2, 16_777_215, 16_777_216, 16_777_217, 16_777_219, 33_554_433, 33_554_435, 4_294_967_295, 1 << 53, u64::MAX] {
        assert!(same(Single::count(n), n as f32), "{}", n);
    }
}

#[test]
fn roots_are_those_of_std() {
    for n in (0..3000u64).chain([65_535, 65_536, 16_777_216, 16_777_218, 4_294_967_040, 4_294_967_296]) {
        assert!(same(Single::root(n), (n as f32).sqrt()), "{}", n);
    }
    let mut x = 3u32;
    for _ in 0..3000 {
        x = x.wrapping_mul(1_664_525).wrapping_add(1_013_904_223);
        let n = x as f32;
        assert!(same(Single::root(n as u64), n.sqrt()), "{}", n);
    }
}

#[test]
fn whole_numbers_are_those_of_std() {
    for x in numbers() {
        if x.is_finite() && x >= 0.0 {
            assert_eq!(m(x).whole(), x.trunc() as u128, "{}", x);
            assert_eq!(m(x).nearest_whole(), x.round() as u128, "{}", x);
            assert_eq!(m(x).raised(), x.ceil() as u128, "{}", x);
        }
    }
    assert_eq!(m(2.5).nearest_whole(), 3);
    assert_eq!(m(0.49999997).nearest_whole(), 0);
}
