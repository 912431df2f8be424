use diffusion_solver::single::{clamp, clamp_unit, eq, finite, lt, max, nan, INFINITY, ONE, SIGN, ZERO};

fn patterns() -> Vec<u32> {
    let mut v = vec![
        0u32,
        1,
        SIGN,
        SIGN + 1,
        ONE,
        ONE | SIGN,
        INFINITY,
        INFINITY | SIGN,
        INFINITY + 1,
        (INFINITY + 1) | SIGN,
        0x7FC0_0000,
        0xFFC0_0000,
        0x7FFF_FFFF,
        0xFFFF_FFFF,
        0x0080_0000,
        0x007F_FFFF,
        0x3F00_0000,
        0xBF00_0000,
        0x3F80_0001,
        0x3F7F_FFFF,
    ];
    let mut x: u32 = 0x1234_5678;
    for _ in 0..400 {
        x ^= x << 13;
        x ^= x >> 17;
        x ^= x << 5;
        v.push(x);
    }
    v
}

#[test]
fn order_constants_are_the_encodings_of_their_numbers() {
    assert_eq!(ZERO, 0.0f32.to_bits());
    assert_eq!(ONE, 1.0f32.to_bits());
    assert_eq!(INFINITY, f32::INFINITY.to_bits());
    assert_eq!(SIGN, (-0.0f32).to_bits());
}

#[test]
fn nan_agrees_with_the_machine() {
    for b in patterns() {
        assert_eq!(nan(b), f32::from_bits(b).is_nan(), "{b:#x}");
    }
}

#[test]
fn lt_and_eq_agree_with_the_machine() {
    let p = patterns();
    for &a in &p {
        for &b in &p {
            let (x, y) = (f32::from_bits(a), f32::from_bits(b));
            assert_eq!(lt(a, b), x < y, "{a:#x} < {b:#x}");
            assert_eq!(eq(a, b), x == y, "{a:#x} == {b:#x}");
        }
    }
}

#[test]
fn clamp_agrees_with_the_machine() {
    let lo = 0.05f32;
    let hi = 0.99f32;
    for b in patterns() {
        let x = f32::from_bits(b);
        assert_eq!(clamp_unit(b), x.clamp(0.0, 1.0).to_bits(), "{b:#x}");
        assert_eq!(clamp(b, lo.to_bits(), hi.to_bits()), x.clamp(lo, hi).to_bits(), "{b:#x}");
    }
}

#[test]
fn clamp_unit_edge_cases() {
    assert_eq!(clamp_unit((-3.0f32).to_bits()), ZERO);
    assert_eq!(clamp_unit(7.5f32.to_bits()), ONE);
    assert_eq!(clamp_unit(INFINITY), ONE);
    assert_eq!(clamp_unit(INFINITY | SIGN), ZERO);
    assert_eq!(clamp_unit(0.25f32.to_bits()), 0.25f32.to_bits());
    assert_eq!(clamp_unit(SIGN), SIGN);
    assert!(f32::from_bits(clamp_unit(f32::NAN.to_bits())).is_nan());
}

#[test]
fn max_agrees_with_the_machine_off_ties() {
    let p = patterns();
    for &a in &p {
        for &b in &p {
            let (x, y) = (f32::from_bits(a), f32::from_bits(b));
            let m = f32::from_bits(max(a, b));
            if x.is_nan() && y.is_nan() {
                assert!(m.is_nan());
            } else if x == y {
                assert!(m == x);
            } else {
                assert_eq!(max(a, b), x.max(y).to_bits(), "max({a:#x}, {b:#x})");
            }
        }
    }
}

#[test]
fn a_sweep_over_the_encodings_agrees_with_the_machine() {
    let mut b: u32 = 0;
    let mut previous: u32 = 0x7F7F_FFFF;
    loop {
        let x = f32::from_bits(b);
        let p = f32::from_bits(previous);
        assert_eq!(nan(b), x.is_nan());
        assert_eq!(clamp_unit(b), x.clamp(0.0, 1.0).to_bits());
        assert_eq!(lt(b, previous), x < p);
        assert_eq!(lt(previous, b), p < x);
        assert_eq!(eq(b, previous), x == p);
        assert_eq!(lt(b, ONE), x < 1.0);
        assert_eq!(lt(ZERO, b), 0.0 < x);
        previous = b;
        match b.checked_add(4099) {
            Some(next) => b = next,
            None => break,
        }
    }
}

#[test]
fn order_follows_the_numbers_across_the_sign() {
    let ascending = [
        f32::NEG_INFINITY,
        -3.0e38,
        -1.0,
        -1.0e-40,
        0.0,
        1.0e-45,
        1.0e-40,
        0.5,
        1.0,
        3.0e38,
        f32::INFINITY,
    ];
    for i in 0..ascending.len() {
        for j in 0..ascending.len() {
            let (a, b) = (ascending[i].to_bits(), ascending[j].to_bits());
            assert_eq!(lt(a, b), i < j);
            assert_eq!(eq(a, b), i == j);
            assert_eq!(max(a, b), ascending[i.max(j)].to_bits());
        }
    }
    assert!(eq(ZERO, SIGN) && !lt(ZERO, SIGN) && !lt(SIGN, ZERO));
}

#[test]
fn finite_agrees_with_the_machine() {
    for b in patterns() {
        assert_eq!(finite(b), f32::from_bits(b).is_finite(), "{b:#x}");
    }
    assert!(finite(ZERO) && finite(SIGN) && finite(ONE) && finite(0x7F7F_FFFF));
    assert!(!finite(INFINITY) && !finite(INFINITY | SIGN) && !finite(0x7FC0_0000));
}
