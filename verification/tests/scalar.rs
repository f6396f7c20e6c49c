use in1weekend::scalar::Scalar;

fn s(x: f32) -> Scalar {
    Scalar::from_bits(x.to_bits()).unwrap()
}

#[test]
fn scalars_are_ordered_as_numbers() {
    let values = [
        f32::NEG_INFINITY,
        -3.5e20,
        -2.0,
        -1.0,
        -1.0e-30,
        0.0,
        1.0e-40,
        0.0003,
        0.5,
        1.0,
        1.5,
        7.0e12,
        f32::INFINITY,
    ];
    for i in 0..values.len() {
        for j in 0..values.len() {
            assert_eq!(s(values[i]).lt(&s(values[j])), values[i] < values[j]);
            assert_eq!(s(values[i]).le(&s(values[j])), values[i] <= values[j]);
            assert_eq!(s(values[i]) == s(values[j]), values[i] == values[j]);
        }
    }
}

#[test]
fn nan_is_no_scalar() {
    assert!(Scalar::from_bits(f32::NAN.to_bits()).is_none());
    assert!(Scalar::from_bits(0x7f80_0001).is_none());
    assert!(Scalar::from_bits(0xffff_ffff).is_none());
    assert!(Scalar::from_bits(0x7f80_0000).is_some());
    assert!(Scalar::from_bits(0xff80_0000).is_some());
}

#[test]
fn both_zeros_are_one_scalar() {
    assert_eq!(s(-0.0), s(0.0));
    assert_eq!(s(-0.0), Scalar::zero());
    assert_eq!(s(-0.0).to_bits(), 0);
}

#[test]
fn bits_come_back() {
    for x in [1.0f32, -1.0, 0.0003, -123.456, 3.0e38, -1.0e-45, f32::INFINITY, f32::NEG_INFINITY] {
        assert_eq!(s(x).to_bits(), x.to_bits());
        assert_eq!(f32::from_bits(s(x).to_bits()), x);
    }
}

#[test]
fn keys_of_known_numbers() {
    assert_eq!(s(0.0).key, 0x8000_0000);
    assert_eq!(s(1.0).key, 0xbf80_0000);
    assert_eq!(s(-1.0).key, 0x4080_0000);
    assert_eq!(s(0.0003).key, 0xb99d_4952);
}

#[test]
fn signs() {
    assert!(s(0.25).is_positive());
    assert!(!s(0.0).is_positive());
    assert!(!s(-0.25).is_positive());
    assert!(s(-0.25).is_negative());
    assert!(!s(0.0).is_negative());
    assert!(!s(-0.0).is_negative());
}

#[test]
fn min_and_max() {
    assert_eq!(s(2.0).min(s(-3.0)), s(-3.0));
    assert_eq!(s(2.0).max(s(-3.0)), s(2.0));
    assert_eq!(s(2.0).min(s(2.0)), s(2.0));
}

#[test]
fn clamp_keeps_a_scalar_in_its_range() {
    assert_eq!(Scalar::one(), s(1.0));
    assert_eq!(s(0.3).clamp(s(0.0), s(1.0)), s(0.3));
    assert_eq!(s(-2.0).clamp(s(0.0), s(1.0)), s(0.0));
    assert_eq!(s(2.0).clamp(s(0.0), s(1.0)), s(1.0));
    assert_eq!(s(1.0).clamp(s(0.0), s(1.0)), s(1.0));
}

#[test]
fn fixed_counts_in_steps_of_two_to_the_minus_forty() {
    let step = (1u128 << 40) as i128;
    assert_eq!(s(0.0).fixed(), 0);
    assert_eq!(s(1.0).fixed(), step);
    assert_eq!(s(-1.0).fixed(), -step);
    assert_eq!(s(0.5).fixed(), step / 2);
    assert_eq!(s(3.0).fixed(), 3 * step);
    assert_eq!(s(-1010.0).fixed(), -1010 * step);
    assert_eq!(s(0.75).fixed() - s(0.25).fixed(), step / 2);
    assert_eq!(s(1.0e-20).fixed(), 0);
    assert_eq!(s(2.0f32.powi(-40)).fixed(), 1);
    assert_eq!(s(2.0f32.powi(79)).fixed(), 1i128 << 119);
    assert_eq!(s(2.0f32.powi(80)).fixed(), 1i128 << 120);
    assert_eq!(s(f32::MAX).fixed(), 1i128 << 120);
    assert_eq!(s(f32::NEG_INFINITY).fixed(), -(1i128 << 120));
}

#[test]
fn fixed_grows_with_the_number() {
    let values = [-1.0e30f32, -70000.5, -1.0, -1.0e-9, 0.0, 3.0e-13, 0.1, 0.3, 2.5, 1.0e12, 1.0e25];
    for pair in values.windows(2) {
        assert!(s(pair[0]).fixed() <= s(pair[1]).fixed());
    }
    for x in [0.1f32, 17.25, 1234.5678, 1.0e9] {
        let expected = (x as f64 * (1u64 << 40) as f64) as i128;
        assert_eq!(s(x).fixed(), expected);
        assert_eq!(s(-x).fixed(), -expected);
    }
}
