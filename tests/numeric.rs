use coin_broker::numeric::Numeric;

#[test]
fn product_adds_scales() {
    let p = Numeric::new(15, 1).checked_mul(&Numeric::new(225, 2)).unwrap();
    assert_eq!((p.mantissa, p.scale), (3375, 3));
    assert!(Numeric::new(i128::MAX, 0).checked_mul(&Numeric::new(2, 0)).is_none());
}

#[test]
fn difference_and_sum_align_scales() {
    let d = Numeric::from_int(10).checked_sub(&Numeric::new(25, 2)).unwrap();
    assert_eq!((d.mantissa, d.scale), (975, 2));
    let s = Numeric::new(5, 1).checked_add(&Numeric::new(-25, 2)).unwrap();
    assert_eq!((s.mantissa, s.scale), (25, 2));
    assert!(Numeric::new(i128::MAX, 0).checked_sub(&Numeric::new(1, 1)).is_none());
    assert!(Numeric::new(i128::MAX, 0).checked_add(&Numeric::from_int(1)).is_none());
}

#[test]
fn comparison_goes_by_value() {
    let one = Numeric::new(10, 1);
    let one_again = Numeric::new(100, 2);
    assert!(one.le(&one_again) && one_again.le(&one));
    assert!(!one.lt(&one_again));
    assert!(Numeric::new(5, 1).lt(&one));
    assert!(Numeric::new(-3, 0).lt(&Numeric::new(-29, 1)));
    // alignment that leaves i128 still compares by sign
    assert!(!Numeric::new(i128::MAX, 0).le(&Numeric::new(1, 56)));
    assert!(Numeric::new(i128::MIN, 0).le(&Numeric::new(-1, 56)));
    assert!(Numeric::new(1, 56).le(&Numeric::new(i128::MAX, 0)));
}

#[test]
fn sign_tests() {
    assert!(Numeric::new(1, 56).is_positive());
    assert!(!Numeric::zero().is_positive());
    assert!(!Numeric::zero().is_negative());
    assert!(Numeric::from_int(-1).is_negative());
}

#[test]
fn normalize_drops_trailing_zeros() {
    let n = Numeric::new(150000, 40).normalize();
    assert_eq!((n.mantissa, n.scale), (15, 36));
    let n = Numeric::new(-1200, 2).normalize();
    assert_eq!((n.mantissa, n.scale), (-12, 0));
    let n = Numeric::new(1000, 0).normalize();
    assert_eq!((n.mantissa, n.scale), (1000, 0));
    let z = Numeric::new(0, 30).normalize();
    assert_eq!((z.mantissa, z.scale), (0, 0));
}
