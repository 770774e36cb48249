use gugen::frac::Frac;

#[test]
fn checked_ops_detect_overflow() {
    let huge = Frac::new(i128::MAX, 1).unwrap();
    assert!(huge.checked_add(huge).is_err());
    assert!(huge.checked_mul(huge).is_err());
}

#[test]
fn reduces_to_lowest_terms() {
    let f = Frac::new(4, 8).unwrap();
    assert_eq!((f.numerator(), f.denominator()), (1, 2));
    let f = Frac::new(-4, 8).unwrap();
    assert_eq!((f.numerator(), f.denominator()), (-1, 2));
}

#[test]
fn arithmetic_is_exact() {
    let a = Frac::new(1, 3).unwrap();
    let b = Frac::new(1, 6).unwrap();
    let sum = a.checked_add(b).unwrap();
    assert_eq!((sum.numerator(), sum.denominator()), (1, 2));
}

#[test]
fn zero_denominator_is_an_error() {
    assert!(Frac::new(1, 0).is_err());
}

#[test]
fn negative_denominator_moves_the_sign_to_the_numerator() {
    let f = Frac::new(3, -6).unwrap();
    assert_eq!((f.numerator(), f.denominator()), (-1, 2));
    assert!(Frac::new(i128::MIN, -1).is_err());
}

#[test]
fn subtraction_multiplication_and_division_are_exact() {
    let a = Frac::new(3, 4).unwrap();
    let b = Frac::new(1, 6).unwrap();
    let d = a.checked_sub(b).unwrap();
    assert_eq!((d.numerator(), d.denominator()), (7, 12));
    let p = a.checked_mul(b).unwrap();
    assert_eq!((p.numerator(), p.denominator()), (1, 8));
    let q = a.checked_div(b).unwrap();
    assert_eq!((q.numerator(), q.denominator()), (9, 2));
    assert!(a.checked_div(Frac::zero()).is_err());
}

#[test]
fn negation_overflows_only_at_the_minimum() {
    let m = Frac::new(i128::MIN, 1).unwrap();
    assert!(m.checked_neg().is_err());
    let x = Frac::new(5, 7).unwrap().checked_neg().unwrap();
    assert_eq!((x.numerator(), x.denominator()), (-5, 7));
}
