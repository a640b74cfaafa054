use polyregres::rational::Rational;

fn bits(r: &Rational) -> (i128, i128) {
    (r.numerator(), r.denominator())
}

#[test]
fn from_int_holds_value() {
    let r = Rational::from_int(7);
    assert_eq!(bits(&r), (7, 1));
}

#[test]
fn add_is_exact() {
    let a = Rational::new(1, 2);
    let b = Rational::new(1, 3);
    let s = a.add(b).unwrap();
    assert_eq!(s.eq_value(&Rational::new(5, 6)), Some(true));
    assert_eq!(bits(&s), (5, 6));
}

#[test]
fn sub_is_exact() {
    let a = Rational::new(1, 2);
    let b = Rational::new(1, 3);
    let d = a.sub(b).unwrap();
    assert_eq!(d.eq_value(&Rational::new(1, 6)), Some(true));
}

#[test]
fn mul_is_exact() {
    let a = Rational::new(2, 3);
    let b = Rational::new(9, 4);
    let p = a.mul(b).unwrap();
    assert_eq!(p.eq_value(&Rational::new(3, 2)), Some(true));
}

#[test]
fn div_keeps_denominator_positive() {
    let a = Rational::new(1, 2);
    let b = Rational::new(-1, 3);
    let q = a.div(b).unwrap();
    assert!(q.denominator() > 0);
    assert_eq!(q.eq_value(&Rational::new(-3, 2)), Some(true));
}

#[test]
fn eq_value_sees_through_representations() {
    let a = Rational::new(2, 4);
    let b = Rational::new(1, 2);
    assert_eq!(a.eq_value(&b), Some(true));
    assert_eq!(a.eq_value(&Rational::new(2, 3)), Some(false));
}

#[test]
fn add_reports_overflow() {
    let a = Rational::new(i128::MAX, 1);
    let b = Rational::new(1, 1);
    assert!(a.add(b).is_none());
}

#[test]
fn mul_reports_overflow() {
    let big: i128 = 1 << 80;
    let a = Rational::new(big, 1);
    assert!(a.mul(a).is_none());
}

#[test]
fn is_zero_tests_the_numerator() {
    assert!(Rational::new(0, 5).is_zero());
    assert!(!Rational::new(3, 5).is_zero());
}
