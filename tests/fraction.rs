use exposure::{gcd, Fraction, FractionError};

#[test]
fn ordering_test() {
    let a = Fraction::new(1, 2);
    let b = Fraction::new(3, 4);
    let c = Fraction::new(4, 3);
    let d = Fraction::new(-1, 2);
    assert!(a < b);
    assert!(a <= b);
    assert!(c > b);
    assert!(c >= a);
    assert!(d < a);
}

#[test]
fn equality_test() {
    let a = Fraction::new(1, 2);
    let b = Fraction::new(2, 4);
    let c = Fraction::new(5, 5);
    assert!(a == b);
    assert!(a != c);
}

#[test]
fn arithmetic_test() {
    let a = Fraction::new(1, 2);
    let b = Fraction::new(3, 4);
    assert!(&a + &a == Fraction::new(1, 1));
    assert!(&a - &a == Fraction::new(0, 5));
    assert!(&a * &b == Fraction::new(3, 8));
    assert!(&a / &b == Fraction::new(4, 6));
}

#[test]
fn it_works() {
    let result = exposure::add(2, 2);
    assert_eq!(result, 4);
}

#[test]
fn new_moves_sign_to_numerator() {
    let f = Fraction::new(3, -4);
    assert_eq!(f.numerator(), -3);
    assert_eq!(f.denominator(), 4);
    let g = Fraction::new(-3, -4);
    assert_eq!(g.numerator(), 3);
    assert_eq!(g.denominator(), 4);
}

#[test]
fn new_does_not_reduce() {
    let f = Fraction::new(2, 4);
    assert_eq!(f.numerator(), 2);
    assert_eq!(f.denominator(), 4);
}

#[test]
fn try_new_rejects_zero_denominator() {
    for n in [0i64, 1, -1, 7, i64::MAX] {
        assert_eq!(Fraction::try_new(n, 0).err(), Some(FractionError::ZeroDenominator));
    }
    assert_eq!(Fraction::try_new(i64::MIN, 0).err(), Some(FractionError::ZeroDenominator));
}

#[test]
fn try_new_rejects_min_components() {
    assert_eq!(Fraction::try_new(i64::MIN, 3).err(), Some(FractionError::Overflow));
    assert_eq!(Fraction::try_new(3, i64::MIN).err(), Some(FractionError::Overflow));
    let f = Fraction::try_new(6, -8).unwrap();
    assert_eq!((f.numerator(), f.denominator()), (-6, 8));
}

#[test]
fn reduce_gives_lowest_terms() {
    let r = Fraction::new(-6, 8).reduce();
    assert_eq!((r.numerator(), r.denominator()), (-3, 4));
    let z = Fraction::new(0, -5).reduce();
    assert_eq!((z.numerator(), z.denominator()), (0, 1));
    let big = Fraction::new(i64::MAX, i64::MAX).reduce();
    assert_eq!((big.numerator(), big.denominator()), (1, 1));
    for (n, d) in [(12i64, 18i64), (-35, 10), (7, 13), (100, 1000)] {
        let r = Fraction::new(n, d).reduce();
        assert!(r.denominator() > 0);
        assert_eq!(gcd(r.numerator().abs(), r.denominator()), 1);
    }
}

#[test]
fn gcd_values() {
    assert_eq!(gcd(12, 18), 6);
    assert_eq!(gcd(0, 9), 9);
    assert_eq!(gcd(9, 0), 9);
    assert_eq!(gcd(0, 0), 0);
    assert_eq!(gcd(7, 7), 7);
    assert_eq!(gcd(17, 5), 1);
    assert_eq!(gcd(48, 180), 12);
    assert_eq!(gcd(1 << 40, 3 << 20), 1 << 20);
}

#[test]
fn equality_is_invariant_under_scaling() {
    for k in [1i64, -1, 3, -7] {
        assert!(Fraction::new(2, 3) == Fraction::new(2 * k, 3 * k));
        assert!(Fraction::new(-5, 4) == Fraction::new(-5 * k, 4 * k));
    }
    let a = Fraction::new(3, 9);
    let b = Fraction::new(1, 3);
    assert!(a == a);
    assert!(a == b && b == a);
}

#[test]
fn ordering_is_exact() {
    let a = Fraction::new(1, 3);
    let b = Fraction::new(2, 6);
    assert!(!(a < b) && !(a > b) && a <= b && a >= b);
    assert!(Fraction::new(-1, 2) < Fraction::new(-1, 3));
    assert!(Fraction::new(i64::MAX - 1, i64::MAX) < Fraction::new(i64::MAX, i64::MAX - 1));
}

#[test]
fn arithmetic_leaves_result_unreduced() {
    let a = Fraction::new(1, 2);
    let b = Fraction::new(3, 4);
    let s = &a + &b;
    assert_eq!((s.numerator(), s.denominator()), (10, 8));
    let d = &a - &b;
    assert_eq!((d.numerator(), d.denominator()), (-2, 8));
    let p = &a * &b;
    assert_eq!((p.numerator(), p.denominator()), (3, 8));
    let q = &a / &Fraction::new(-3, 4);
    assert_eq!((q.numerator(), q.denominator()), (-4, 6));
}

#[test]
fn to_string_renders_reduced_form() {
    assert_eq!(Fraction::new(2, 4).to_string(), "1/2");
    assert_eq!(Fraction::new(6, -8).to_string(), "-3/4");
    assert_eq!(Fraction::new(0, 7).to_string(), "0/1");
    assert_eq!(Fraction::new(9, 1).to_string(), "9/1");
    assert_eq!(Fraction::new(i64::MAX, 1).to_string(), "9223372036854775807/1");
    assert_eq!(Fraction::new(-i64::MAX, 10).to_string(), "-9223372036854775807/10");
}

#[test]
fn from_str_accepts_integer_pairs() {
    let f = Fraction::from_str("3/4").unwrap();
    assert_eq!((f.numerator(), f.denominator()), (3, 4));
    let g = Fraction::from_str("-6/8").unwrap();
    assert_eq!((g.numerator(), g.denominator()), (-6, 8));
    let h = Fraction::from_str("+5/-10").unwrap();
    assert_eq!((h.numerator(), h.denominator()), (-5, 10));
    let m = Fraction::from_str("9223372036854775807/007").unwrap();
    assert_eq!((m.numerator(), m.denominator()), (i64::MAX, 7));
}

#[test]
fn from_str_rejects_malformed_text() {
    for s in ["", "3", "3/", "/4", "3/4/5", "a/4", "3/b", " 3/4", "3 /4", "-/4", "3/+", "9223372036854775808/1", "1/99999999999999999999"] {
        assert_eq!(Fraction::from_str(s).err(), Some(FractionError::MalformedText), "{}", s);
    }
}

#[test]
fn from_str_rejects_zero_denominator_and_min() {
    assert_eq!(Fraction::from_str("3/0").err(), Some(FractionError::ZeroDenominator));
    assert_eq!(Fraction::from_str("3/-0").err(), Some(FractionError::ZeroDenominator));
    assert_eq!(Fraction::from_str("-9223372036854775808/1").err(), Some(FractionError::Overflow));
}

#[test]
fn parse_format_round_trip() {
    for (n, d) in [(1i64, 2i64), (-6, 8), (0, 3), (22, 7), (i64::MAX, 3), (-i64::MAX, i64::MAX)] {
        let f = Fraction::new(n, d);
        let g = Fraction::from_str(&f.to_string()).unwrap();
        assert!(g == f);
    }
}

#[test]
fn ordering_matches_float_values() {
    let pairs = [(1i64, 2i64), (3, 4), (4, 3), (-1, 2), (2, 3), (-7, 5), (0, 9), (22, 7), (355, 113)];
    for &(an, ad) in pairs.iter() {
        for &(bn, bd) in pairs.iter() {
            let a = Fraction::new(an, ad);
            let b = Fraction::new(bn, bd);
            let fa = an as f64 / ad as f64;
            let fb = bn as f64 / bd as f64;
            assert_eq!(a < b, fa < fb);
            assert_eq!(a > b, fa > fb);
        }
    }
}
