use exposure::Fraction;

fn approx(xn: i64, xd: i64, en: i64, ed: i64) -> Fraction {
    Fraction::approximate(&Fraction::new(xn, xd), &Fraction::new(en, ed))
}

#[test]
fn limit_denominator_test() {
    // 3.1415926 within 0.01, and the f64 value of pi within 0.00001.
    assert_eq!(approx(31415926, 10_000_000, 1, 100), Fraction::new(22, 7));
    assert_eq!(approx(3141592653589793, 1_000_000_000_000_000, 1, 100_000), Fraction::new(355, 113));
}

#[test]
fn approximate_returns_exact_pairs() {
    let r = approx(31415926, 10_000_000, 1, 100);
    assert_eq!((r.numerator(), r.denominator()), (22, 7));
    let h = approx(1, 2, 1, 10);
    assert_eq!((h.numerator(), h.denominator()), (1, 2));
    let t = approx(1, 3, 1, 100);
    assert_eq!((t.numerator(), t.denominator()), (1, 3));
}

#[test]
fn approximate_near_integers_gives_integers() {
    // fractional part below the tolerance
    let a = approx(205, 100, 1, 10);
    assert_eq!((a.numerator(), a.denominator()), (2, 1));
    // fractional part zero
    let b = approx(3, 1, 1, 10);
    assert_eq!((b.numerator(), b.denominator()), (3, 1));
    // fractional part within the tolerance of one
    let c = approx(295, 100, 1, 10);
    assert_eq!((c.numerator(), c.denominator()), (3, 1));
    // negative values round by their floor
    let d = approx(-205, 100, 1, 10);
    assert_eq!((d.numerator(), d.denominator()), (-2, 1));
    let e = approx(-295, 100, 1, 10);
    assert_eq!((e.numerator(), e.denominator()), (-3, 1));
}

#[test]
fn approximate_at_the_tolerance_boundary() {
    // fractional part exactly equal to the tolerance: not below it, so the search runs;
    // a mediant exactly at frac + error narrows the upper bound
    let a = approx(11, 10, 1, 10);
    assert_eq!((a.numerator(), a.denominator()), (7, 6));
    // fractional part exactly one minus the tolerance: not above it either; a mediant
    // exactly at frac - error narrows the lower bound
    let b = approx(19, 10, 1, 10);
    assert_eq!((b.numerator(), b.denominator()), (11, 6));
}

#[test]
fn approximate_negative_values() {
    let h = approx(-1, 2, 1, 10);
    assert_eq!((h.numerator(), h.denominator()), (-1, 2));
    let p = approx(-31415926, 10_000_000, 1, 100);
    assert_eq!(p, Fraction::new(-22, 7));
}

#[test]
fn approximate_stays_within_tolerance() {
    for (xn, xd) in [(1i64, 7i64), (5, 7), (123, 1000), (999, 1000), (-17, 9), (271828, 100000)] {
        let r = approx(xn, xd, 1, 1000);
        let diff = (r.numerator() as i128 * xd as i128 - xn as i128 * r.denominator() as i128).abs();
        assert!(diff * 1000 < r.denominator() as i128 * xd as i128);
    }
}
