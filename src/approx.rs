use crate::fraction::{abs, Fraction};
use vstd::arithmetic::div_mod::*;
use vstd::prelude::*;

verus! {

/// The fraction `m` lies at or above `frac + error`, where `frac = fr/xd` and
/// `error = en/ed`, compared on cross products.
pub open spec fn at_or_above_window(m: (int, int), fr: int, xd: int, en: int, ed: int) -> bool {
    m.0 * xd * ed >= m.1 * (fr * ed + en * xd)
}

/// The fraction `m` lies strictly above `frac - error`.
pub open spec fn above_window_floor(m: (int, int), fr: int, xd: int, en: int, ed: int) -> bool {
    m.0 * xd * ed > m.1 * (fr * ed - en * xd)
}

/// The mediant of two fractions given as pairs.
pub open spec fn mediant(l: (int, int), u: (int, int)) -> (int, int) {
    (l.0 + u.0, l.1 + u.1)
}

/// The Stern–Brocot search for `frac = fr/xd` within `error = en/ed`, between the
/// bounds `l` and `u`, taking at most `fuel` more steps: the first mediant that lies
/// strictly inside the window.
pub open spec fn stern_brocot(
    fr: int,
    xd: int,
    en: int,
    ed: int,
    l: (int, int),
    u: (int, int),
    fuel: nat,
) -> (int, int)
    decreases fuel,
{
    let m = mediant(l, u);
    if fuel == 0 {
        m
    } else if at_or_above_window(m, fr, xd, en, ed) {
        stern_brocot(fr, xd, en, ed, l, m, (fuel - 1) as nat)
    } else if above_window_floor(m, fr, xd, en, ed) {
        m
    } else {
        stern_brocot(fr, xd, en, ed, m, u, (fuel - 1) as nat)
    }
}

/// The fractional part of `x` lies below the tolerance.
pub open spec fn frac_below_error(x: (int, int), error: (int, int)) -> bool {
    (x.0 % x.1) * error.1 < error.0 * x.1
}

/// The fractional part of `x` lies above one minus the tolerance.
pub open spec fn frac_above_one_minus_error(x: (int, int), error: (int, int)) -> bool {
    (x.0 % x.1) * error.1 > (error.1 - error.0) * x.1
}

/// The best-approximation result for the value `x` within `error`, as a pair: the
/// floor of `x` when the fractional part is below the tolerance, the next integer when
/// it is within the tolerance of one, and otherwise the floor plus the Stern–Brocot
/// mediant found for the fractional part.
pub open spec fn approximation(x: (int, int), error: (int, int)) -> (int, int) {
    let n = x.0 / x.1;
    if frac_below_error(x, error) {
        (n, 1)
    } else if frac_above_one_minus_error(x, error) {
        (n + 1, 1)
    } else {
        let m = stern_brocot(x.0 % x.1, x.1, error.0, error.1, (0, 1), (1, 1), error.1 as nat);
        (n * m.1 + m.0, m.1)
    }
}

/// The pair `r` is within `error` of `x`, strictly; all second components positive.
pub open spec fn within_error(r: (int, int), x: (int, int), error: (int, int)) -> bool {
    abs(r.0 * x.1 - x.0 * r.1) * error.1 < error.0 * r.1 * x.1
}

/// Bound under which the search's cross products fit in 128 bits.
pub const PRODUCT_BOUND: u128 = 0x0100_0000_0000_0000_0000_0000_0000_0000;

impl Fraction {
    /// The best rational approximation of `x` within the tolerance `error`, found by a
    /// Stern–Brocot search on the fractional part of `x`.
    ///
    /// The components must be small enough that the search's cross products fit in
    /// 128 bits and the result fits in an `i64`.
    pub fn approximate(x: &Fraction, error: &Fraction) -> (r: Fraction)
        requires
            error.num() > 0,
            x.den() * error.den() * error.den() <= PRODUCT_BOUND,
            (abs(x.num() / x.den()) + 1) * error.den() <= i64::MAX,
        ensures
            r.pair() == approximation(x.pair(), error.pair()),
            r.den() > 0,
            within_error(r.pair(), x.pair(), error.pair()),
            frac_below_error(x.pair(), error.pair()) || frac_above_one_minus_error(
                x.pair(),
                error.pair(),
            ) ==> r.den() == 1,
    {
        let xn = x.numerator() as i128;
        let xd = x.denominator() as i128;
        let en = error.numerator() as i128;
        let ed = error.denominator() as i128;
        let (n, fr) = floor_div(xn, xd);
        proof {
            assert(x.pair() == (xn as int, xd as int));
            assert(error.pair() == (en as int, ed as int));
            lemma_fundamental_div_mod(xn as int, xd as int);
            lemma_shortcut_bounds(xn as int, xd as int, n as int, fr as int, en as int, ed as int);
        }
        if fr * ed < en * xd {
            proof {
                assert(n * xd - xn * 1 == -fr) by (nonlinear_arith)
                    requires
                        xn == xd * n + fr,
                ;
                assert(fr * ed < en * 1 * xd);
                assert(within_error((n as int, 1), (xn as int, xd as int), (en as int, ed as int)));
            }
            return Fraction::new(n as i64, 1);
        }
        if fr * ed > (ed - en) * xd {
            proof {
                assert((n + 1) * xd - xn * 1 == xd - fr) by (nonlinear_arith)
                    requires
                        xn == xd * n + fr,
                ;
                assert((xd - fr) * ed < en * 1 * xd) by (nonlinear_arith)
                    requires
                        fr * ed > (ed - en) * xd,
                ;
                assert(within_error(((n + 1) as int, 1), (xn as int, xd as int), (en as int, ed as int)));
            }
            return Fraction::new((n + 1) as i64, 1);
        }
        let mut ln: i128 = 0;
        let mut ld: i128 = 1;
        let mut un: i128 = 1;
        let mut ud: i128 = 1;
        let ghost fuel: nat = ed as nat;
        proof {
            assert(0 * xd * ed <= 1 * (fr * ed - en * xd)) by (nonlinear_arith)
                requires
                    fr * ed >= en * xd,
            ;
            assert(1 * xd * ed >= 1 * (fr * ed + en * xd)) by (nonlinear_arith)
                requires
                    fr * ed <= (ed - en) * xd,
            ;
            lemma_window_bound(0, 1, 1, 1, fr as int, xd as int, en as int, ed as int);
        }
        loop
            invariant
                xn == xd * n + fr,
                (abs(n as int) + 1) * ed <= i64::MAX,
                x.pair() == (xn as int, xd as int),
                error.pair() == (en as int, ed as int),
                n == xn / xd,
                fr == xn % xd,
                !frac_below_error(x.pair(), error.pair()),
                !frac_above_one_minus_error(x.pair(), error.pair()),
                0 < xd,
                0 < ed,
                0 < en,
                0 <= fr < xd,
                xd * ed * ed <= PRODUCT_BOUND,
                0 <= ln <= ld,
                1 <= ld,
                1 <= un <= ud,
                un * ld - ln * ud == 1,
                ln * xd * ed <= ld * (fr * ed - en * xd),
                un * xd * ed >= ud * (fr * ed + en * xd),
                2 * en * ld * ud <= ed,
                fuel + ld * ud >= ed + 1,
                stern_brocot(fr as int, xd as int, en as int, ed as int, (0, 1), (1, 1), ed as nat)
                    == stern_brocot(
                    fr as int,
                    xd as int,
                    en as int,
                    ed as int,
                    (ln as int, ld as int),
                    (un as int, ud as int),
                    fuel,
                ),
            decreases ed as int - (ld as int) * (ud as int),
        {
            proof {
                lemma_step_bounds(ln as int, ld as int, un as int, ud as int, fr as int, xd as int, en as int, ed as int);
            }
            let mn = ln + un;
            let md = ld + ud;
            proof {
                assert(mn * ld - ln * md == 1 && un * md - mn * ud == 1) by (nonlinear_arith)
                    requires
                        un * ld - ln * ud == 1,
                        mn == ln + un,
                        md == ld + ud,
                ;
            }
            if mn * xd * ed >= md * (fr * ed + en * xd) {
                proof {
                    lemma_window_bound(ln as int, ld as int, mn as int, md as int, fr as int, xd as int, en as int, ed as int);
                    lemma_product_grows(ld as int, ud as int);
                    fuel = (fuel - 1) as nat;
                }
                un = mn;
                ud = md;
                assert(ed - ld * ud < ed - ld * (ud - ld));
                proof {
                    let (a, b, e) = (ld as int, ud as int, en as int);
                    assert(a * b <= ed) by (nonlinear_arith)
                        requires
                            2 * e * a * b <= ed,
                            e >= 1,
                            a >= 1,
                            b >= 1,
                    ;
                }
            } else if mn * xd * ed > md * (fr * ed - en * xd) {
                proof {
                    lemma_result_bounds(n as int, mn as int, md as int, ed as int);
                    lemma_inside_window(xn as int, xd as int, n as int, fr as int, mn as int, md as int, en as int, ed as int);
                }
                return Fraction::new((n * md + mn) as i64, md as i64);
            } else {
                proof {
                    lemma_window_bound(mn as int, md as int, un as int, ud as int, fr as int, xd as int, en as int, ed as int);
                    lemma_product_grows(ld as int, ud as int);
                    fuel = (fuel - 1) as nat;
                }
                ln = mn;
                ld = md;
                assert(ed - ld * ud < ed - (ld - ud) * ud);
                proof {
                    let (a, b, e) = (ld as int, ud as int, en as int);
                    assert(a * b <= ed) by (nonlinear_arith)
                        requires
                            2 * e * a * b <= ed,
                            e >= 1,
                            a >= 1,
                            b >= 1,
                    ;
                }
            }
        }
    }
}

/// After the shortcuts the floor and the products they compare stay in range.
proof fn lemma_shortcut_bounds(xn: int, xd: int, n: int, fr: int, en: int, ed: int)
    requires
        i64::MIN < xn <= i64::MAX,
        0 < xd <= i64::MAX,
        0 < en <= i64::MAX,
        0 < ed <= i64::MAX,
        xn == xd * n + fr,
        0 <= fr < xd,
        n == xn / xd,
        xd * ed * ed <= PRODUCT_BOUND,
        (abs(n) + 1) * ed <= i64::MAX,
    ensures
        i64::MIN < n < i64::MAX,
        0 <= fr * ed < xd * ed <= PRODUCT_BOUND,
        0 < en * xd < 0x4000_0000_0000_0000_0000_0000_0000_0000,
        -0x4000_0000_0000_0000_0000_0000_0000_0000 < (ed - en) * xd < 0x4000_0000_0000_0000_0000_0000_0000_0000,
{
    assert(0 <= fr * ed < xd * ed <= xd * ed * ed) by (nonlinear_arith)
        requires
            0 <= fr < xd,
            ed >= 1,
    ;
    assert(0 < en * xd < 0x4000_0000_0000_0000_0000_0000_0000_0000) by (nonlinear_arith)
        requires
            0 < xd <= 0x7fff_ffff_ffff_ffff,
            0 < en <= 0x7fff_ffff_ffff_ffff,
    ;
    assert(-0x4000_0000_0000_0000_0000_0000_0000_0000 < (ed - en) * xd < 0x4000_0000_0000_0000_0000_0000_0000_0000) by (nonlinear_arith)
        requires
            0 < xd <= 0x7fff_ffff_ffff_ffff,
            -0x7fff_ffff_ffff_ffff <= ed - en <= 0x7fff_ffff_ffff_ffff,
    ;
    assert(abs(n) < i64::MAX) by (nonlinear_arith)
        requires
            (abs(n) + 1) * ed <= i64::MAX,
            ed >= 1,
    ;
    if xn < 0 {
        assert(n >= xn) by (nonlinear_arith)
            requires
                xn == xd * n + fr,
                0 <= fr < xd,
                xd >= 1,
                xn < 0,
        ;
    }
}

/// The window between the bounds is at least twice the tolerance wide, which keeps the
/// product of the bounds' denominators within `ed / (2 en)`.
proof fn lemma_window_bound(ln: int, ld: int, un: int, ud: int, fr: int, xd: int, en: int, ed: int)
    requires
        0 < ld,
        0 < ud,
        0 < xd,
        0 < ed,
        un * ld - ln * ud == 1,
        ln * xd * ed <= ld * (fr * ed - en * xd),
        un * xd * ed >= ud * (fr * ed + en * xd),
    ensures
        2 * en * ld * ud <= ed,
{
    let p = ld * ud;
    let w = fr * ed - en * xd;
    let v = fr * ed + en * xd;
    let k = xd * ed;
    assert(ud * (ln * xd * ed) == k * (ln * ud) && ud * (ld * w) == p * w) by (nonlinear_arith)
        requires
            p == ld * ud,
            k == xd * ed,
    ;
    assert(ld * (un * xd * ed) == k * (un * ld) && ld * (ud * v) == p * v) by (nonlinear_arith)
        requires
            p == ld * ud,
            k == xd * ed,
    ;
    assert(ud * (ln * xd * ed) <= ud * (ld * w)) by (nonlinear_arith)
        requires
            ln * xd * ed <= ld * w,
            ud > 0,
    ;
    assert(ld * (un * xd * ed) >= ld * (ud * v)) by (nonlinear_arith)
        requires
            un * xd * ed >= ud * v,
            ld > 0,
    ;
    assert(k * (un * ld) - k * (ln * ud) == k * (un * ld - ln * ud)) by (nonlinear_arith);
    assert(p * v - p * w == p * (v - w)) by (nonlinear_arith);
    assert(v - w == 2 * en * xd) by (nonlinear_arith)
        requires
            v == fr * ed + en * xd,
            w == fr * ed - en * xd,
    ;
    assert(p * (2 * en * xd) == xd * (2 * en * ld * ud)) by (nonlinear_arith)
        requires
            p == ld * ud,
    ;
    assert(k * 1 == xd * ed);
    assert(xd * ed >= xd * (2 * en * ld * ud));
    lemma_mul_le_cancel(xd, 2 * en * ld * ud, ed);
}

/// Cancels a positive factor from both sides of `<=`.
proof fn lemma_mul_le_cancel(k: int, a: int, b: int)
    requires
        k > 0,
        k * a <= k * b,
    ensures
        a <= b,
{
    assert(a <= b) by (nonlinear_arith)
        requires
            k > 0,
            k * a <= k * b,
    ;
}

/// Replacing one bound by the mediant grows the product of the denominators.
proof fn lemma_product_grows(a: int, b: int)
    requires
        a > 0,
        b > 0,
    ensures
        a * (a + b) >= a * b + 1,
        (a + b) * b >= a * b + 1,
{
    assert(a * (a + b) >= a * b + 1 && (a + b) * b >= a * b + 1) by (nonlinear_arith)
        requires
            a > 0,
            b > 0,
    ;
}

/// During the search the mediant's components and cross products stay in range.
proof fn lemma_step_bounds(ln: int, ld: int, un: int, ud: int, fr: int, xd: int, en: int, ed: int)
    requires
        0 < xd,
        0 < ed,
        0 < en,
        0 <= fr < xd,
        xd * ed * ed <= PRODUCT_BOUND,
        0 <= ln <= ld,
        1 <= ld,
        1 <= un <= ud,
        2 * en * ld * ud <= ed,
    ensures
        0 < ld * ud <= ed,
        0 < ln + un <= ld + ud <= ed,
        0 <= (ln + un) * xd <= PRODUCT_BOUND,
        0 <= (ln + un) * xd * ed <= PRODUCT_BOUND,
        0 <= fr * ed <= PRODUCT_BOUND,
        0 <= en * xd <= PRODUCT_BOUND,
        0 <= fr * ed + en * xd <= 2 * xd * ed,
        -2 * xd * ed <= fr * ed - en * xd <= 2 * xd * ed,
        -4 * PRODUCT_BOUND <= (ld + ud) * (fr * ed - en * xd) <= 4 * PRODUCT_BOUND,
        0 <= (ld + ud) * (fr * ed + en * xd) <= 4 * PRODUCT_BOUND,
{
    assert(0 < ld * ud <= ed) by (nonlinear_arith)
        requires
            2 * en * ld * ud <= ed,
            en >= 1,
            ld >= 1,
            ud >= 1,
    ;
    assert(ld + ud <= ld * ud + 1) by (nonlinear_arith)
        requires
            ld >= 1,
            ud >= 1,
    ;
    assert(ld + ud <= ed) by (nonlinear_arith)
        requires
            ld + ud <= ld * ud + 1,
            2 * en * ld * ud <= ed,
            en >= 1,
            ld * ud >= 1,
    ;
    let m = ld + ud;
    assert(en < ed) by (nonlinear_arith)
        requires
            2 * en * ld * ud <= ed,
            ld * ud >= 1,
            en >= 1,
    ;
    assert(0 <= (ln + un) * xd <= (ln + un) * xd * ed <= xd * ed * ed) by (nonlinear_arith)
        requires
            0 < ln + un <= ed,
            xd > 0,
            ed > 0,
    ;
    assert(0 <= fr * ed <= xd * ed * ed && 0 <= en * xd <= xd * ed * ed) by (nonlinear_arith)
        requires
            0 <= fr < xd,
            0 < en < ed,
            xd > 0,
    ;
    assert(0 <= fr * ed + en * xd <= 2 * xd * ed) by (nonlinear_arith)
        requires
            0 <= fr < xd,
            0 < en < ed,
            xd > 0,
    ;
    assert(-2 * xd * ed <= fr * ed - en * xd <= 2 * xd * ed) by (nonlinear_arith)
        requires
            0 <= fr < xd,
            0 < en < ed,
            xd > 0,
    ;
    assert(m * (2 * xd * ed) <= 2 * (xd * ed * ed)) by (nonlinear_arith)
        requires
            0 < m <= ed,
            xd > 0,
    ;
    let w = fr * ed - en * xd;
    let v = fr * ed + en * xd;
    assert(-(m * (2 * xd * ed)) <= m * w <= m * (2 * xd * ed)) by (nonlinear_arith)
        requires
            -2 * xd * ed <= w <= 2 * xd * ed,
            m > 0,
    ;
    assert(0 <= m * v <= m * (2 * xd * ed)) by (nonlinear_arith)
        requires
            0 <= v <= 2 * xd * ed,
            m > 0,
    ;
}

/// The search's result `n * md + mn` over `md` fits in an `i64`.
proof fn lemma_result_bounds(n: int, mn: int, md: int, ed: int)
    requires
        0 < mn <= md <= ed,
        (abs(n) + 1) * ed <= i64::MAX,
    ensures
        i64::MIN < n * md + mn <= i64::MAX,
        0 < md <= i64::MAX,
{
    assert(-((abs(n) + 1) * ed) <= n * md + mn <= (abs(n) + 1) * ed) by (nonlinear_arith)
        requires
            0 < mn <= md <= ed,
            abs(n) == (if n < 0 { -n } else { n }),
    ;
    assert(md <= (abs(n) + 1) * ed) by (nonlinear_arith)
        requires
            0 < md <= ed,
            abs(n) >= 0,
    ;
}

/// A mediant strictly inside the window gives a result strictly within the tolerance.
proof fn lemma_inside_window(xn: int, xd: int, n: int, fr: int, mn: int, md: int, en: int, ed: int)
    requires
        xn == xd * n + fr,
        0 < md,
        0 < xd,
        mn * xd * ed < md * (fr * ed + en * xd),
        mn * xd * ed > md * (fr * ed - en * xd),
    ensures
        within_error((n * md + mn, md), (xn, xd), (en, ed)),
{
    let e = (n * md + mn) * xd - xn * md;
    assert(e == mn * xd - fr * md) by (nonlinear_arith)
        requires
            xn == xd * n + fr,
            e == (n * md + mn) * xd - xn * md,
    ;
    assert(e * ed < en * md * xd && -e * ed < en * md * xd) by (nonlinear_arith)
        requires
            e == mn * xd - fr * md,
            mn * xd * ed < md * (fr * ed + en * xd),
            mn * xd * ed > md * (fr * ed - en * xd),
    ;
}

/// Floor division by a positive divisor: the quotient rounded down and the remainder.
fn floor_div(a: i128, b: i128) -> (r: (i128, i128))
    requires
        i64::MIN <= a <= i64::MAX,
        0 < b <= i64::MAX,
    ensures
        r.0 == a / b,
        r.1 == a % b,
        0 <= r.1 < b,
{
    if a >= 0 {
        (a / b, a % b)
    } else {
        let m = -a;
        let q = m / b;
        let rem = m % b;
        proof {
            lemma_fundamental_div_mod(m as int, b as int);
        }
        proof {
            assert(m == b * q + rem);
            if rem == 0 {
                assert(a == (-q) * b + 0) by (nonlinear_arith)
                    requires
                        m == b * q + rem,
                        a == -m,
                        rem == 0,
                ;
            }
            assert(a == (-q - 1) * b + (b - rem)) by (nonlinear_arith)
                requires
                    m == b * q + rem,
                    a == -m,
            ;
        }
        if rem == 0 {
            proof {
                lemma_fundamental_div_mod_converse(a as int, b as int, -q as int, 0);
            }
            (-q, 0)
        } else {
            proof {
                lemma_fundamental_div_mod_converse(a as int, b as int, -q - 1, b - rem);
            }
            (-q - 1, b - rem)
        }
    }
}

} // verus!
