use crate::divisibility::{
    divides, lemma_divides_antisymmetric, lemma_gcd_divides, lemma_gcd_greatest, lemma_gcd_halve, lemma_gcd_le, lemma_gcd_pos,
    lemma_gcd_scale, lemma_gcd_sub, lemma_gcd_symmetric, spec_gcd,
};
use vstd::arithmetic::div_mod::*;
use vstd::arithmetic::mul::lemma_mul_equality_converse;
use vstd::prelude::*;
use vstd::std_specs::cmp::{PartialEqSpec, PartialOrdSpec};

verus! {

/// Why a fraction could not be built.
#[derive(Debug, Clone, Copy, PartialEq, Eq, Structural)]
pub enum FractionError {
    /// The denominator was zero.
    ZeroDenominator,
    /// The text was not of the form `<int>/<int>`.
    MalformedText,
    /// A component was `i64::MIN`, whose negation does not fit in an `i64`.
    Overflow,
}

/// An exact signed rational number.
///
/// The sign is kept on the numerator and the denominator is positive. The pair is not
/// kept in lowest terms: equality and rendering work on the reduced form.
#[derive(Debug)]
pub struct Fraction {
    numerator: i64,
    denominator: i64,
}

/// The absolute value of an integer.
pub open spec fn abs(x: int) -> nat {
    if x < 0 {
        (-x) as nat
    } else {
        x as nat
    }
}

/// A pair with its sign moved onto the first component.
pub open spec fn normalized(n: int, d: int) -> (int, int) {
    if d < 0 {
        (-n, -d)
    } else {
        (n, d)
    }
}

/// A pair divided through by the gcd of its magnitudes.
pub open spec fn reduced_pair(p: (int, int)) -> (int, int) {
    let g = spec_gcd(abs(p.0), abs(p.1)) as int;
    (p.0 / g, p.1 / g)
}

/// The ordering of two integers.
pub open spec fn int_cmp(x: int, y: int) -> core::cmp::Ordering {
    if x < y {
        core::cmp::Ordering::Less
    } else if x == y {
        core::cmp::Ordering::Equal
    } else {
        core::cmp::Ordering::Greater
    }
}

impl Fraction {
    /// The stored numerator.
    pub closed spec fn num(self) -> int {
        self.numerator as int
    }

    /// The stored denominator.
    pub closed spec fn den(self) -> int {
        self.denominator as int
    }

    #[verifier::type_invariant]
    closed spec fn wf(self) -> bool {
        self.denominator > 0 && self.numerator != i64::MIN
    }

    /// The stored pair.
    pub open spec fn pair(self) -> (int, int) {
        (self.num(), self.den())
    }

    /// The pair in lowest terms.
    pub open spec fn reduced(self) -> (int, int) {
        reduced_pair(self.pair())
    }

    /// The fraction that stores the given pair.
    pub open spec fn from_pair(p: (int, int)) -> Fraction {
        choose|f: Fraction| f.pair() == p
    }

    /// Creates a new fraction with the given numerator and denominator, moving the
    /// sign onto the numerator. A zero denominator is ruled out by the precondition;
    /// `try_new` reports it instead.
    pub fn new(numerator: i64, denominator: i64) -> (r: Self)
        requires
            denominator != 0,
            numerator != i64::MIN,
            denominator != i64::MIN,
        ensures
            r.pair() == normalized(numerator as int, denominator as int),
            r.den() > 0,
    {
        if denominator < 0 {
            Self { numerator: -numerator, denominator: -denominator }
        } else {
            Self { numerator, denominator }
        }
    }

    /// Creates a new fraction, or says why the pair cannot be one.
    pub fn try_new(numerator: i64, denominator: i64) -> (r: Result<Self, FractionError>)
        ensures
            match r {
                Ok(f) => denominator != 0 && numerator != i64::MIN && denominator != i64::MIN
                    && f.pair() == normalized(numerator as int, denominator as int),
                Err(e) => if denominator == 0 {
                    e == FractionError::ZeroDenominator
                } else {
                    (numerator == i64::MIN || denominator == i64::MIN) && e
                        == FractionError::Overflow
                },
            },
    {
        if denominator == 0 {
            Err(FractionError::ZeroDenominator)
        } else if numerator == i64::MIN || denominator == i64::MIN {
            Err(FractionError::Overflow)
        } else {
            Ok(Self::new(numerator, denominator))
        }
    }

    /// The stored numerator.
    pub fn numerator(&self) -> (r: i64)
        ensures
            r == self.num(),
            r != i64::MIN,
    {
        proof {
            use_type_invariant(self);
        }
        self.numerator
    }

    /// The stored denominator, always positive.
    pub fn denominator(&self) -> (r: i64)
        ensures
            r == self.den(),
            r > 0,
    {
        proof {
            use_type_invariant(self);
        }
        self.denominator
    }

    /// Returns a new Fraction that is equal to this one, but in lowest terms.
    pub fn reduce(&self) -> (r: Self)
        ensures
            r.pair() == self.reduced(),
            r.den() > 0,
            spec_gcd(abs(r.num()), abs(r.den())) == 1,
    {
        proof {
            use_type_invariant(self);
        }
        let n = self.numerator;
        let d = self.denominator;
        let an: i64 = if n < 0 {
            -n
        } else {
            n
        };
        let g = gcd(an, d);
        proof {
            lemma_gcd_pos(an as nat, d as nat);
            lemma_gcd_divides(an as nat, d as nat);
        }
        let q = an / g;
        let kd = d / g;
        proof {
            let gi = g as int;
            let cn = choose|k: int| #[trigger] (gi * k) == an;
            let cd = choose|k: int| #[trigger] (gi * k) == d;
            lemma_div_multiples_vanish(cn, gi);
            lemma_div_multiples_vanish(cd, gi);
            lemma_div_multiples_vanish(-cn, gi);
            assert(gi * (-cn) == -(gi * cn)) by (nonlinear_arith);
            assert(cn >= 0 && cd > 0) by (nonlinear_arith)
                requires
                    gi > 0,
                    gi * cn == an,
                    an >= 0,
                    gi * cd == d,
                    d > 0,
            ;
            lemma_gcd_scale(g as nat, cn as nat, cd as nat);
            assert(gi * spec_gcd(cn as nat, cd as nat) == gi * 1);
            lemma_mul_equality_converse(gi, spec_gcd(cn as nat, cd as nat) as int, 1);
            assert(q <= an) by (nonlinear_arith)
                requires
                    gi > 0,
                    gi * q == an,
                    q >= 0,
            ;
        }
        let num: i64 = if n < 0 {
            -q
        } else {
            q
        };
        Self { numerator: num, denominator: kd }
    }
}

/// Greatest common divisor of two non-negative numbers, by the binary method.
pub fn gcd(a: i64, b: i64) -> (r: i64)
    requires
        a >= 0,
        b >= 0,
    ensures
        r == spec_gcd(a as nat, b as nat),
    decreases a + b,
{
    if a == b {
        proof {
            lemma_gcd_sub(a as nat, b as nat);
            lemma_gcd_symmetric(0, b as nat);
        }
        return a;
    }
    if a == 0 {
        proof {
            lemma_gcd_symmetric(0, b as nat);
        }
        return b;
    }
    if b == 0 {
        return a;
    }
    let a_is_even = a % 2 == 0;
    let b_is_even = b % 2 == 0;
    proof {
        lemma_gcd_symmetric(a as nat, b as nat);
    }
    match (a_is_even, b_is_even) {
        (true, true) => {
            let h = gcd(a / 2, b / 2);
            proof {
                lemma_gcd_scale(2, (a / 2) as nat, (b / 2) as nat);
                lemma_gcd_le(a as nat, b as nat);
            }
            h * 2
        },
        (true, false) => {
            proof {
                lemma_gcd_halve(a as nat, b as nat);
            }
            gcd(a / 2, b)
        },
        (false, true) => {
            proof {
                lemma_gcd_halve(b as nat, a as nat);
                lemma_gcd_symmetric((b / 2) as nat, a as nat);
            }
            gcd(a, b / 2)
        },
        (false, false) => {
            if a > b {
                proof {
                    lemma_gcd_sub(a as nat, b as nat);
                    lemma_gcd_halve((a - b) as nat, b as nat);
                }
                gcd((a - b) / 2, b)
            } else {
                proof {
                    lemma_gcd_sub(b as nat, a as nat);
                    lemma_gcd_halve((b - a) as nat, a as nat);
                }
                gcd((b - a) / 2, a)
            }
        },
    }
}

impl PartialEq for Fraction {
    /// Two fractions are equal when their lowest terms agree.
    fn eq(&self, other: &Fraction) -> (r: bool) {
        let simp_self = self.reduce();
        let simp_other = other.reduce();
        simp_self.numerator == simp_other.numerator && simp_self.denominator
            == simp_other.denominator
    }
}

impl vstd::std_specs::cmp::PartialEqSpecImpl for Fraction {
    open spec fn obeys_eq_spec() -> bool {
        true
    }

    open spec fn eq_spec(&self, other: &Fraction) -> bool {
        self.reduced() == other.reduced()
    }
}

impl Eq for Fraction {

}

impl PartialOrd for Fraction {
    /// Compares the values exactly, by cross-multiplying in 128 bits.
    fn partial_cmp(&self, other: &Fraction) -> (r: Option<core::cmp::Ordering>) {
        proof {
            lemma_product_fits_i128(self.numerator as int, other.denominator as int);
            lemma_product_fits_i128(other.numerator as int, self.denominator as int);
        }
        let lhs = (self.numerator as i128) * (other.denominator as i128);
        let rhs = (other.numerator as i128) * (self.denominator as i128);
        if lhs < rhs {
            Some(core::cmp::Ordering::Less)
        } else if lhs == rhs {
            Some(core::cmp::Ordering::Equal)
        } else {
            Some(core::cmp::Ordering::Greater)
        }
    }
}

impl vstd::std_specs::cmp::PartialOrdSpecImpl for Fraction {
    open spec fn obeys_partial_cmp_spec() -> bool {
        true
    }

    open spec fn partial_cmp_spec(&self, other: &Fraction) -> Option<core::cmp::Ordering> {
        Some(int_cmp(self.num() * other.den(), other.num() * self.den()))
    }
}

proof fn lemma_product_fits_i128(x: int, y: int)
    requires
        i64::MIN <= x <= i64::MAX,
        i64::MIN <= y <= i64::MAX,
    ensures
        i128::MIN <= x * y <= i128::MAX,
{
    assert(-0x8000_0000_0000_0000 * 0x8000_0000_0000_0000 <= x * y <= 0x8000_0000_0000_0000
        * 0x8000_0000_0000_0000) by (nonlinear_arith)
        requires
            -0x8000_0000_0000_0000 <= x <= 0x8000_0000_0000_0000,
            -0x8000_0000_0000_0000 <= y <= 0x8000_0000_0000_0000,
    ;
}

/// The pair `a.n*b.d + b.n*a.d` over `a.d*b.d`.
pub open spec fn sum_pair(a: Fraction, b: Fraction) -> (int, int) {
    (a.num() * b.den() + b.num() * a.den(), a.den() * b.den())
}

/// The pair `a.n*b.d - b.n*a.d` over `a.d*b.d`.
pub open spec fn difference_pair(a: Fraction, b: Fraction) -> (int, int) {
    (a.num() * b.den() - b.num() * a.den(), a.den() * b.den())
}

/// The pair `a.n*b.n` over `a.d*b.d`.
pub open spec fn product_pair(a: Fraction, b: Fraction) -> (int, int) {
    (a.num() * b.num(), a.den() * b.den())
}

/// The pair `a.n*b.d` over `a.d*b.n`.
pub open spec fn quotient_pair(a: Fraction, b: Fraction) -> (int, int) {
    (a.num() * b.den(), a.den() * b.num())
}

/// A pair can be stored: positive denominator, components within `i64`, no `i64::MIN`
/// numerator.
pub open spec fn storable(p: (int, int)) -> bool {
    i64::MIN < p.0 <= i64::MAX && 0 < p.1 <= i64::MAX
}

impl<'a> core::ops::Add for &'a Fraction {
    type Output = Fraction;

    fn add(self, other: Self) -> (r: Fraction) {
        proof {
            use_type_invariant(self);
            use_type_invariant(other);
        }
        let r = Fraction {
            numerator: (self.numerator * other.denominator + other.numerator * self.denominator),
            denominator: (self.denominator * other.denominator),
        };
        assert(r.pair() == sum_pair(*self, *other));
        r
    }
}

impl<'a> vstd::std_specs::ops::AddSpecImpl for &'a Fraction {
    open spec fn obeys_add_spec() -> bool {
        true
    }

    open spec fn add_req(self, other: &'a Fraction) -> bool {
        storable(sum_pair(*self, *other)) && i64::MIN <= self.num() * other.den() <= i64::MAX
            && i64::MIN <= other.num() * self.den() <= i64::MAX
    }

    open spec fn add_spec(self, other: &'a Fraction) -> Fraction {
        Fraction::from_pair(sum_pair(*self, *other))
    }
}

impl<'a> core::ops::Sub for &'a Fraction {
    type Output = Fraction;

    fn sub(self, other: Self) -> (r: Fraction) {
        proof {
            use_type_invariant(self);
            use_type_invariant(other);
        }
        let r = Fraction {
            numerator: (self.numerator * other.denominator - other.numerator * self.denominator),
            denominator: (self.denominator * other.denominator),
        };
        assert(r.pair() == difference_pair(*self, *other));
        r
    }
}

impl<'a> vstd::std_specs::ops::SubSpecImpl for &'a Fraction {
    open spec fn obeys_sub_spec() -> bool {
        true
    }

    open spec fn sub_req(self, other: &'a Fraction) -> bool {
        storable(difference_pair(*self, *other)) && i64::MIN <= self.num() * other.den()
            <= i64::MAX && i64::MIN <= other.num() * self.den() <= i64::MAX
    }

    open spec fn sub_spec(self, other: &'a Fraction) -> Fraction {
        Fraction::from_pair(difference_pair(*self, *other))
    }
}

impl<'a> core::ops::Mul for &'a Fraction {
    type Output = Fraction;

    fn mul(self, other: Self) -> (r: Fraction) {
        let r = Fraction {
            numerator: (self.numerator * other.numerator),
            denominator: (self.denominator * other.denominator),
        };
        assert(r.pair() == product_pair(*self, *other));
        r
    }
}

impl<'a> vstd::std_specs::ops::MulSpecImpl for &'a Fraction {
    open spec fn obeys_mul_spec() -> bool {
        true
    }

    open spec fn mul_req(self, other: &'a Fraction) -> bool {
        storable(product_pair(*self, *other))
    }

    open spec fn mul_spec(self, other: &'a Fraction) -> Fraction {
        Fraction::from_pair(product_pair(*self, *other))
    }
}

impl<'a> core::ops::Div for &'a Fraction {
    type Output = Fraction;

    /// Divides through `Fraction::new`, so the sign lands on the numerator.
    fn div(self, other: Self) -> (r: Fraction) {
        proof {
            use_type_invariant(self);
            use_type_invariant(other);
            let (d, n) = (self.denominator as int, other.numerator as int);
            assert(d * n != 0) by (nonlinear_arith)
                requires
                    d > 0,
                    n != 0,
            ;
        }
        let r = Fraction::new(
            self.numerator * other.denominator,
            self.denominator * other.numerator,
        );
        assert(r.pair() == normalized(quotient_pair(*self, *other).0, quotient_pair(*self, *other).1));
        r
    }
}

impl<'a> vstd::std_specs::ops::DivSpecImpl for &'a Fraction {
    open spec fn obeys_div_spec() -> bool {
        true
    }

    open spec fn div_req(self, other: &'a Fraction) -> bool {
        &&& other.num() != 0
        &&& i64::MIN < quotient_pair(*self, *other).0 <= i64::MAX
        &&& i64::MIN < quotient_pair(*self, *other).1 <= i64::MAX
    }

    open spec fn div_spec(self, other: &'a Fraction) -> Fraction {
        Fraction::from_pair(normalized(quotient_pair(*self, *other).0, quotient_pair(*self, *other).1))
    }
}

/// Equality is reflexive.
pub proof fn law_eq_reflexive(a: Fraction)
    ensures
        a.eq_spec(&a),
{
}

/// Equality is symmetric.
pub proof fn law_eq_symmetric(a: Fraction, b: Fraction)
    ensures
        a.eq_spec(&b) == b.eq_spec(&a),
{
}

/// Multiplying numerator and denominator by the same nonzero integer before
/// construction gives an equal fraction.
pub proof fn law_eq_scaling(a: Fraction, b: Fraction, n: int, d: int, k: int)
    requires
        d != 0,
        k != 0,
        a.pair() == normalized(n, d),
        b.pair() == normalized(k * n, k * d),
    ensures
        a.eq_spec(&b),
{
    let (n1, d1) = normalized(n, d);
    let m = abs(k) as int;
    assert(normalized(k * n, k * d) == (m * n1, m * d1)) by (nonlinear_arith)
        requires
            d != 0,
            k != 0,
            m == if k < 0 { -k } else { k },
            (n1, d1) == (if d < 0 { (-n, -d) } else { (n, d) }),
            normalized(k * n, k * d) == (if k * d < 0 { (-(k * n), -(k * d)) } else { (k * n, k * d) }),
    ;
    assert(d1 > 0);
    assert(abs(m * n1) == m * abs(n1)) by (nonlinear_arith)
        requires
            m > 0,
            abs(m * n1) == (if m * n1 < 0 { -(m * n1) } else { m * n1 }),
            abs(n1) == (if n1 < 0 { -n1 } else { n1 }),
    ;
    assert(abs(m * d1) == m * d1) by (nonlinear_arith)
        requires
            m > 0,
            d1 > 0,
            abs(m * d1) == (if m * d1 < 0 { -(m * d1) } else { m * d1 }),
    ;
    lemma_gcd_scale(m as nat, abs(n1), abs(d1));
    let g = spec_gcd(abs(n1), abs(d1)) as int;
    lemma_gcd_pos(abs(n1), abs(d1));
    lemma_gcd_divides(abs(n1), abs(d1));
    let cn = choose|c: int| #[trigger] (g * c) == abs(n1) as int;
    let cd = choose|c: int| #[trigger] (g * c) == abs(d1) as int;
    let sn = if n1 < 0 { -cn } else { cn };
    assert(g * sn == n1) by (nonlinear_arith)
        requires
            g * cn == abs(n1),
            sn == (if n1 < 0 { -cn } else { cn }),
            abs(n1) == (if n1 < 0 { -n1 } else { n1 }),
    ;
    assert((m * g) * sn == m * n1 && (m * g) * cd == m * d1 && m * g > 0) by (nonlinear_arith)
        requires
            g * sn == n1,
            g * cd == d1,
            m > 0,
            g > 0,
    ;
    lemma_div_multiples_vanish(sn, g);
    lemma_div_multiples_vanish(cd, g);
    lemma_div_multiples_vanish(sn, m * g);
    lemma_div_multiples_vanish(cd, m * g);
}

/// Reducing a pair with a positive second component keeps that component positive, does
/// not grow either magnitude, leaves coprime components, and is idempotent.
pub proof fn lemma_reduced_pair(p: (int, int))
    requires
        p.1 > 0,
    ensures
        reduced_pair(p).1 > 0,
        abs(reduced_pair(p).0) <= abs(p.0),
        reduced_pair(p).1 <= p.1,
        spec_gcd(abs(reduced_pair(p).0), abs(reduced_pair(p).1)) == 1,
        reduced_pair(reduced_pair(p)) == reduced_pair(p),
        spec_gcd(abs(p.0), abs(p.1)) > 0,
        p.0 == spec_gcd(abs(p.0), abs(p.1)) * reduced_pair(p).0,
        p.1 == spec_gcd(abs(p.0), abs(p.1)) * reduced_pair(p).1,
{
    let an = abs(p.0);
    let d = p.1;
    let g = spec_gcd(an, abs(d)) as int;
    lemma_gcd_pos(an, abs(d));
    lemma_gcd_divides(an, abs(d));
    let cn = choose|k: int| #[trigger] (g * k) == an as int;
    let cd = choose|k: int| #[trigger] (g * k) == d;
    let sn = if p.0 < 0 { -cn } else { cn };
    assert(g * sn == p.0) by (nonlinear_arith)
        requires
            g * cn == an,
            sn == (if p.0 < 0 { -cn } else { cn }),
            an == (if p.0 < 0 { -p.0 } else { p.0 }),
    ;
    lemma_div_multiples_vanish(sn, g);
    lemma_div_multiples_vanish(cd, g);
    assert(cn >= 0 && cd > 0 && cn <= an && cd <= d) by (nonlinear_arith)
        requires
            g > 0,
            g * cn == an,
            an >= 0,
            g * cd == d,
            d > 0,
    ;
    assert(abs(sn) == cn);
    lemma_gcd_scale(g as nat, cn as nat, cd as nat);
    assert(g * spec_gcd(cn as nat, cd as nat) == g * 1);
    lemma_mul_equality_converse(g, spec_gcd(cn as nat, cd as nat) as int, 1);
    assert(sn / 1 == sn && cd / 1 == cd);
}

/// Every storable pair is the pair of some fraction, so `from_pair` gives it back.
pub proof fn lemma_from_pair(p: (int, int))
    requires
        storable(p),
    ensures
        Fraction::from_pair(p).pair() == p,
{
    let f = Fraction { numerator: p.0 as i64, denominator: p.1 as i64 };
    assert(f.pair() == p);
}

/// Two coprime pairs with positive second components and equal cross products are equal.
proof fn lemma_coprime_cross(a: int, b: int, c: int, d: int)
    requires
        b > 0,
        d > 0,
        spec_gcd(abs(a), b as nat) == 1,
        spec_gcd(abs(c), d as nat) == 1,
        a * d == c * b,
    ensures
        a == c,
        b == d,
{
    lemma_divides_denominator(a, b, c, d);
    lemma_divides_denominator(c, d, a, b);
    lemma_divides_antisymmetric(b, d);
    assert(b * a == b * c) by (nonlinear_arith)
        requires
            a * d == c * b,
            b == d,
    ;
    lemma_mul_equality_converse(b, a, c);
}

/// With `a/b` in lowest terms and `a * d == c * b`, `b` divides `d`.
proof fn lemma_divides_denominator(a: int, b: int, c: int, d: int)
    requires
        b > 0,
        d > 0,
        spec_gcd(abs(a), b as nat) == 1,
        a * d == c * b,
    ensures
        divides(b, d),
{
    lemma_gcd_scale(d as nat, abs(a), b as nat);
    assert(abs(a) * d == abs(c) * b) by (nonlinear_arith)
        requires
            a * d == c * b,
            b > 0,
            d > 0,
            abs(a) == (if a < 0 { -a } else { a }),
            abs(c) == (if c < 0 { -c } else { c }),
    ;
    assert(b * abs(c) == d * abs(a)) by (nonlinear_arith)
        requires
            abs(a) * d == abs(c) * b,
    ;
    assert(b * d == d * b) by (nonlinear_arith);
    lemma_gcd_greatest((d * abs(a)) as nat, (d * b) as nat, b);
}

/// Comparing two fractions gives `Equal` exactly when they are equal.
pub proof fn law_cmp_equal_iff_eq(a: Fraction, b: Fraction)
    requires
        storable(a.pair()),
        storable(b.pair()),
    ensures
        (a.partial_cmp_spec(&b) == Some(core::cmp::Ordering::Equal)) == a.eq_spec(&b),
{
    lemma_reduced_pair(a.pair());
    lemma_reduced_pair(b.pair());
    let (p, q) = (a.reduced(), b.reduced());
    let ga = spec_gcd(abs(a.num()), abs(a.den())) as int;
    let gb = spec_gcd(abs(b.num()), abs(b.den())) as int;
    assert(a.num() * b.den() == (ga * gb) * (p.0 * q.1)) by (nonlinear_arith)
        requires
            a.num() == ga * p.0,
            b.den() == gb * q.1,
    ;
    assert(b.num() * a.den() == (ga * gb) * (q.0 * p.1)) by (nonlinear_arith)
        requires
            b.num() == gb * q.0,
            a.den() == ga * p.1,
    ;
    assert(ga * gb > 0) by (nonlinear_arith)
        requires
            ga > 0,
            gb > 0,
    ;
    if a.num() * b.den() == b.num() * a.den() {
        lemma_mul_equality_converse(ga * gb, p.0 * q.1, q.0 * p.1);
        lemma_coprime_cross(p.0, p.1, q.0, q.1);
    }
}

} // verus!
