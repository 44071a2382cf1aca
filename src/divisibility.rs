use vstd::arithmetic::div_mod::*;
use vstd::prelude::*;

verus! {

/// `d` divides `x`: some integer multiple of `d` is `x`.
pub open spec fn divides(d: int, x: int) -> bool {
    exists|k: int| #[trigger] (d * k) == x
}

/// The greatest common divisor of two natural numbers, by Euclid's recurrence.
pub open spec fn spec_gcd(a: nat, b: nat) -> nat
    decreases b,
{
    if b == 0 {
        a
    } else {
        spec_gcd(b, a % b)
    }
}

/// The gcd divides both of its arguments.
pub proof fn lemma_gcd_divides(a: nat, b: nat)
    ensures
        divides(spec_gcd(a, b) as int, a as int),
        divides(spec_gcd(a, b) as int, b as int),
    decreases b,
{
    if b == 0 {
        assert(a * 1 == a);
        assert(a * 0 == 0);
    } else {
        let r = a % b;
        let g = spec_gcd(a, b) as int;
        lemma_gcd_divides(b, r);
        lemma_fundamental_div_mod(a as int, b as int);
        let q = a as int / b as int;
        let k1 = choose|k: int| #[trigger] (g * k) == b;
        let k2 = choose|k: int| #[trigger] (g * k) == r;
        assert(g * (k1 * q + k2) == a) by (nonlinear_arith)
            requires
                a == b * q + r,
                g * k1 == b,
                g * k2 == r,
        ;
    }
}

/// Every common divisor of `a` and `b` divides their gcd.
pub proof fn lemma_gcd_greatest(a: nat, b: nat, d: int)
    requires
        divides(d, a as int),
        divides(d, b as int),
    ensures
        divides(d, spec_gcd(a, b) as int),
    decreases b,
{
    if b != 0 {
        let r = a % b;
        lemma_fundamental_div_mod(a as int, b as int);
        let q = a as int / b as int;
        let ka = choose|k: int| #[trigger] (d * k) == a;
        let kb = choose|k: int| #[trigger] (d * k) == b;
        assert(d * (ka - kb * q) == r) by (nonlinear_arith)
            requires
                a == b * q + r,
                d * ka == a,
                d * kb == b,
        ;
        lemma_gcd_greatest(b, r, d);
    }
}

/// A positive multiple of a positive `d` is at least `d`.
pub proof fn lemma_divides_le(d: int, x: int)
    requires
        d > 0,
        x > 0,
        divides(d, x),
    ensures
        d <= x,
{
    let k = choose|k: int| #[trigger] (d * k) == x;
    assert(d <= x) by (nonlinear_arith)
        requires
            d > 0,
            x > 0,
            d * k == x,
    ;
}

/// The gcd is positive unless both arguments are zero.
pub proof fn lemma_gcd_pos(a: nat, b: nat)
    requires
        a > 0 || b > 0,
    ensures
        spec_gcd(a, b) > 0,
    decreases b,
{
    if b != 0 {
        lemma_gcd_pos(b, a % b);
    }
}

/// The gcd of `a > 0` and any `b` is at most `a`.
pub proof fn lemma_gcd_le(a: nat, b: nat)
    requires
        a > 0,
    ensures
        spec_gcd(a, b) <= a,
{
    lemma_gcd_pos(a, b);
    lemma_gcd_divides(a, b);
    lemma_divides_le(spec_gcd(a, b) as int, a as int);
}

/// The gcd does not depend on the order of its arguments.
pub proof fn lemma_gcd_symmetric(a: nat, b: nat)
    ensures
        spec_gcd(a, b) == spec_gcd(b, a),
{
    if a < b {
        lemma_small_mod(a, b);
        assert(spec_gcd(a, b) == spec_gcd(b, a % b));
    } else if a > b {
        lemma_small_mod(b, a);
        assert(spec_gcd(b, a) == spec_gcd(a, b % a));
    }
}

/// Subtracting the smaller argument from the larger keeps the gcd.
pub proof fn lemma_gcd_sub(a: nat, b: nat)
    requires
        a >= b,
    ensures
        spec_gcd(a, b) == spec_gcd((a - b) as nat, b),
{
    if b != 0 {
        lemma_fundamental_div_mod(a as int, b as int);
        let q = a as int / b as int;
        let r = a as int % b as int;
        assert(a - b == (q - 1) * b + r) by (nonlinear_arith)
            requires
                a == b * q + r,
        ;
        lemma_fundamental_div_mod_converse_mod(a - b, b as int, q - 1, r);
    }
}

/// Scaling both arguments by `k > 0` scales the gcd by `k`.
pub proof fn lemma_gcd_scale(k: nat, a: nat, b: nat)
    requires
        k > 0,
    ensures
        spec_gcd((k * a) as nat, (k * b) as nat) == k * spec_gcd(a, b),
    decreases b,
{
    if b != 0 {
        lemma_fundamental_div_mod(a as int, b as int);
        let q = a as int / b as int;
        let r = a as int % b as int;
        assert(k * a == q * (k * b) + k * r && 0 <= k * r < k * b) by (nonlinear_arith)
            requires
                a == b * q + r,
                0 <= r < b,
                k > 0,
        ;
        lemma_fundamental_div_mod_converse_mod((k * a) as int, (k * b) as int, q, k * r);
        lemma_gcd_scale(k, b, r as nat);
        assert((k * b) as nat != 0) by (nonlinear_arith)
            requires
                k > 0,
                b > 0,
        ;
    }
}

/// Two positive numbers that divide each other are equal.
pub proof fn lemma_divides_antisymmetric(x: int, y: int)
    requires
        x > 0,
        y > 0,
        divides(x, y),
        divides(y, x),
    ensures
        x == y,
{
    lemma_divides_le(x, y);
    lemma_divides_le(y, x);
}

/// Halving an even argument keeps the gcd when the other argument is odd.
pub proof fn lemma_gcd_halve(a: nat, b: nat)
    requires
        a % 2 == 0,
        b % 2 == 1,
    ensures
        spec_gcd(a, b) == spec_gcd(a / 2, b),
{
    let big = spec_gcd(a, b) as int;
    let small = spec_gcd(a / 2, b) as int;
    lemma_gcd_pos(a, b);
    lemma_gcd_pos(a / 2, b);
    lemma_gcd_divides(a / 2, b);
    let ks = choose|k: int| #[trigger] (small * k) == a / 2;
    assert(small * (2 * ks) == a) by (nonlinear_arith)
        requires
            small * ks == a / 2,
            a % 2 == 0,
    ;
    lemma_gcd_greatest(a, b, small);
    lemma_gcd_divides(a, b);
    let kb = choose|k: int| #[trigger] (big * k) == b;
    if big % 2 == 0 {
        assert(b == 2 * ((big / 2) * kb)) by (nonlinear_arith)
            requires
                big % 2 == 0,
                big * kb == b,
        ;
    }
    let m = choose|k: int| #[trigger] (big * k) == a;
    if m % 2 == 1 {
        assert(a == 2 * (2 * (big / 2) * (m / 2) + big / 2 + m / 2) + 1) by (nonlinear_arith)
            requires
                big % 2 == 1,
                m % 2 == 1,
                big * m == a,
        ;
    }
    assert(big * (m / 2) == a / 2) by (nonlinear_arith)
        requires
            m % 2 == 0,
            big * m == a,
    ;
    lemma_gcd_greatest(a / 2, b, big);
    lemma_divides_antisymmetric(big, small);
}

} // verus!
