use vstd::prelude::*;

use fraction::Fraction;

use vstd::arithmetic::div_mod::{
    lemma_div_basics_5, lemma_fundamental_div_mod, lemma_mod_multiples_basic,
    lemma_mod_pos_bound, lemma_mod_self_0,
};

verus! {

/// A non-negative rational number `numer / denom`, as the `fraction` crate
/// computes it: every value produced by an arithmetic operation here is in
/// lowest terms.
#[derive(Clone, Copy, Debug, PartialEq, Eq, Structural)]
pub struct Rational {
    pub numer: u64,
    pub denom: u64,
}

impl Rational {
    /// The numerator and denominator as natural numbers.
    pub open spec fn pair(self) -> (nat, nat) {
        (self.numer as nat, self.denom as nat)
    }
}

/// Greatest common divisor, by Euclid's algorithm.
pub open spec fn gcd(a: nat, b: nat) -> nat
    decreases b,
{
    if b == 0 {
        a
    } else {
        proof {
            lemma_mod_pos_bound(a as int, b as int);
        }
        gcd(b, a % b)
    }
}

/// `n / d` in lowest terms; zero is `0 / 1`.
pub open spec fn reduced(n: nat, d: nat) -> (nat, nat) {
    if n == 0 {
        (0, 1)
    } else {
        let g = gcd(n, d);
        (n / g, d / g)
    }
}

/// Sum of two fractions, in lowest terms.
pub open spec fn frac_add(a: (nat, nat), b: (nat, nat)) -> (nat, nat) {
    reduced(a.0 * b.1 + b.0 * a.1, a.1 * b.1)
}

/// `a / d` for a positive integer `d`, in lowest terms.
pub open spec fn frac_div(a: (nat, nat), d: nat) -> (nat, nat) {
    reduced(a.0, a.1 * d)
}

/// `a * m` for an integer `m`, in lowest terms.
pub open spec fn frac_mul(a: (nat, nat), m: nat) -> (nat, nat) {
    reduced(a.0 * m, a.1)
}

/// `a <= b` as rational numbers (positive denominators).
pub open spec fn frac_le(a: (nat, nat), b: (nat, nat)) -> bool {
    a.0 * b.1 <= b.0 * a.1
}

/// The larger of `a` and `b`; `b` when they are equal.
pub open spec fn frac_max(a: (nat, nat), b: (nat, nat)) -> (nat, nat) {
    if frac_le(a, b) {
        b
    } else {
        a
    }
}

/// The pair `a` and the pair `b` denote the same number.
pub open spec fn same_value(a: (nat, nat), b: (nat, nat)) -> bool {
    a.0 * b.1 == b.0 * a.1
}

/// `Fraction::from` on a non-negative `i64`: the integer `n / 1`.
#[verifier::external_body]
pub(crate) fn fraction_from_int(n: i64) -> (r: Rational)
    requires
        n >= 0,
    ensures
        r.pair() == (n as nat, 1nat),
{
    let f = Fraction::from(n);
    Rational { numer: *f.numer().unwrap(), denom: *f.denom().unwrap() }
}

/// `Fraction + Fraction`. The sum is reduced to lowest terms; the bounds rule
/// out overflow of the `u64` products the addition forms.
#[verifier::external_body]
pub(crate) fn fraction_add(a: Rational, b: Rational) -> (r: Rational)
    requires
        a.denom > 0,
        b.denom > 0,
        a.numer * b.denom + b.numer * a.denom <= u64::MAX,
        a.denom * b.denom <= u64::MAX,
    ensures
        r.pair() == frac_add(a.pair(), b.pair()),
{
    let f = Fraction::new(a.numer, a.denom) + Fraction::new(b.numer, b.denom);
    Rational { numer: *f.numer().unwrap(), denom: *f.denom().unwrap() }
}

/// `Fraction / i64` by a positive divisor, reduced to lowest terms.
#[verifier::external_body]
pub(crate) fn fraction_div_int(a: Rational, d: i64) -> (r: Rational)
    requires
        a.denom > 0,
        d > 0,
        a.denom * d <= u64::MAX,
    ensures
        r.pair() == frac_div(a.pair(), d as nat),
{
    let f = Fraction::new(a.numer, a.denom) / d;
    Rational { numer: *f.numer().unwrap(), denom: *f.denom().unwrap() }
}

/// `Fraction * i64` by a non-negative factor, reduced to lowest terms.
#[verifier::external_body]
pub(crate) fn fraction_mul_int(a: Rational, m: i64) -> (r: Rational)
    requires
        a.denom > 0,
        m >= 0,
        a.numer * m <= u64::MAX,
    ensures
        r.pair() == frac_mul(a.pair(), m as nat),
{
    let f = Fraction::new(a.numer, a.denom) * m;
    Rational { numer: *f.numer().unwrap(), denom: *f.denom().unwrap() }
}

/// `Fraction <= Fraction`, which compares the exact values.
#[verifier::external_body]
pub(crate) fn fraction_le(a: Rational, b: Rational) -> (r: bool)
    requires
        a.denom > 0,
        b.denom > 0,
    ensures
        r == frac_le(a.pair(), b.pair()),
{
    Fraction::new(a.numer, a.denom) <= Fraction::new(b.numer, b.denom)
}

/// The larger of two values (the second when they are equal), as
/// `std::cmp::max` picks it.
pub fn rational_max(a: Rational, b: Rational) -> (r: Rational)
    requires
        a.denom > 0,
        b.denom > 0,
    ensures
        r.pair() == frac_max(a.pair(), b.pair()),
{
    if fraction_le(a, b) {
        b
    } else {
        a
    }
}

/// Strict comparison of two values.
pub fn rational_lt(a: Rational, b: Rational) -> (r: bool)
    requires
        a.denom > 0,
        b.denom > 0,
    ensures
        r == !frac_le(b.pair(), a.pair()),
{
    !fraction_le(b, a)
}

/// The sum of `a` and `b`, or `None` when forming it would overflow the
/// `u64` products of fraction addition.
pub fn rational_add_checked(a: Rational, b: Rational) -> (r: Option<Rational>)
    requires
        a.denom > 0,
        b.denom > 0,
    ensures
        r is None <==> !(a.numer * b.denom + b.numer * a.denom <= u64::MAX && a.denom * b.denom <= u64::MAX),
        r matches Some(s) ==> s.pair() == frac_add(a.pair(), b.pair()) && s.denom > 0,
{
    proof {
        lemma_u64_product(a.numer, b.denom);
        lemma_u64_product(b.numer, a.denom);
        lemma_u64_product(a.denom, b.denom);
    }
    let p1 = (a.numer as u128) * (b.denom as u128);
    let p2 = (b.numer as u128) * (a.denom as u128);
    let dd = (a.denom as u128) * (b.denom as u128);
    if p1 > u64::MAX as u128 || p2 > u64::MAX as u128 - p1 || dd > u64::MAX as u128 {
        return None;
    }
    proof {
        assert(a.denom * b.denom > 0) by (nonlinear_arith)
            requires
                a.denom > 0,
                b.denom > 0,
        ;
        lemma_reduced((a.numer * b.denom + b.numer * a.denom) as nat, (a.denom * b.denom) as nat);
    }
    Some(fraction_add(a, b))
}

/// A product of two `u64` values fits in `u128`.
proof fn lemma_u64_product(x: u64, y: u64)
    ensures
        0 <= x * y <= u64::MAX * u64::MAX,
        u64::MAX * u64::MAX < u128::MAX,
{
    assert(0 <= x * y <= u64::MAX * u64::MAX) by (nonlinear_arith)
        requires
            0 <= x <= u64::MAX,
            0 <= y <= u64::MAX,
    ;
}

/// The greatest common divisor is positive and divides both arguments.
pub proof fn lemma_gcd_divides(a: nat, b: nat)
    requires
        a > 0 || b > 0,
    ensures
        gcd(a, b) >= 1,
        a % gcd(a, b) == 0,
        b % gcd(a, b) == 0,
    decreases b,
{
    if b == 0 {
        lemma_mod_self_0(a as int);
    } else {
        let r = a % b;
        lemma_mod_pos_bound(a as int, b as int);
        lemma_gcd_divides(b, r);
        let g = gcd(b, r);
        assert(gcd(a, b) == g);
        lemma_fundamental_div_mod(a as int, b as int);
        lemma_fundamental_div_mod(b as int, g as int);
        lemma_fundamental_div_mod(r as int, g as int);
        let bq = b as int / g as int;
        let rq = r as int / g as int;
        let aq = a as int / b as int;
        let q = bq * aq + rq;
        assert(a == q * g) by (nonlinear_arith)
            requires
                a == b * aq + r,
                b == g * bq,
                r == g * rq,
                q == bq * aq + rq,
        ;
        lemma_mod_multiples_basic(q, g as int);
    }
}

/// Every fraction is at most itself.
pub proof fn lemma_frac_le_refl(a: (nat, nat))
    ensures
        frac_le(a, a),
{
}

/// `<=` on fractions with positive denominators is transitive.
pub proof fn lemma_frac_le_trans(a: (nat, nat), b: (nat, nat), c: (nat, nat))
    requires
        a.1 > 0,
        b.1 > 0,
        c.1 > 0,
        frac_le(a, b),
        frac_le(b, c),
    ensures
        frac_le(a, c),
{
    let (a0, a1, b0, b1, c0, c1) = (a.0 as int, a.1 as int, b.0 as int, b.1 as int, c.0 as int, c.1 as int);
    assert(a0 * c1 <= c0 * a1) by (nonlinear_arith)
        requires
            a0 >= 0,
            c0 >= 0,
            a1 > 0,
            b1 > 0,
            c1 > 0,
            a0 * b1 <= b0 * a1,
            b0 * c1 <= c0 * b1,
    {
        assert(a0 * b1 * c1 <= b0 * a1 * c1);
        assert(b0 * c1 * a1 <= c0 * b1 * a1);
        assert(a0 * c1 * b1 <= c0 * a1 * b1);
    }
}

/// Adding a fraction with a positive denominator never makes a fraction
/// smaller.
pub proof fn lemma_add_grows(a: (nat, nat), b: (nat, nat))
    requires
        a.1 > 0,
        b.1 > 0,
    ensures
        frac_le(a, frac_add(a, b)),
        frac_add(a, b).1 > 0,
{
    let n = a.0 * b.1 + b.0 * a.1;
    let d = a.1 * b.1;
    assert(d > 0) by (nonlinear_arith)
        requires
            a.1 > 0,
            b.1 > 0,
            d == a.1 * b.1,
    ;
    lemma_reduced(n, d);
    let r = reduced(n, d);
    let (a0, a1, b0, b1, r0, r1) = (a.0 as int, a.1 as int, b.0 as int, b.1 as int, r.0 as int, r.1 as int);
    assert(a0 * r1 <= r0 * a1) by (nonlinear_arith)
        requires
            a0 >= 0,
            b0 >= 0,
            a1 > 0,
            b1 > 0,
            r1 > 0,
            r0 * (a1 * b1) == (a0 * b1 + b0 * a1) * r1,
    {
        assert((a0 * b1 + b0 * a1) * r1 >= a0 * b1 * r1);
        assert(r0 * a1 * b1 >= a0 * r1 * b1);
    }
}

/// Reducing keeps the value, with a positive denominator, and never grows
/// the numerator or the denominator.
pub proof fn lemma_reduced(n: nat, d: nat)
    requires
        d > 0,
    ensures
        reduced(n, d).1 > 0,
        reduced(n, d).0 <= n,
        reduced(n, d).1 <= d,
        same_value(reduced(n, d), (n, d)),
{
    if n > 0 {
        lemma_gcd_divides(n, d);
        let g = gcd(n, d);
        lemma_fundamental_div_mod(n as int, g as int);
        lemma_fundamental_div_mod(d as int, g as int);
        let nq = n as int / g as int;
        let dq = d as int / g as int;
        lemma_div_basics_5(n as int, g as int);
        lemma_div_basics_5(d as int, g as int);
        assert(dq > 0) by (nonlinear_arith)
            requires
                d == g * dq,
                d > 0,
                g >= 1,
        ;
        assert(nq * d == n * dq) by (nonlinear_arith)
            requires
                n == g * nq,
                d == g * dq,
        ;
    }
}


/// Multiplying by a positive number keeps `<=`.
proof fn lemma_mul_le_iff(u: int, v: int, k: int)
    requires
        k > 0,
    ensures
        (u <= v) == (u * k <= v * k),
{
    if u <= v {
        assert(u * k <= v * k) by (nonlinear_arith)
            requires
                u <= v,
                k > 0,
        ;
    } else {
        assert(v * k < u * k) by (nonlinear_arith)
            requires
                v < u,
                k > 0,
        ;
    }
}

/// Pairs with the same values compare as their values do.
pub proof fn lemma_le_same_value(x: (nat, nat), a: (nat, nat), y: (nat, nat), b: (nat, nat))
    requires
        same_value(x, a),
        same_value(y, b),
        x.1 > 0,
        a.1 > 0,
        y.1 > 0,
        b.1 > 0,
    ensures
        frac_le(y, x) == frac_le(b, a),
{
    let (a0, a1, b0, b1, x0, x1, y0, y1) = (a.0 as int, a.1 as int, b.0 as int, b.1 as int, x.0 as int, x.1 as int, y.0 as int, y.1 as int);
    let k = a1 * b1;
    let m = x1 * y1;
    assert(k > 0 && m > 0) by (nonlinear_arith)
        requires
            a1 > 0,
            b1 > 0,
            x1 > 0,
            y1 > 0,
            k == a1 * b1,
            m == x1 * y1,
    ;
    lemma_mul_le_iff(y0 * x1, x0 * y1, k);
    lemma_mul_le_iff(b0 * a1, a0 * b1, m);
    assert(y0 * x1 * k == b0 * a1 * m) by (nonlinear_arith)
        requires
            y0 * b1 == b0 * y1,
            k == a1 * b1,
            m == x1 * y1,
    {
        assert(y0 * x1 * (a1 * b1) == (y0 * b1) * (x1 * a1));
        assert(b0 * a1 * (x1 * y1) == (b0 * y1) * (x1 * a1));
    }
    assert(x0 * y1 * k == a0 * b1 * m) by (nonlinear_arith)
        requires
            x0 * a1 == a0 * x1,
            k == a1 * b1,
            m == x1 * y1,
    {
        assert(x0 * y1 * (a1 * b1) == (x0 * a1) * (y1 * b1));
        assert(a0 * b1 * (x1 * y1) == (a0 * x1) * (y1 * b1));
    }
}

/// `(p * q + r * s) * (x * y)` split into two products.
proof fn lemma_sum_product(p: int, q: int, r: int, s: int, x: int, y: int)
    ensures
        (p * q + r * s) * (x * y) == (p * x) * (q * y) + (r * y) * (s * x),
{
    vstd::arithmetic::mul::lemma_mul_is_distributive_add_other_way(x * y, p * q, r * s);
    assert(p * q * (x * y) == (p * x) * (q * y)) by (nonlinear_arith);
    assert(r * s * (x * y) == (r * y) * (s * x)) by (nonlinear_arith);
}

/// Adding larger fractions gives a larger sum.
pub proof fn lemma_add_mono(a: (nat, nat), b: (nat, nat), a2: (nat, nat), b2: (nat, nat))
    requires
        a.1 > 0,
        b.1 > 0,
        a2.1 > 0,
        b2.1 > 0,
        frac_le(a, a2),
        frac_le(b, b2),
    ensures
        frac_le(frac_add(a, b), frac_add(a2, b2)),
{
    let (a0, a1, b0, b1) = (a.0 as int, a.1 as int, b.0 as int, b.1 as int);
    let (c0, c1, e0, e1) = (a2.0 as int, a2.1 as int, b2.0 as int, b2.1 as int);
    let n = a.0 * b.1 + b.0 * a.1;
    let d = a.1 * b.1;
    let n2 = a2.0 * b2.1 + b2.0 * a2.1;
    let d2 = a2.1 * b2.1;
    let u = b1 * e1;
    let v = a1 * c1;
    assert(d > 0 && d2 > 0 && u > 0 && v > 0) by (nonlinear_arith)
        requires
            a1 > 0,
            b1 > 0,
            c1 > 0,
            e1 > 0,
            d == a1 * b1,
            d2 == c1 * e1,
            u == b1 * e1,
            v == a1 * c1,
    ;
    lemma_sum_product(a0, b1, b0, a1, c1, e1);
    lemma_sum_product(c0, e1, e0, c1, a1, b1);
    assert(n * d2 == (a0 * c1) * u + (b0 * e1) * v);
    assert(n2 * d == (c0 * a1) * u + (e0 * b1) * v);
    lemma_mul_le_iff(a0 * c1, c0 * a1, u);
    lemma_mul_le_iff(b0 * e1, e0 * b1, v);
    lemma_reduced(n, d);
    lemma_reduced(n2, d2);
    let r = reduced(n, d);
    let q = reduced(n2, d2);
    lemma_le_same_value(q, (n2, d2), r, (n, d));
}

/// Each of two fractions is at most the larger of them.
pub proof fn lemma_le_max(a: (nat, nat), b: (nat, nat))
    requires
        a.1 > 0,
        b.1 > 0,
    ensures
        frac_le(a, frac_max(a, b)),
        frac_le(b, frac_max(a, b)),
        frac_max(a, b) == a || frac_max(a, b) == b,
{
    lemma_frac_le_refl(a);
    lemma_frac_le_refl(b);
}

/// Adding zero keeps a fraction's value.
pub proof fn lemma_add_zero(a: (nat, nat))
    requires
        a.1 > 0,
    ensures
        same_value(frac_add(a, (0nat, 1nat)), a),
        same_value(frac_add((0nat, 1nat), a), a),
        frac_add(a, (0nat, 1nat)).1 > 0,
        frac_add((0nat, 1nat), a).1 > 0,
{
    assert(a.0 * 1 + 0 * a.1 == a.0);
    assert(0 * a.1 + a.0 * 1 == a.0);
    assert(a.1 * 1 == a.1);
    assert(1 * a.1 == a.1);
    lemma_reduced(a.0, a.1);
}

} // verus!
