//! Exact rational numbers over fixed-width integers.
//!
//! A value is kept in canonical form at all times: the denominator is
//! positive and the magnitudes of numerator and denominator are coprime.
//! Arithmetic computes cross products in 128-bit intermediates, so the only
//! failure conditions are a zero denominator and a reduced result that does
//! not fit the 64-bit representation.

use core::cmp::Ordering;
use vstd::prelude::*;
use vstd::math::abs;
use vstd::arithmetic::div_mod::{lemma_div_multiples_vanish, lemma_div_basics};
use vstd::arithmetic::power::{pow, lemma_pow_positive, lemma_pow_increases};
use crate::num_theory::{gcd, coprime, divides, greatest_common_divisor, lemma_gcd_positive,
    lemma_gcd_divides, lemma_gcd_quotients_coprime, lemma_reduced_unique, is_square, is_cube,
    integer_sqrt, integer_cbrt, lemma_coprime_of_divisors, lemma_coprime_pow_both, lemma_pow_abs};
use crate::error::MathError;

verus! {

/// A mathematical fraction: the specification-level value of a rational.
/// The denominator is not constrained here; spec functions that consume a
/// `Frac` state their own expectations.
pub ghost struct Frac {
    pub num: int,
    pub den: int,
}

/// Two fractions denote the same rational number (cross multiplication;
/// meaningful when both denominators are nonzero).
pub open spec fn frac_eq(a: Frac, b: Frac) -> bool {
    a.num * b.den == b.num * a.den
}

/// `a` denotes a strictly smaller rational than `b` (meaningful when both
/// denominators are positive).
pub open spec fn frac_lt(a: Frac, b: Frac) -> bool {
    a.num * b.den < b.num * a.den
}

pub open spec fn frac_add(a: Frac, b: Frac) -> Frac {
    Frac { num: a.num * b.den + a.den * b.num, den: a.den * b.den }
}

pub open spec fn frac_neg(a: Frac) -> Frac {
    Frac { num: -a.num, den: a.den }
}

pub open spec fn frac_sub(a: Frac, b: Frac) -> Frac {
    frac_add(a, frac_neg(b))
}

pub open spec fn frac_mul(a: Frac, b: Frac) -> Frac {
    Frac { num: a.num * b.num, den: a.den * b.den }
}

/// The reciprocal swaps numerator and denominator.
pub open spec fn frac_recip(a: Frac) -> Frac {
    Frac { num: a.den, den: a.num }
}

pub open spec fn frac_div(a: Frac, b: Frac) -> Frac {
    frac_mul(a, frac_recip(b))
}

/// The fraction for a plain integer.
pub open spec fn frac_int(k: int) -> Frac {
    Frac { num: k, den: 1 }
}

/// Canonical form: positive denominator, numerator and denominator coprime.
pub open spec fn is_reduced(f: Frac) -> bool {
    f.den > 0 && coprime(abs(f.num), f.den as nat)
}

/// The canonical representative of a fraction: sign moved to the numerator,
/// both parts divided by their greatest common divisor. Meaningful when the
/// denominator is nonzero.
pub open spec fn canon(f: Frac) -> Frac {
    let g = gcd(abs(f.num), abs(f.den)) as int;
    let m = abs(f.num) as int / g;
    let d = abs(f.den) as int / g;
    if (f.num < 0) == (f.den < 0) {
        Frac { num: m, den: d }
    } else {
        Frac { num: -m, den: d }
    }
}

/// The canonical form of a result fits the 64-bit representation.
pub open spec fn fits_i64(f: Frac) -> bool {
    -(i64::MAX as int) <= f.num <= i64::MAX as int && f.den <= i64::MAX as int
}

/// Canonicalizing yields a reduced fraction.
pub proof fn lemma_canon_reduced(f: Frac)
    requires
        f.den != 0,
    ensures
        is_reduced(canon(f)),
        abs(canon(f).num) == abs(f.num) as int / gcd(abs(f.num), abs(f.den)) as int,
{
    let a = abs(f.num);
    let b = abs(f.den);
    lemma_gcd_positive(a, b);
    let g = gcd(a, b) as int;
    lemma_gcd_divides(a, b);
    let ka = choose|k: int| a as int == #[trigger] (k * g);
    let kb = choose|k: int| b as int == #[trigger] (k * g);
    lemma_div_multiples_vanish(ka, g);
    lemma_div_multiples_vanish(kb, g);
    assert(a as int / g == ka);
    assert(b as int / g == kb);
    assert(ka >= 0) by (nonlinear_arith)
        requires
            a as int == ka * g,
            g > 0,
            a >= 0,
    ;
    assert(kb >= 1) by (nonlinear_arith)
        requires
            b as int == kb * g,
            g > 0,
            b >= 1,
    ;
    lemma_gcd_quotients_coprime(a, b);
    assert(abs(canon(f).num) == ka);
}

/// Canonicalizing preserves the denoted rational number.
pub proof fn lemma_canon_cross(f: Frac)
    requires
        f.den != 0,
    ensures
        frac_eq(canon(f), f),
{
    let a = abs(f.num);
    let b = abs(f.den);
    lemma_gcd_positive(a, b);
    let g = gcd(a, b) as int;
    lemma_gcd_divides(a, b);
    let ka = choose|k: int| a as int == #[trigger] (k * g);
    let kb = choose|k: int| b as int == #[trigger] (k * g);
    lemma_div_multiples_vanish(ka, g);
    lemma_div_multiples_vanish(kb, g);
    assert(a as int / g == ka);
    assert(b as int / g == kb);
    if f.num >= 0 {
        if f.den > 0 {
            assert(ka * f.den == f.num * kb) by (nonlinear_arith)
                requires
                    f.num == a,
                    f.den == b,
                    a as int == ka * g,
                    b as int == kb * g,
            ;
        } else {
            assert((-ka) * f.den == f.num * kb) by (nonlinear_arith)
                requires
                    f.num == a,
                    f.den == -(b as int),
                    a as int == ka * g,
                    b as int == kb * g,
            ;
        }
    } else {
        if f.den > 0 {
            assert((-ka) * f.den == f.num * kb) by (nonlinear_arith)
                requires
                    f.num == -(a as int),
                    f.den == b,
                    a as int == ka * g,
                    b as int == kb * g,
            ;
        } else {
            assert(ka * f.den == f.num * kb) by (nonlinear_arith)
                requires
                    f.num == -(a as int),
                    f.den == -(b as int),
                    a as int == ka * g,
                    b as int == kb * g,
            ;
        }
    }
}

/// A fraction already in canonical form is its own canonical representative.
pub proof fn lemma_canon_identity(f: Frac)
    requires
        is_reduced(f),
    ensures
        canon(f) == f,
{
    let a = abs(f.num);
    assert(abs(f.den) == f.den as nat);
    assert(gcd(a, abs(f.den)) == 1);
    lemma_div_basics(a as int);
    lemma_div_basics(f.den as int);
}

/// Equality of denoted rationals is transitive when denominators are
/// nonzero.
pub proof fn lemma_frac_eq_transitive(a: Frac, b: Frac, c: Frac)
    requires
        a.den != 0,
        b.den != 0,
        c.den != 0,
        frac_eq(a, b),
        frac_eq(b, c),
    ensures
        frac_eq(a, c),
{
    assert(a.num * c.den == c.num * a.den) by (nonlinear_arith)
        requires
            a.num * b.den == b.num * a.den,
            b.num * c.den == c.num * b.den,
            b.den != 0,
    ;
}

/// Two reduced fractions denoting the same rational are identical.
pub proof fn lemma_reduced_eq_identical(a: Frac, b: Frac)
    requires
        is_reduced(a),
        is_reduced(b),
        frac_eq(a, b),
    ensures
        a == b,
{
    lemma_reduced_unique(a.num, a.den, b.num, b.den);
}

/// Canonical-form invariant: for any numerator and nonzero denominator, the
/// canonical representative that construction and reduction produce has a
/// positive denominator and coprime numerator and denominator magnitudes.
pub proof fn lemma_canonical_form(n: int, d: int)
    requires
        d != 0,
    ensures
        canon(Frac { num: n, den: d }).den > 0,
        coprime(abs(canon(Frac { num: n, den: d }).num), canon(Frac { num: n, den: d }).den as nat),
        frac_eq(canon(Frac { num: n, den: d }), Frac { num: n, den: d }),
{
    lemma_canon_reduced(Frac { num: n, den: d });
    lemma_canon_cross(Frac { num: n, den: d });
}

/// Addition of rationals is commutative.
pub proof fn lemma_add_commutative(a: Frac, b: Frac)
    requires
        a.den != 0,
        b.den != 0,
    ensures
        frac_eq(frac_add(a, b), frac_add(b, a)),
{
    assert((a.num * b.den + a.den * b.num) * (b.den * a.den) == (b.num * a.den + b.den * a.num) * (
    a.den * b.den)) by (nonlinear_arith);
}

/// Addition of rationals is associative.
pub proof fn lemma_add_associative(a: Frac, b: Frac, c: Frac)
    requires
        a.den != 0,
        b.den != 0,
        c.den != 0,
    ensures
        frac_eq(frac_add(frac_add(a, b), c), frac_add(a, frac_add(b, c))),
{
    let left = frac_add(frac_add(a, b), c);
    let right = frac_add(a, frac_add(b, c));
    lemma_ring_assoc(a.num, a.den, b.num, b.den, c.num, c.den);
    assert(left.num == right.num);
    assert(left.den == right.den) by (nonlinear_arith)
        requires
            left.den == (a.den * b.den) * c.den,
            right.den == a.den * (b.den * c.den),
    ;
    assert(left.num * right.den == right.num * left.den) by (nonlinear_arith)
        requires
            left.num == right.num,
            left.den == right.den,
    ;
}

/// Multiplication distributes over addition.
pub proof fn lemma_mul_distributive(a: Frac, b: Frac, c: Frac)
    requires
        a.den != 0,
        b.den != 0,
        c.den != 0,
    ensures
        frac_eq(frac_mul(a, frac_add(b, c)), frac_add(frac_mul(a, b), frac_mul(a, c))),
{
    let left = frac_mul(a, frac_add(b, c));
    let right = frac_add(frac_mul(a, b), frac_mul(a, c));
    lemma_ring_distrib(a.num, a.den, b.num, b.den, c.num, c.den);
    assert(right.num == a.den * left.num);
    assert(right.den == a.den * left.den) by (nonlinear_arith)
        requires
            left.den == a.den * (b.den * c.den),
            right.den == (a.den * b.den) * (a.den * c.den),
    ;
    assert(left.num * right.den == right.num * left.den) by (nonlinear_arith)
        requires
            right.num == a.den * left.num,
            right.den == a.den * left.den,
    ;
}

/// Ring identity behind associativity of rational addition.
proof fn lemma_ring_assoc(an: int, ad: int, bn: int, bd: int, cn: int, cd: int)
    ensures
        (an * bd + ad * bn) * cd + (ad * bd) * cn == an * (bd * cd) + ad * (bn * cd + bd * cn),
{
    broadcast use vstd::arithmetic::mul::group_mul_properties;

}

/// Ring identity behind distributivity of rational multiplication.
proof fn lemma_ring_distrib(an: int, ad: int, bn: int, bd: int, cn: int, cd: int)
    ensures
        (an * bn) * (ad * cd) + (ad * bd) * (an * cn) == ad * (an * (bn * cd + bd * cn)),
{
    broadcast use vstd::arithmetic::mul::group_mul_properties;

}

/// Multiplication of rationals is commutative.
pub proof fn lemma_mul_commutative(a: Frac, b: Frac)
    requires
        a.den != 0,
        b.den != 0,
    ensures
        frac_eq(frac_mul(a, b), frac_mul(b, a)),
{
    assert((a.num * b.num) * (b.den * a.den) == (b.num * a.num) * (a.den * b.den))
        by (nonlinear_arith);
}

/// Subtracting a rational from itself yields zero.
pub proof fn lemma_sub_self_zero(a: Frac)
    requires
        a.den != 0,
    ensures
        frac_eq(frac_sub(a, a), frac_int(0)),
{
    assert((a.num * a.den + a.den * -a.num) * 1 == 0 * (a.den * a.den)) by (nonlinear_arith);
}

/// Dividing a nonzero rational by itself yields one.
pub proof fn lemma_div_self_one(a: Frac)
    requires
        a.den != 0,
        a.num != 0,
    ensures
        frac_eq(frac_div(a, a), frac_int(1)),
{
    assert((a.num * a.den) * 1 == 1 * (a.den * a.num)) by (nonlinear_arith);
}

/// The view of any rational lies within the 64-bit range; in particular a
/// canonical value fits the representation.
pub proof fn lemma_view_bounds(c: Rational)
    ensures
        i64::MIN as int <= c@.num <= i64::MAX as int,
        i64::MIN as int <= c@.den <= i64::MAX as int,
        c.wf() ==> fits_i64(c@),
{
}

/// The canonical form of a nonzero fraction is nonzero.
pub proof fn lemma_canon_nonzero(f: Frac)
    requires
        f.den != 0,
        f.num != 0,
    ensures
        canon(f).num != 0,
{
    lemma_canon_reduced(f);
    lemma_canon_cross(f);
    if canon(f).num == 0 {
        assert(canon(f).num * f.den == f.num * canon(f).den);
        assert(f.num * canon(f).den != 0) by (nonlinear_arith)
            requires
                f.num != 0,
                canon(f).den > 0,
        ;
        assert(canon(f).num * f.den == 0) by (nonlinear_arith)
            requires
                canon(f).num == 0,
        ;
    }
}

/// Negations of equal rationals are equal.
pub proof fn lemma_frac_neg_congruence(a: Frac, a2: Frac)
    requires
        frac_eq(a, a2),
    ensures
        frac_eq(frac_neg(a), frac_neg(a2)),
{
    assert((-a.num) * a2.den == (-a2.num) * a.den) by (nonlinear_arith)
        requires
            a.num * a2.den == a2.num * a.den,
    ;
}

/// Equal rationals have the same sign relative to zero.
pub proof fn lemma_sign_transfer(f: Frac, g: Frac)
    requires
        f.den > 0,
        g.den > 0,
        frac_eq(f, g),
    ensures
        frac_lt(f, frac_int(0)) <==> frac_lt(g, frac_int(0)),
        frac_lt(frac_int(0), f) <==> frac_lt(frac_int(0), g),
        frac_eq(f, frac_int(0)) <==> frac_eq(g, frac_int(0)),
{
    assert((f.num < 0 <==> g.num < 0) && (f.num > 0 <==> g.num > 0) && (f.num == 0 <==> g.num
        == 0)) by (nonlinear_arith)
        requires
            f.num * g.den == g.num * f.den,
            f.den > 0,
            g.den > 0,
    ;
    assert(f.num * 1 == f.num && 0 * f.den == 0 && g.num * 1 == g.num && 0 * g.den == 0)
        by (nonlinear_arith);
}

/// The canonical form of a zero fraction is the canonical zero.
pub proof fn lemma_canon_zero(d: int)
    requires
        d != 0,
    ensures
        canon(Frac { num: 0, den: d }) == frac_int(0),
{
    crate::num_theory::lemma_gcd_zero_left(abs(d));
    lemma_div_basics(abs(d) as int);
    assert(0int / (abs(d) as int) == 0) by (nonlinear_arith)
        requires
            abs(d) >= 1,
    ;
}

/// The view determines the value: two rationals with equal views are the
/// same value.
pub proof fn lemma_view_injective(a: Rational, b: Rational)
    ensures
        a@ == b@ <==> a == b,
{
}

/// Replacing the left summand by an equal rational leaves the sum equal.
pub proof fn lemma_frac_add_congruence_left(a: Frac, a2: Frac, b: Frac)
    requires
        a.den != 0,
        a2.den != 0,
        b.den != 0,
        frac_eq(a, a2),
    ensures
        frac_eq(frac_add(a, b), frac_add(a2, b)),
{
    assert((a.num * b.den + a.den * b.num) * (a2.den * b.den) == (a2.num * b.den + a2.den * b.num)
        * (a.den * b.den)) by (nonlinear_arith)
        requires
            a.num * a2.den == a2.num * a.den,
    ;
}

/// Sums of equal rationals are equal.
pub proof fn lemma_frac_add_congruence(a: Frac, a2: Frac, b: Frac, b2: Frac)
    requires
        a.den != 0,
        a2.den != 0,
        b.den != 0,
        b2.den != 0,
        frac_eq(a, a2),
        frac_eq(b, b2),
    ensures
        frac_eq(frac_add(a, b), frac_add(a2, b2)),
{
    lemma_frac_nonzero_den(a, b);
    lemma_frac_nonzero_den(a2, b);
    lemma_frac_nonzero_den(b, a2);
    lemma_frac_nonzero_den(b2, a2);
    lemma_frac_nonzero_den(a2, b2);
    lemma_frac_add_congruence_left(a, a2, b);
    lemma_add_commutative(a2, b);
    lemma_frac_add_congruence_left(b, b2, a2);
    lemma_add_commutative(b2, a2);
    lemma_frac_eq_transitive(frac_add(a, b), frac_add(a2, b), frac_add(b, a2));
    lemma_frac_eq_transitive(frac_add(a, b), frac_add(b, a2), frac_add(b2, a2));
    lemma_frac_eq_transitive(frac_add(a, b), frac_add(b2, a2), frac_add(a2, b2));
}

/// Reciprocals of equal rationals are equal.
pub proof fn lemma_frac_recip_congruence(a: Frac, b: Frac)
    requires
        frac_eq(a, b),
    ensures
        frac_eq(frac_recip(a), frac_recip(b)),
{
    assert(a.den * b.num == b.den * a.num) by (nonlinear_arith)
        requires
            a.num * b.den == b.num * a.den,
    ;
}

/// Differences of equal rationals are equal.
pub proof fn lemma_frac_sub_congruence(a: Frac, a2: Frac, b: Frac, b2: Frac)
    requires
        a.den != 0,
        a2.den != 0,
        b.den != 0,
        b2.den != 0,
        frac_eq(a, a2),
        frac_eq(b, b2),
    ensures
        frac_eq(frac_sub(a, b), frac_sub(a2, b2)),
{
    lemma_frac_neg_congruence(b, b2);
    lemma_frac_add_congruence(a, a2, frac_neg(b), frac_neg(b2));
}

/// Replacing the left factor by an equal rational leaves the product
/// equal.
pub proof fn lemma_frac_mul_congruence_left(a: Frac, a2: Frac, b: Frac)
    requires
        a.den != 0,
        a2.den != 0,
        b.den != 0,
        frac_eq(a, a2),
    ensures
        frac_eq(frac_mul(a, b), frac_mul(a2, b)),
{
    assert((a.num * b.num) * (a2.den * b.den) == (a2.num * b.num) * (a.den * b.den))
        by (nonlinear_arith)
        requires
            a.num * a2.den == a2.num * a.den,
    ;
}

/// Products of equal rationals are equal.
pub proof fn lemma_frac_mul_congruence(a: Frac, a2: Frac, b: Frac, b2: Frac)
    requires
        a.den != 0,
        a2.den != 0,
        b.den != 0,
        b2.den != 0,
        frac_eq(a, a2),
        frac_eq(b, b2),
    ensures
        frac_eq(frac_mul(a, b), frac_mul(a2, b2)),
{
    lemma_frac_nonzero_den(a, b);
    lemma_frac_nonzero_den(a2, b);
    lemma_frac_nonzero_den(b, a2);
    lemma_frac_nonzero_den(b2, a2);
    lemma_frac_nonzero_den(a2, b2);
    lemma_frac_mul_congruence_left(a, a2, b);
    lemma_mul_commutative(a2, b);
    lemma_frac_mul_congruence_left(b, b2, a2);
    lemma_mul_commutative(b2, a2);
    lemma_frac_eq_transitive(frac_mul(a, b), frac_mul(a2, b), frac_mul(b, a2));
    lemma_frac_eq_transitive(frac_mul(a, b), frac_mul(b, a2), frac_mul(b2, a2));
    lemma_frac_eq_transitive(frac_mul(a, b), frac_mul(b2, a2), frac_mul(a2, b2));
}

/// The denominators of sums and products of fractions with nonzero
/// denominators are nonzero.
pub proof fn lemma_frac_nonzero_den(a: Frac, b: Frac)
    requires
        a.den != 0,
        b.den != 0,
    ensures
        frac_add(a, b).den != 0,
        frac_mul(a, b).den != 0,
        frac_sub(a, b).den != 0,
{
    assert(a.den * b.den != 0) by (nonlinear_arith)
        requires
            a.den != 0,
            b.den != 0,
    ;
}

/// The order on rationals is a total order: for positive denominators,
/// exactly one of less-than, greater-than and equality holds.
pub proof fn lemma_order_trichotomy(a: Frac, b: Frac)
    requires
        a.den > 0,
        b.den > 0,
    ensures
        frac_lt(a, b) || frac_lt(b, a) || frac_eq(a, b),
        frac_lt(a, b) ==> !frac_lt(b, a) && !frac_eq(a, b),
        frac_lt(b, a) ==> !frac_lt(a, b) && !frac_eq(a, b),
        frac_eq(a, b) ==> !frac_lt(a, b) && !frac_lt(b, a),
{
}

/// The order on rationals is transitive.
pub proof fn lemma_order_transitive(a: Frac, b: Frac, c: Frac)
    requires
        a.den > 0,
        b.den > 0,
        c.den > 0,
        frac_lt(a, b),
        frac_lt(b, c),
    ensures
        frac_lt(a, c),
{
    assert(a.num * c.den < c.num * a.den) by (nonlinear_arith)
        requires
            a.num * b.den < b.num * a.den,
            b.num * c.den < c.num * b.den,
            a.den > 0,
            b.den > 0,
            c.den > 0,
    ;
}

/// An exact rational number in canonical form.
#[derive(Clone, Copy, Debug, PartialEq, Eq, Structural)]
pub struct Rational {
    numer: i64,
    denom: i64,
}

impl View for Rational {
    type V = Frac;

    closed spec fn view(&self) -> Frac {
        Frac { num: self.numer as int, den: self.denom as int }
    }
}

impl Rational {
    /// Validity: the value is in canonical form and its negation is also
    /// representable.
    pub open spec fn wf(self) -> bool {
        is_reduced(self@) && self@.num > i64::MIN as int
    }

    /// Canonicalizing constructor over wide intermediates. Fails on a zero
    /// denominator, or when the reduced result does not fit 64 bits.
    pub(crate) fn make(num: i128, den: i128) -> (r: Result<Rational, MathError>)
        ensures
            den == 0 <==> r == Err::<Rational, MathError>(MathError::DivisionByZero),
            r is Ok <==> den != 0 && fits_i64(canon(Frac { num: num as int, den: den as int })),
            r matches Ok(q) ==> q.wf() && q@ == canon(Frac { num: num as int, den: den as int }),
            den != 0 && !fits_i64(canon(Frac { num: num as int, den: den as int })) <==> r
                == Err::<Rational, MathError>(MathError::Overflow),
    {
        if den == 0 {
            return Err(MathError::DivisionByZero);
        }
        let ghost f = Frac { num: num as int, den: den as int };
        let na: u128 = if num < 0 {
            ((-(num + 1)) as u128) + 1
        } else {
            num as u128
        };
        let da: u128 = if den < 0 {
            ((-(den + 1)) as u128) + 1
        } else {
            den as u128
        };
        proof {
            assert(na == abs(f.num));
            assert(da == abs(f.den));
        }
        let g = greatest_common_divisor(na, da);
        proof {
            lemma_gcd_positive(na as nat, da as nat);
        }
        let rn: u128 = na / g;
        let rd: u128 = da / g;
        proof {
            lemma_canon_reduced(f);
            assert(canon(f).den == rd as int);
            assert(abs(canon(f).num) == rn as int);
        }
        if rn > (i64::MAX as u128) || rd > (i64::MAX as u128) {
            return Err(MathError::Overflow);
        }
        let negative = (num < 0) != (den < 0);
        let n_out: i64 = if negative {
            -(rn as i64)
        } else {
            rn as i64
        };
        let result = Rational { numer: n_out, denom: rd as i64 };
        proof {
            assert(canon(f).num == n_out as int);
            assert(result@ == canon(f));
        }
        Ok(result)
    }

    /// Build a rational from a 64-bit numerator and denominator, normalizing
    /// the sign into the numerator and reducing by the greatest common
    /// divisor. Fails with `DivisionByZero` when the denominator is zero.
    pub fn new(numer: i64, denom: i64) -> (r: Result<Rational, MathError>)
        ensures
            denom == 0 <==> r == Err::<Rational, MathError>(MathError::DivisionByZero),
            r is Ok <==> denom != 0 && fits_i64(
                canon(Frac { num: numer as int, den: denom as int }),
            ),
            r matches Ok(q) ==> q.wf() && q@ == canon(
                Frac { num: numer as int, den: denom as int },
            ),
    {
        Self::make(numer as i128, denom as i128)
    }

    /// The reduction of an already-canonical value is the value itself.
    pub fn reduce(&self) -> (r: Rational)
        requires
            self.wf(),
        ensures
            r == *self,
            r.wf(),
            r@ == canon(self@),
    {
        proof {
            lemma_canon_identity(self@);
        }
        *self
    }

    /// The numerator, when the value is an integer (denominator one).
    pub fn as_integer(&self) -> (r: Option<i64>)
        requires
            self.wf(),
        ensures
            r is Some <==> self@.den == 1,
            r matches Some(n) ==> n == self@.num,
    {
        if self.denom == 1 {
            Some(self.numer)
        } else {
            None
        }
    }

    /// Exact negation; canonical form is preserved.
    pub fn neg(&self) -> (r: Rational)
        requires
            self.wf(),
        ensures
            r.wf(),
            r@ == frac_neg(self@),
    {
        Rational { numer: -self.numer, denom: self.denom }
    }

    /// The rational for a plain 64-bit integer.
    pub fn from_int(x: i64) -> (r: Rational)
        ensures
            r@ == frac_int(x as int),
            x > i64::MIN ==> r.wf(),
    {
        proof {
            crate::num_theory::lemma_coprime_one(abs(x as int));
        }
        Rational { numer: x, denom: 1 }
    }

    /// Exact sum of two canonical rationals, by cross multiplication over
    /// 128-bit intermediates; the reduced result must fit 64 bits.
    pub fn add(&self, other: &Rational) -> (r: Result<Rational, MathError>)
        requires
            self.wf(),
            other.wf(),
        ensures
            r is Ok <==> fits_i64(canon(frac_add(self@, other@))),
            r matches Ok(q) ==> q.wf() && q@ == canon(frac_add(self@, other@)),
            r is Err ==> r == Err::<Rational, MathError>(MathError::Overflow),
    {
        proof {
            lemma_i64_product_bounds_tight(self.numer as int, other.denom as int);
            lemma_i64_product_bounds_tight(self.denom as int, other.numer as int);
            lemma_i64_product_bounds(self.denom as int, other.denom as int);
            assert(self.denom as int * other.denom as int > 0) by (nonlinear_arith)
                requires
                    self.denom > 0,
                    other.denom > 0,
            ;
        }
        let n = (self.numer as i128) * (other.denom as i128) + (self.denom as i128)
            * (other.numer as i128);
        let d = (self.denom as i128) * (other.denom as i128);
        Self::make(n, d)
    }

    /// Exact difference: the sum with the negated subtrahend.
    pub fn sub(&self, other: &Rational) -> (r: Result<Rational, MathError>)
        requires
            self.wf(),
            other.wf(),
        ensures
            r is Ok <==> fits_i64(canon(frac_sub(self@, other@))),
            r matches Ok(q) ==> q.wf() && q@ == canon(frac_sub(self@, other@)),
            r is Err ==> r == Err::<Rational, MathError>(MathError::Overflow),
    {
        self.add(&other.neg())
    }

    /// Exact product over 128-bit intermediates.
    pub fn mul(&self, other: &Rational) -> (r: Result<Rational, MathError>)
        requires
            self.wf(),
            other.wf(),
        ensures
            r is Ok <==> fits_i64(canon(frac_mul(self@, other@))),
            r matches Ok(q) ==> q.wf() && q@ == canon(frac_mul(self@, other@)),
            r is Err ==> r == Err::<Rational, MathError>(MathError::Overflow),
    {
        proof {
            lemma_i64_product_bounds(self.numer as int, other.numer as int);
            lemma_i64_product_bounds(self.denom as int, other.denom as int);
            assert(self.denom as int * other.denom as int > 0) by (nonlinear_arith)
                requires
                    self.denom > 0,
                    other.denom > 0,
            ;
        }
        let n = (self.numer as i128) * (other.numer as i128);
        let d = (self.denom as i128) * (other.denom as i128);
        Self::make(n, d)
    }

    /// The reciprocal swaps numerator and denominator, keeping the sign in
    /// the numerator. Fails with `DivisionByZero` on a zero argument; a
    /// nonzero argument always succeeds.
    pub fn reciprocal(&self) -> (r: Result<Rational, MathError>)
        requires
            self.wf(),
        ensures
            self@.num == 0 <==> r == Err::<Rational, MathError>(MathError::DivisionByZero),
            self@.num != 0 ==> (r matches Ok(q) && q.wf() && q@ == canon(frac_recip(self@))),
    {
        if self.numer == 0 {
            return Err(MathError::DivisionByZero);
        }
        let result = if self.numer < 0 {
            Rational { numer: -self.denom, denom: -self.numer }
        } else {
            Rational { numer: self.denom, denom: self.numer }
        };
        proof {
            crate::num_theory::lemma_gcd_symmetric(abs(self@.num), self@.den as nat);
            assert(abs(result@.num) == self@.den as nat);
            assert(is_reduced(result@));
            assert(result@.num * self@.num == self@.den * result@.den) by (nonlinear_arith)
                requires
                    (self@.num < 0 ==> result@.num == -self@.den && result@.den == -self@.num)
                        && (self@.num >= 0 ==> result@.num == self@.den && result@.den
                        == self@.num),
            ;
            lemma_canon_reduced(frac_recip(self@));
            lemma_canon_cross(frac_recip(self@));
            lemma_frac_eq_transitive(result@, frac_recip(self@), canon(frac_recip(self@)));
            lemma_reduced_eq_identical(result@, canon(frac_recip(self@)));
        }
        Ok(result)
    }

    /// Exact quotient: the product with the reciprocal. Fails with
    /// `DivisionByZero` when the divisor is zero.
    pub fn div(&self, other: &Rational) -> (r: Result<Rational, MathError>)
        requires
            self.wf(),
            other.wf(),
        ensures
            other@.num == 0 <==> r == Err::<Rational, MathError>(MathError::DivisionByZero),
            r is Ok <==> other@.num != 0 && fits_i64(canon(frac_div(self@, other@))),
            r matches Ok(q) ==> q.wf() && q@ == canon(frac_div(self@, other@)),
            r is Err ==> r == Err::<Rational, MathError>(MathError::DivisionByZero) || r == Err::<
                Rational,
                MathError,
            >(MathError::Overflow),
    {
        if other.numer == 0 {
            return Err(MathError::DivisionByZero);
        }
        proof {
            lemma_i64_product_bounds(self.numer as int, other.denom as int);
            lemma_i64_product_bounds(self.denom as int, other.numer as int);
            assert(self.denom as int * other.numer as int != 0) by (nonlinear_arith)
                requires
                    self.denom > 0,
                    other.numer != 0,
            ;
        }
        let n = (self.numer as i128) * (other.denom as i128);
        let d = (self.denom as i128) * (other.numer as i128);
        Self::make(n, d)
    }

    /// Exact rational square root: the root of a canonical fraction is
    /// rational exactly when numerator and denominator are both perfect
    /// squares, and is then the fraction of their non-negative integer
    /// roots. A negative value, or an inexact root, is an irrational
    /// result.
    pub fn sqrt(&self) -> (r: Result<Rational, MathError>)
        requires
            self.wf(),
        ensures
            r is Ok <==> self@.num >= 0 && is_square(self@.num) && is_square(self@.den),
            r matches Ok(s) ==> s.wf() && s@.num >= 0 && s@.num * s@.num == self@.num && s@.den
                * s@.den == self@.den,
            r is Err ==> r == Err::<Rational, MathError>(MathError::IrrationalResult),
    {
        if self.numer < 0 {
            return Err(MathError::IrrationalResult);
        }
        let sn = integer_sqrt(self.numer);
        let sd = integer_sqrt(self.denom);
        match (sn, sd) {
            (Some(a), Some(b)) => {
                proof {
                    assert(b >= 1) by (nonlinear_arith)
                        requires
                            (b as int) * (b as int) == self@.den,
                            self@.den >= 1,
                            b >= 0,
                    ;
                    assert(self@.num == (a as int) * (a as int));
                    assert(divides(a as int, self@.num));
                    assert(self@.den == (b as int) * (b as int));
                    assert(divides(b as int, self@.den));
                    lemma_coprime_of_divisors(
                        abs(self@.num),
                        self@.den as nat,
                        a as nat,
                        b as nat,
                    );
                }
                Ok(Rational { numer: a, denom: b })
            },
            _ => Err(MathError::IrrationalResult),
        }
    }

    /// Exact rational cube root: defined for either sign, since the cube is
    /// odd; rational exactly when numerator and denominator are both perfect
    /// cubes.
    pub fn cbrt(&self) -> (r: Result<Rational, MathError>)
        requires
            self.wf(),
        ensures
            r is Ok <==> is_cube(self@.num) && is_cube(self@.den),
            r matches Ok(c) ==> c.wf() && c@.num * c@.num * c@.num == self@.num && c@.den * c@.den
                * c@.den == self@.den,
            r is Err ==> r == Err::<Rational, MathError>(MathError::IrrationalResult),
    {
        let cn = integer_cbrt(self.numer);
        let cd = integer_cbrt(self.denom);
        match (cn, cd) {
            (Some(a), Some(b)) => {
                proof {
                    assert(b >= 1) by (nonlinear_arith)
                        requires
                            (b as int) * (b as int) * (b as int) == self@.den,
                            self@.den >= 1,
                    ;
                    let am = abs(a as int);
                    assert(am as int * (am as int * am as int) == abs(self@.num)
                        && abs(self@.num) == #[trigger] ((am as int * am as int) * am as int))
                        by (nonlinear_arith)
                        requires
                            (a as int) * (a as int) * (a as int) == self@.num,
                            am == abs(a as int),
                    ;
                    assert(divides(am as int, abs(self@.num) as int));
                    assert(self@.den == #[trigger] (((b as int) * (b as int)) * (b as int)))
                        by (nonlinear_arith)
                        requires
                            (b as int) * (b as int) * (b as int) == self@.den,
                    ;
                    assert(divides(b as int, self@.den));
                    lemma_coprime_of_divisors(abs(self@.num), self@.den as nat, am, b as nat);
                    assert(abs(a as int) <= abs(self@.num)) by (nonlinear_arith)
                        requires
                            (a as int) * (a as int) * (a as int) == self@.num,
                    ;
                }
                Ok(Rational { numer: a, denom: b })
            },
            _ => Err(MathError::IrrationalResult),
        }
    }

    /// Raise to a non-negative integer exponent, numerator and denominator
    /// independently; the result stays canonical because coprime bases have
    /// coprime powers.
    pub fn pow(&self, exponent: u32) -> (r: Result<Rational, MathError>)
        requires
            self.wf(),
        ensures
            r is Ok <==> -(i64::MAX as int) <= pow(self@.num, exponent as nat) <= i64::MAX as int
                && pow(self@.den, exponent as nat) <= i64::MAX as int,
            r matches Ok(q) ==> q.wf() && q@.num == pow(self@.num, exponent as nat) && q@.den
                == pow(self@.den, exponent as nat),
            r is Err ==> r == Err::<Rational, MathError>(MathError::Overflow),
    {
        proof {
            lemma_pow_positive(self@.den, exponent as nat);
        }
        let n = match pow_fit(self.numer, exponent) {
            Some(n) => n,
            None => {
                return Err(MathError::Overflow);
            },
        };
        let d = match pow_fit(self.denom, exponent) {
            Some(d) => d,
            None => {
                return Err(MathError::Overflow);
            },
        };
        proof {
            lemma_coprime_pow_both(
                abs(self@.num),
                self@.den as nat,
                exponent as nat,
                exponent as nat,
            );
            lemma_pow_abs(self@.num, exponent as nat);
            lemma_pow_abs(self@.den, exponent as nat);
        }
        Ok(Rational { numer: n, denom: d })
    }

    /// Whether the value is zero.
    pub fn is_zero(&self) -> (r: bool)
        requires
            self.wf(),
        ensures
            r <==> frac_eq(self@, frac_int(0)),
    {
        proof {
            assert(self@.num * 1 == self@.num) by (nonlinear_arith);
            assert(0int * self@.den == 0) by (nonlinear_arith);
        }
        self.numer == 0
    }

    /// The canonical numerator.
    pub fn numer(&self) -> (r: i64)
        ensures
            r as int == self@.num,
    {
        self.numer
    }

    /// The canonical denominator.
    pub fn denom(&self) -> (r: i64)
        ensures
            r as int == self@.den,
    {
        self.denom
    }

    /// Three-way comparison by cross multiplication, exact over 128-bit
    /// intermediates. Valid because denominators are positive in canonical
    /// form.
    pub fn cmp(&self, other: &Rational) -> (r: Ordering)
        requires
            self.wf(),
            other.wf(),
        ensures
            r == Ordering::Less <==> frac_lt(self@, other@),
            r == Ordering::Greater <==> frac_lt(other@, self@),
            r == Ordering::Equal <==> frac_eq(self@, other@),
    {
        proof {
            lemma_i64_product_bounds(self.numer as int, other.denom as int);
            lemma_i64_product_bounds(other.numer as int, self.denom as int);
        }
        let ad = (self.numer as i128) * (other.denom as i128);
        let bc = (other.numer as i128) * (self.denom as i128);
        if ad < bc {
            Ordering::Less
        } else if ad == bc {
            Ordering::Equal
        } else {
            Ordering::Greater
        }
    }
}

/// Ordering is consistent with equality: two canonical rationals denote the
/// same number exactly when they are the same value, so a comparison that
/// returns `Equal` coincides with `==`.
pub proof fn lemma_compare_eq_consistent(a: Rational, b: Rational)
    requires
        a.wf(),
        b.wf(),
    ensures
        frac_eq(a@, b@) <==> a == b,
{
    if frac_eq(a@, b@) {
        lemma_reduced_eq_identical(a@, b@);
        assert(a.numer == b.numer && a.denom == b.denom);
    }
}

/// Integer power with an overflow check at every step: succeeds exactly
/// when the final power has magnitude at most `i64::MAX`. Once a step
/// overflows, the base's magnitude is at least two, so every later power is
/// larger still.
fn pow_fit(base: i64, exponent: u32) -> (r: Option<i64>)
    requires
        base > i64::MIN,
    ensures
        r matches Some(p) ==> p == pow(base as int, exponent as nat) && -(i64::MAX as int) <= p,
        r is Some <==> -(i64::MAX as int) <= pow(base as int, exponent as nat) <= i64::MAX as int,
{
    let mut acc: i64 = 1;
    let mut i: u32 = 0;
    proof {
        reveal(pow);
    }
    while i < exponent
        invariant
            i <= exponent,
            acc as int == pow(base as int, i as nat),
            -(i64::MAX as int) <= acc as int <= i64::MAX as int,
            base > i64::MIN,
        decreases exponent - i,
    {
        let overflowed: bool;
        match acc.checked_mul(base) {
            Some(next) => {
                if next == i64::MIN {
                    overflowed = true;
                } else {
                    proof {
                        reveal(pow);
                        assert(pow(base as int, (i + 1) as nat) == base as int * pow(
                            base as int,
                            i as nat,
                        ));
                    }
                    overflowed = false;
                    acc = next;
                    i = i + 1;
                }
            },
            None => {
                overflowed = true;
            },
        }
        if overflowed {
            proof {
                reveal(pow);
                let b = base as int;
                let e = exponent as nat;
                let stepped = b * pow(b, i as nat);
                assert(stepped == pow(b, (i + 1) as nat));
                assert(!(-(i64::MAX as int) <= stepped <= i64::MAX as int));
                assert(abs(b) >= 2) by (nonlinear_arith)
                    requires
                        -(i64::MAX as int) <= pow(b, i as nat) <= i64::MAX as int,
                        stepped == b * pow(b, i as nat),
                        !(-(i64::MAX as int) <= stepped <= i64::MAX as int),
                ;
                lemma_pow_abs(b, (i + 1) as nat);
                lemma_pow_abs(b, e);
                lemma_pow_increases(abs(b), (i + 1) as nat, e);
                assert(abs(pow(b, e)) >= abs(pow(b, (i + 1) as nat)));
                assert(abs(stepped) > i64::MAX as int);
            }
            return None;
        }
    }
    Some(acc)
}

/// The product of two 64-bit values fits 128 bits.
proof fn lemma_i64_product_bounds(x: int, y: int)
    by (nonlinear_arith)
    requires
        i64::MIN as int <= x <= i64::MAX as int,
        i64::MIN as int <= y <= i64::MAX as int,
    ensures
        -0x40000000000000000000000000000000 <= x * y <= 0x40000000000000000000000000000000,
{
}

/// With one magnitude bound away from the extreme value, the sum of two such
/// products still fits 128 bits.
proof fn lemma_i64_product_bounds_tight(x: int, y: int)
    by (nonlinear_arith)
    requires
        -(i64::MAX as int) <= x <= i64::MAX as int,
        -(i64::MAX as int) <= y <= i64::MAX as int,
    ensures
        -0x3fffffffffffffff0000000000000001 <= x * y <= 0x3fffffffffffffff0000000000000001,
{
}

impl From<i64> for Rational {
    fn from(x: i64) -> (r: Self) {
        Rational::from_int(x)
    }
}

impl vstd::std_specs::convert::FromSpecImpl<i64> for Rational {
    closed spec fn obeys_from_spec() -> bool {
        true
    }

    closed spec fn from_spec(x: i64) -> Rational {
        Rational { numer: x, denom: 1 }
    }
}

impl PartialOrd for Rational {
    fn partial_cmp(&self, other: &Self) -> (r: Option<Ordering>) {
        proof {
            lemma_i64_product_bounds(self.numer as int, other.denom as int);
            lemma_i64_product_bounds(other.numer as int, self.denom as int);
        }
        let ad = (self.numer as i128) * (other.denom as i128);
        let bc = (other.numer as i128) * (self.denom as i128);
        if ad < bc {
            Some(Ordering::Less)
        } else if ad == bc {
            Some(Ordering::Equal)
        } else {
            Some(Ordering::Greater)
        }
    }
}

impl vstd::std_specs::cmp::PartialOrdSpecImpl for Rational {
    open spec fn obeys_partial_cmp_spec() -> bool {
        true
    }

    open spec fn partial_cmp_spec(&self, other: &Rational) -> Option<Ordering> {
        if frac_lt(self@, other@) {
            Some(Ordering::Less)
        } else if frac_lt(other@, self@) {
            Some(Ordering::Greater)
        } else {
            Some(Ordering::Equal)
        }
    }
}

} // verus!
