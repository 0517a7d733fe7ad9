//! Real rational roots of univariate polynomials.
//!
//! Degree one and two have closed forms; from degree three on, the
//! rational root theorem narrows the candidates to fractions of divisors
//! of the constant and leading coefficients, each candidate is confirmed
//! by exact evaluation, and its multiplicity is read off the chain of
//! derivatives that vanish at it.

use vstd::prelude::*;
use vstd::math::abs;
use crate::rational::{Rational, Frac, frac_int, frac_eq, frac_add, frac_sub, frac_mul, frac_neg, frac_div,
    frac_recip, frac_lt, canon, is_reduced, fits_i64, lemma_canon_cross, lemma_canon_identity,
    lemma_canon_nonzero, lemma_frac_mul_congruence, lemma_frac_sub_congruence,
    lemma_frac_nonzero_den, lemma_frac_eq_transitive, lemma_order_trichotomy,
    lemma_sign_transfer};
use crate::polynomial::{Polynomial, poly_coeff, poly_eval_frac, coeffs_wf, lemma_poly_eval_den,
    lemma_poly_coeff_reduced, lemma_degree_zero_eval, rat_mul_checked, rat_sub_checked,
    rat_add_checked, rat_div_checked};
use crate::num_theory::{divides, coprime, greatest_common_divisor, is_square, nonneg_root,
    lemma_nonneg_root_unique};
use crate::error::MathError;

verus! {

/// `x` is a root of the polynomial of the given degree.
pub open spec fn is_root(s: Seq<(u32, Rational)>, x: Frac, d: int) -> bool {
    frac_eq(poly_eval_frac(s, x, d + 1), frac_int(0))
}

/// All integer divisors of `n`, of both signs, in magnitude order; none
/// for zero.
pub fn integer_factors(n: i64) -> (r: Vec<i64>)
    requires
        n > i64::MIN,
    ensures
        forall|i: int|
            0 <= i < r@.len() ==> (#[trigger] r@[i]) != 0 && divides(r@[i] as int, n as int)
                && i64::MIN < r@[i],
        n != 0 ==> forall|d: int|
            d != 0 && divides(d, n as int) ==> exists|i: int|
                0 <= i < r@.len() && (#[trigger] r@[i]) == d,
        n == 0 ==> r@.len() == 0,
        forall|i: int, j: int|
            0 <= i < j < r@.len() ==> (#[trigger] r@[i]) != (#[trigger] r@[j]) && abs(
                r@[i] as int,
            ) <= abs(r@[j] as int),
{
    let mag: u64 = if n < 0 {
        ((-(n + 1)) as u64) + 1
    } else {
        n as u64
    };
    proof {
        assert(mag == abs(n as int));
    }
    let mut factors: Vec<i64> = Vec::new();
    let mut i: u64 = 1;
    while i <= mag
        invariant
            1 <= i,
            n > i64::MIN,
            mag == abs(n as int),
            mag <= i64::MAX as u64,
            i <= mag + 1,
            forall|j: int|
                0 <= j < factors@.len() ==> (#[trigger] factors@[j]) != 0 && divides(
                    factors@[j] as int,
                    n as int,
                ) && i64::MIN < factors@[j],
            forall|d: int|
                1 <= abs(d) < i && divides(d, n as int) && d != 0 ==> exists|j: int|
                    0 <= j < factors@.len() && (#[trigger] factors@[j]) == d,
            n == 0 ==> factors@.len() == 0,
            forall|j: int| 0 <= j < factors@.len() ==> abs((#[trigger] factors@[j]) as int) < i,
            forall|x: int, y: int|
                0 <= x < y < factors@.len() ==> (#[trigger] factors@[x]) != (
                #[trigger] factors@[y]) && abs(factors@[x] as int) <= abs(factors@[y] as int),
        decreases mag - i + 1,
    {
        let ghost f0 = factors@;
        if mag % i == 0 {
            proof {
                lemma_mod_zero_divides(mag, i, n as int);
            }
            factors.push(-(i as i64));
            factors.push(i as i64);
            proof {
                assert(factors@[factors@.len() - 2] == -(i as int));
                assert(factors@[factors@.len() - 1] == i as int);
                assert forall|d: int|
                    1 <= abs(d) < i + 1 && divides(d, n as int) && d != 0 implies exists|j: int|
                    0 <= j < factors@.len() && (#[trigger] factors@[j]) == d by {
                    if abs(d) < i {
                        let j = choose|j: int| 0 <= j < f0.len() && (#[trigger] f0[j]) == d;
                        assert(factors@[j] == d);
                    } else if d == i as int {
                        assert(factors@[factors@.len() - 1] == d);
                    } else {
                        assert(d == -(i as int));
                        assert(factors@[factors@.len() - 2] == d);
                    }
                }
            }
        } else {
            proof {
                lemma_no_divisor_of_magnitude(mag, i, n as int);
                assert forall|d: int|
                    1 <= abs(d) < i + 1 && divides(d, n as int) && d != 0 implies exists|j: int|
                    0 <= j < factors@.len() && (#[trigger] factors@[j]) == d by {
                    if abs(d) < i {
                    } else {
                        assert(d == i as int || d == -(i as int));
                        assert(!divides(d, n as int));
                    }
                }
            }
        }
        i = i + 1;
    }
    proof {
        assert forall|d: int| d != 0 && divides(d, n as int) && n != 0 implies exists|j: int|
            0 <= j < factors@.len() && (#[trigger] factors@[j]) == d by {
            lemma_divisor_magnitude_bound(d, n as int);
            assert(1 <= abs(d) < i);
        }
    }
    factors
}

/// The discriminant of the quadratic written with the stored
/// coefficients: `b*b - ((4*a)*c)`.
pub open spec fn discriminant_of(s: Seq<(u32, Rational)>) -> Frac {
    frac_sub(
        frac_mul(poly_coeff(s, 1), poly_coeff(s, 1)),
        frac_mul(frac_mul(frac_int(4), poly_coeff(s, 2)), poly_coeff(s, 0)),
    )
}

/// The quadratic path as the fixed-width arithmetic computes it: the
/// canonical discriminant through checked products and a difference,
/// then, by its sign, no roots, the single closed-form root, or the two
/// closed-form roots through the exact square root and checked
/// divisions — each failure named with its cause.
pub open spec fn quad_steps(s: Seq<(u32, Rational)>) -> Result<Seq<Frac>, MathError> {
    let a = poly_coeff(s, 2);
    let b = poly_coeff(s, 1);
    match rat_mul_checked(b, b) {
        Option::None => Err(MathError::Overflow),
        Option::Some(bb) => match rat_mul_checked(frac_int(4), a) {
            Option::None => Err(MathError::Overflow),
            Option::Some(fa) => match rat_mul_checked(fa, poly_coeff(s, 0)) {
                Option::None => Err(MathError::Overflow),
                Option::Some(fac) => match rat_sub_checked(bb, fac) {
                    Option::None => Err(MathError::Overflow),
                    Option::Some(dv) => quad_root_steps(s, dv),
                },
            },
        },
    }
}

/// The root construction for a computed discriminant value.
pub open spec fn quad_root_steps(s: Seq<(u32, Rational)>, dv: Frac) -> Result<
    Seq<Frac>,
    MathError,
> {
    let a = poly_coeff(s, 2);
    let b = poly_coeff(s, 1);
    if frac_lt(dv, frac_int(0))  {
        Ok(Seq::empty())
    } else if frac_eq(dv, frac_int(0)) {
        match rat_mul_checked(frac_int(2), a) {
            Option::None => Err(MathError::Overflow),
            Option::Some(d2a) => {
                if d2a.num == 0 {
                    Err(MathError::DivisionByZero)
                } else {
                    match rat_div_checked(frac_neg(b), d2a) {
                        Option::None => Err(MathError::Overflow),
                        Option::Some(r0) => Ok(seq![r0]),
                    }
                }
            },
        }
    } else if !(dv.num >= 0 && is_square(dv.num) && is_square(dv.den)) {
        Err(MathError::IrrationalResult)
    } else {
        let sv = Frac { num: nonneg_root(dv.num), den: nonneg_root(dv.den) };
        match rat_mul_checked(frac_int(2), a) {
            Option::None => Err(MathError::Overflow),
            Option::Some(d2a) => match rat_sub_checked(frac_neg(b), sv) {
                Option::None => Err(MathError::Overflow),
                Option::Some(n1) => {
                    if d2a.num == 0 {
                        Err(MathError::DivisionByZero)
                    } else {
                        match rat_div_checked(n1, d2a) {
                            Option::None => Err(MathError::Overflow),
                            Option::Some(r1) => match rat_add_checked(frac_neg(b), sv) {
                                Option::None => Err(MathError::Overflow),
                                Option::Some(n2) => match rat_div_checked(n2, d2a) {
                                    Option::None => Err(MathError::Overflow),
                                    Option::Some(r2) => Ok(seq![r1, r2]),
                                },
                            },
                        }
                    }
                },
            },
        }
    }
}

/// The coefficient of the k-th formal derivative at an exponent: each
/// step multiplies the next-higher coefficient by its exponent.
pub open spec fn deriv_coeff(s: Seq<(u32, Rational)>, k: nat, e: int) -> Frac
    decreases k,
{
    if k == 0 {
        poly_coeff(s, e)
    } else {
        canon(frac_mul(deriv_coeff(s, (k - 1) as nat, e + 1), frac_int(e + 1)))
    }
}

/// The value of the k-th formal derivative at a point, summed over the
/// window `n`.
pub open spec fn deriv_eval(s: Seq<(u32, Rational)>, k: nat, x: Frac, n: int) -> Frac
    decreases n,
{
    if n <= 0 {
        frac_int(0)
    } else {
        frac_add(
            deriv_eval(s, k, x, n - 1),
            frac_mul(deriv_coeff(s, k, n - 1), crate::polynomial::frac_pow(x, (n - 1) as nat)),
        )
    }
}

/// The k-th derivative of a degree-`d` polynomial vanishes at `x`.
pub open spec fn derivative_vanishes(s: Seq<(u32, Rational)>, d: int, x: Frac, k: nat) -> bool {
    frac_eq(deriv_eval(s, k, x, d - k + 1), frac_int(0))
}

/// `m` is the order of vanishing at a root: the derivatives below the
/// m-th vanish there and the m-th does not.
pub open spec fn is_multiplicity(s: Seq<(u32, Rational)>, d: int, x: Frac, m: int) -> bool {
    &&& 1 <= m <= d
    &&& forall|j: int| 1 <= j < m ==> #[trigger] derivative_vanishes(s, d, x, j as nat)
    &&& !derivative_vanishes(s, d, x, m as nat)
}

/// How often a value occurs in a root list.
pub open spec fn occurrences(roots: Seq<Rational>, f: Frac) -> int
    decreases roots.len(),
{
    if roots.len() == 0 {
        0
    } else {
        occurrences(roots.drop_last(), f) + (if roots.last()@ == f {
            1int
        } else {
            0int
        })
    }
}

/// Appending a root raises its own count by one and no other.
proof fn lemma_occurrences_push(roots: Seq<Rational>, r: Rational, f: Frac)
    ensures
        occurrences(roots.push(r), f) == occurrences(roots, f) + (if r@ == f {
            1int
        } else {
            0int
        }),
{
    assert(roots.push(r).drop_last() =~= roots);
    assert(roots.push(r).last() == r);
}

/// A polynomial whose coefficients are the k-th derivative's coefficients
/// evaluates to the k-th derivative's value.
proof fn lemma_deriv_eval_agree(t: Seq<(u32, Rational)>, s: Seq<(u32, Rational)>, k: nat, x: Frac, n: int)
    requires
        forall|e: int| 0 <= e ==> #[trigger] poly_coeff(t, e) == deriv_coeff(s, k, e),
    ensures
        poly_eval_frac(t, x, n) == deriv_eval(s, k, x, n),
    decreases n,
{
    if n > 0 {
        lemma_deriv_eval_agree(t, s, k, x, n - 1);
        assert(poly_coeff(t, n - 1) == deriv_coeff(s, k, n - 1));
    }
}

/// The evaluation of the k-th formal derivative as the fixed-width
/// arithmetic computes it, term by term from exponent zero.
pub open spec fn deriv_eval_steps(s: Seq<(u32, Rational)>, k: nat, x: Frac, n: int) -> Option<Frac>
    decreases n,
{
    if n <= 0 {
        Some(frac_int(0))
    } else {
        match deriv_eval_steps(s, k, x, n - 1) {
            Option::None => Option::None,
            Option::Some(acc) => match crate::polynomial::rat_pow_checked(x, (n - 1) as nat) {
                Option::None => Option::None,
                Option::Some(pw) => match rat_mul_checked(deriv_coeff(s, k, n - 1), pw) {
                    Option::None => Option::None,
                    Option::Some(t) => rat_add_checked(acc, t),
                },
            },
        }
    }
}

/// A polynomial whose coefficients are the k-th derivative's coefficients
/// runs the same checked evaluation as the k-th derivative.
proof fn lemma_eval_steps_agree(
    t: Seq<(u32, Rational)>,
    s: Seq<(u32, Rational)>,
    k: nat,
    x: Frac,
    n: int,
)
    requires
        forall|e: int| 0 <= e ==> #[trigger] poly_coeff(t, e) == deriv_coeff(s, k, e),
    ensures
        crate::polynomial::eval_steps(t, x, n) == deriv_eval_steps(s, k, x, n),
    decreases n,
{
    if n > 0 {
        lemma_eval_steps_agree(t, s, k, x, n - 1);
        assert(poly_coeff(t, n - 1) == deriv_coeff(s, k, n - 1));
    }
}

/// Differentiating the k-th derivative stays in range: every coefficient
/// of the next derivative fits the 64-bit representation.
pub open spec fn diff_chain_ok(s: Seq<(u32, Rational)>, k: nat, d: int) -> bool {
    forall|e: int| 1 <= e <= d - k ==> fits_i64(#[trigger] deriv_coeff(s, (k + 1) as nat, e - 1))
}

/// The checked derivative chain from level `k` on: each derivative
/// evaluates within range; once one does not vanish the chain is done,
/// and while they vanish the next derivative must also stay in range.
pub open spec fn mult_chain_ok(s: Seq<(u32, Rational)>, d: int, x: Frac, k: int) -> bool
    decreases d + 1 - k,
{
    if k > d {
        true
    } else {
        match deriv_eval_steps(s, k as nat, x, d - k + 1) {
            Option::None => false,
            Option::Some(v) => {
                if !frac_eq(v, frac_int(0)) {
                    true
                } else {
                    diff_chain_ok(s, k as nat, d) && mult_chain_ok(s, d, x, k + 1)
                }
            },
        }
    }
}

/// The search's work for one candidate stays in range: a skipped
/// candidate imposes nothing; a tested one must evaluate within range,
/// and a confirmed root's derivative chain must too.
pub open spec fn candidate_chain_ok(s: Seq<(u32, Rational)>, d: int, p: int, q: int) -> bool {
    if p != 0 && q >= 1 && coprime(abs(p), q as nat) {
        match crate::polynomial::eval_steps(s, Frac { num: p, den: q }, d + 1) {
            Option::None => false,
            Option::Some(v) => {
                if !frac_eq(v, frac_int(0)) {
                    true
                } else {
                    diff_chain_ok(s, 0, d) && mult_chain_ok(s, d, Frac { num: p, den: q }, 1)
                }
            },
        }
    } else {
        true
    }
}

/// The whole search stays in range: when both extreme coefficients are
/// nonzero integers, every divisor candidate's work does.
pub open spec fn search_steps_ok(s: Seq<(u32, Rational)>, d: int) -> bool {
    (poly_coeff(s, 0).num != 0 && poly_coeff(s, d).num != 0) ==> forall|p: int, q: int|
        (p != 0 && q != 0 && divides(p, poly_coeff(s, 0).num) && divides(q, poly_coeff(s, d).num))
            ==> #[trigger] candidate_chain_ok(s, d, p, q)
}

/// A pair of candidate indices ran its work within range.
pub open spec fn pair_chain_ok(
    s: Seq<(u32, Rational)>,
    d: int,
    ps: Seq<i64>,
    qs: Seq<i64>,
    a: int,
    b: int,
) -> bool {
    candidate_chain_ok(s, d, ps[a] as int, qs[b] as int)
}

/// The executable overflow test on a derivative's stored pairs coincides
/// with the range condition on the next derivative's coefficients.
proof fn lemma_diff_ok_equiv(t: Seq<(u32, Rational)>, s: Seq<(u32, Rational)>, k: nat, d: int)
    requires
        crate::polynomial::keys_distinct(t),
        coeffs_wf(t),
        forall|j: int| 0 <= j < t.len() ==> (#[trigger] t[j].0) as int <= d - k,
        forall|e: int| 0 <= e ==> #[trigger] poly_coeff(t, e) == deriv_coeff(s, k, e),
    ensures
        (forall|i: int|
            0 <= i < t.len() ==> ((#[trigger] t[i].0) > 0 ==> fits_i64(
                canon(frac_mul(t[i].1@, frac_int(t[i].0 as int))),
            ))) <==> diff_chain_ok(s, k, d),
{
    if forall|i: int|
        0 <= i < t.len() ==> ((#[trigger] t[i].0) > 0 ==> fits_i64(
            canon(frac_mul(t[i].1@, frac_int(t[i].0 as int))),
        )) {
        assert forall|e: int| 1 <= e <= d - k implies fits_i64(
            #[trigger] deriv_coeff(s, (k + 1) as nat, e - 1),
        ) by {
            assert(deriv_coeff(s, (k + 1) as nat, e - 1) == canon(
                frac_mul(deriv_coeff(s, k, e), frac_int(e)),
            ));
            if exists|j: int| 0 <= j < t.len() && (#[trigger] t[j].0) == e {
                let j = choose|j: int| 0 <= j < t.len() && (#[trigger] t[j].0) == e;
                crate::polynomial::lemma_poly_coeff_at(t, j);
            } else {
                assert(forall|j: int| 0 <= j < t.len() ==> (#[trigger] t[j].0) != e);
                crate::polynomial::lemma_poly_coeff_absent(t, e);
                crate::polynomial::lemma_deriv_of_zero(e - 1);
                assert(deriv_coeff(s, k, e) == frac_int(0));
            }
        }
    }
    if diff_chain_ok(s, k, d) {
        assert forall|i: int| 0 <= i < t.len() implies ((#[trigger] t[i].0) > 0 ==> fits_i64(
            canon(frac_mul(t[i].1@, frac_int(t[i].0 as int))),
        )) by {
            if t[i].0 > 0 {
                let e = t[i].0 as int;
                crate::polynomial::lemma_poly_coeff_at(t, i);
                assert(fits_i64(deriv_coeff(s, (k + 1) as nat, e - 1)));
                assert(deriv_coeff(s, (k + 1) as nat, e - 1) == canon(
                    frac_mul(deriv_coeff(s, k, e), frac_int(e)),
                ));
            }
        }
    }
}

/// The count a reduced candidate is owed: its order of vanishing when it
/// is a root, and zero when it is not.
pub open spec fn counted_absolute(
    s: Seq<(u32, Rational)>,
    d: int,
    p: int,
    q: int,
    roots: Seq<Rational>,
) -> bool {
    if p != 0 && q >= 1 && coprime(abs(p), q as nat) && is_root(s, Frac { num: p, den: q }, d) {
        exists|m: int|
            #[trigger] is_multiplicity(s, d, Frac { num: p, den: q }, m) && occurrences(
                roots,
                Frac { num: p, den: q },
            ) == m
    } else {
        occurrences(roots, Frac { num: p, den: q }) == 0
    }
}

/// Every entry of the root list is a reduced fraction of a divisor of the
/// constant term over a divisor of the leading coefficient.
pub open spec fn entry_from_candidates(c0n: int, cdn: int, f: Frac) -> bool {
    exists|p: int, q: int|
        f == (Frac { num: p, den: q }) && p != 0 && q >= 1 && #[trigger] coprime(abs(p), q as nat)
            && divides(p, c0n) && divides(q, cdn)
}

/// The multiset contract of the search: every reduced divisor candidate
/// occurs exactly as often as its order of vanishing (and a non-root not
/// at all), and nothing but such candidates occurs.
pub open spec fn roots_with_multiplicity(
    s: Seq<(u32, Rational)>,
    d: int,
    roots: Seq<Rational>,
) -> bool {
    &&& forall|p: int, q: int|
        (p != 0 && q >= 1 && coprime(abs(p), q as nat) && poly_coeff(s, 0).num != 0 && poly_coeff(
            s,
            d,
        ).num != 0 && divides(p, poly_coeff(s, 0).num) && divides(q, poly_coeff(s, d).num))
            ==> #[trigger] counted_absolute(s, d, p, q, roots)
    &&& forall|k: int|
        0 <= k < roots.len() ==> entry_from_candidates(
            poly_coeff(s, 0).num,
            poly_coeff(s, d).num,
            (#[trigger] roots[k])@,
        )
}

/// The change one handled candidate makes to the counts: a root's count
/// grows by its order of vanishing and no other count moves; a skipped or
/// rootless candidate leaves the list untouched.
pub open spec fn candidate_counted(
    s: Seq<(u32, Rational)>,
    d: int,
    p: int,
    q: int,
    r1: Seq<Rational>,
    r2: Seq<Rational>,
) -> bool {
    if p != 0 && q >= 1 && coprime(abs(p), q as nat) && is_root(s, Frac { num: p, den: q }, d) {
        &&& exists|m: int|
            #[trigger] is_multiplicity(s, d, Frac { num: p, den: q }, m) && occurrences(
                r2,
                Frac { num: p, den: q },
            ) == occurrences(r1, Frac { num: p, den: q }) + m
        &&& forall|g: Frac|
            g != (Frac { num: p, den: q }) ==> #[trigger] occurrences(r2, g) == occurrences(r1, g)
    } else {
        r2 == r1
    }
}

/// A pair of candidate indices has been counted against the current root
/// list.
pub open spec fn pair_counted(
    s: Seq<(u32, Rational)>,
    d: int,
    ps: Seq<i64>,
    qs: Seq<i64>,
    a: int,
    b: int,
    roots: Seq<Rational>,
) -> bool {
    counted_absolute(s, d, ps[a] as int, qs[b] as int, roots)
}

/// A pair of candidate indices is still untouched: its fraction does not
/// occur yet.
pub open spec fn pair_untouched(
    ps: Seq<i64>,
    qs: Seq<i64>,
    a: int,
    b: int,
    roots: Seq<Rational>,
) -> bool {
    occurrences(roots, Frac { num: ps[a] as int, den: qs[b] as int }) == 0
}

/// Every returned value is a well-formed root of the polynomial.
pub open spec fn roots_sound(s: Seq<(u32, Rational)>, d: int, roots: Seq<Rational>) -> bool {
    forall|k: int|
        0 <= k < roots.len() ==> (#[trigger] roots[k]).wf() && is_root(s, roots[k]@, d)
}

/// If the reduced fraction `p / q` is a root, the result carries it.
pub open spec fn candidate_done(
    s: Seq<(u32, Rational)>,
    d: int,
    p: int,
    q: int,
    roots: Seq<Rational>,
) -> bool {
    (p != 0 && q >= 1 && coprime(abs(p), q as nat) && is_root(s, Frac { num: p, den: q }, d))
        ==> exists|k: int|
        0 <= k < roots.len() && (#[trigger] roots[k])@ == (Frac { num: p, den: q })
}

/// Completeness of the rational-root search: every reduced fraction of a
/// divisor of the (nonzero, integer) constant term over a divisor of the
/// (nonzero, integer) leading coefficient that is a root stands in the
/// result.
pub open spec fn rational_roots_complete(
    s: Seq<(u32, Rational)>,
    d: int,
    roots: Seq<Rational>,
) -> bool {
    forall|p: int, q: int|
        (p != 0 && q >= 1 && coprime(abs(p), q as nat) && poly_coeff(s, 0).num != 0 && poly_coeff(
            s,
            d,
        ).num != 0 && divides(p, poly_coeff(s, 0).num) && divides(q, poly_coeff(s, d).num))
            ==> #[trigger] candidate_done(s, d, p, q, roots)
}

/// A grown root list keeps every obligation that the shorter one met.
proof fn lemma_candidate_done_grow(
    s: Seq<(u32, Rational)>,
    d: int,
    p: int,
    q: int,
    r1: Seq<Rational>,
    r2: Seq<Rational>,
)
    requires
        candidate_done(s, d, p, q, r1),
        r1.len() <= r2.len(),
        forall|k: int| 0 <= k < r1.len() ==> r2[k] == r1[k],
    ensures
        candidate_done(s, d, p, q, r2),
{
    if p != 0 && q >= 1 && coprime(abs(p), q as nat) && is_root(s, Frac { num: p, den: q }, d) {
        let k = choose|k: int|
            0 <= k < r1.len() && (#[trigger] r1[k])@ == (Frac { num: p, den: q });
        assert(r2[k]@ == (Frac { num: p, den: q }));
    }
}

/// A pair of candidate indices has been handled against the current root
/// list.
pub open spec fn pair_done(
    s: Seq<(u32, Rational)>,
    d: int,
    ps: Seq<i64>,
    qs: Seq<i64>,
    a: int,
    b: int,
    roots: Seq<Rational>,
) -> bool {
    candidate_done(s, d, ps[a] as int, qs[b] as int, roots)
}

/// A nonzero integer times a positive integer is nonzero.
proof fn lemma_product_nonzero(a: int, b: int)
    requires
        a != 0,
        b >= 1,
    ensures
        a * b != 0,
{
    assert(a * b != 0) by (nonlinear_arith)
        requires
            a != 0,
            b >= 1,
    ;
}

/// The denominators inside the discriminant are positive.
proof fn lemma_discriminant_den(s: Seq<(u32, Rational)>)
    requires
        crate::polynomial::coeffs_wf(s),
    ensures
        discriminant_of(s).den > 0,
{
    crate::polynomial::lemma_poly_coeff_reduced(s, 0);
    crate::polynomial::lemma_poly_coeff_reduced(s, 1);
    crate::polynomial::lemma_poly_coeff_reduced(s, 2);
    let bd = poly_coeff(s, 1).den;
    let ad = poly_coeff(s, 2).den;
    let cd = poly_coeff(s, 0).den;
    assert(bd * bd > 0 && 1 * ad > 0 && (1 * ad) * cd > 0 && (bd * bd) * ((1 * ad) * cd) > 0)
        by (nonlinear_arith)
        requires
            bd > 0,
            ad > 0,
            cd > 0,
    ;
}

/// The closed-form solution of the linear equation: a value equal to
/// `-c0 / c1` is a root of `c1 * x + c0`.
proof fn lemma_linear_root(s: Seq<(u32, Rational)>, x: Frac)
    requires
        crate::polynomial::coeffs_wf(s),
        x.den > 0,
        poly_coeff(s, 1).num != 0,
        frac_eq(x, crate::rational::frac_div(crate::rational::frac_neg(poly_coeff(s, 0)), poly_coeff(s, 1))),
    ensures
        is_root(s, x, 1),
{
    let c0 = poly_coeff(s, 0);
    let c1 = poly_coeff(s, 1);
    lemma_poly_coeff_reduced(s, 0);
    lemma_poly_coeff_reduced(s, 1);
    lemma_degree_zero_eval(s, x);
    broadcast use vstd::arithmetic::power::lemma_pow1;

    assert(crate::polynomial::frac_pow(x, 1) == x);
    let e = poly_eval_frac(s, x, 2);
    assert(e == crate::rational::frac_add(c0, frac_mul(c1, x)));
    assert(e.num == c0.num * (c1.den * x.den) + c0.den * (c1.num * x.num));
    assert(e.num == 0) by (nonlinear_arith)
        requires
            x.num * (c0.den * c1.num) == ((-c0.num) * c1.den) * x.den,
            e.num == c0.num * (c1.den * x.den) + c0.den * (c1.num * x.num),
    ;
    assert(e.num * 1 == 0 * e.den) by (nonlinear_arith)
        requires
            e.num == 0,
    ;
}

/// A canonically computed quotient denotes the quotient of the raw
/// numerator and denominator expressions it was computed from.
proof fn lemma_root_formula_value(nv: Frac, dv: Frac, x: Frac, nexpr: Frac, dexpr: Frac)
    requires
        nv.den > 0,
        dv.den > 0,
        x.den > 0,
        nexpr.den != 0,
        dexpr.den != 0,
        dv.num != 0,
        dexpr.num != 0,
        nv == canon(nexpr),
        dv == canon(dexpr),
        x == canon(frac_div(nv, dv)),
    ensures
        frac_eq(x, frac_div(nexpr, dexpr)),
{
    lemma_canon_cross(nexpr);
    lemma_canon_cross(dexpr);
    crate::rational::lemma_frac_recip_congruence(dv, dexpr);
    lemma_frac_mul_congruence(nv, nexpr, frac_recip(dv), frac_recip(dexpr));
    lemma_frac_nonzero_den(nv, frac_recip(dv));
    lemma_canon_cross(frac_div(nv, dv));
    lemma_frac_nonzero_den(nexpr, frac_recip(dexpr));
    lemma_frac_eq_transitive(x, frac_div(nv, dv), frac_div(nexpr, dexpr));
}

/// The leading coefficient is nonzero when the canonical double of it is.
proof fn lemma_double_nonzero(a: Frac, dv: Frac)
    requires
        a.den > 0,
        dv == canon(frac_mul(frac_int(2), a)),
        dv.num != 0,
    ensures
        frac_mul(frac_int(2), a).num != 0,
        a.num != 0,
{
    if frac_mul(frac_int(2), a).num == 0 {
        assert(1 * a.den != 0) by (nonlinear_arith)
            requires
                a.den > 0,
        ;
        crate::rational::lemma_canon_zero(frac_mul(frac_int(2), a).den);
    }
    assert(2 * a.num == frac_mul(frac_int(2), a).num);
}

/// Multiplying the two sides of an equation by a common factor keeps it.
proof fn lemma_eq_scale(a: int, b: int, k: int)
    requires
        a == b,
    ensures
        a * k == b * k,
{
}

/// Doubling a product that already carries a factor of two quadruples the
/// underlying term.
proof fn lemma_double_shift(c: int, x: int, pq: int)
    requires
        pq == 2 * x,
    ensures
        2 * (c * pq) == 4 * (c * x),
{
    assert(2 * (c * (2 * x)) == 4 * (c * x)) by (nonlinear_arith);
}

/// The closed-form solutions of the quadratic equation: when `s` squares
/// to the discriminant and `x` equals `(-b - s) / (2a)` or
/// `(-b + s) / (2a)` with `a` nonzero, `x` is a root of
/// `a x^2 + b x + c`.
proof fn lemma_quadratic_root(s: Seq<(u32, Rational)>, sv: Frac, x: Frac, plus: bool)
    requires
        coeffs_wf(s),
        sv.den > 0,
        x.den > 0,
        poly_coeff(s, 2).num != 0,
        frac_eq(frac_mul(sv, sv), discriminant_of(s)),
        !plus ==> frac_eq(
            x,
            frac_div(
                frac_sub(frac_neg(poly_coeff(s, 1)), sv),
                frac_mul(frac_int(2), poly_coeff(s, 2)),
            ),
        ),
        plus ==> frac_eq(
            x,
            frac_div(
                crate::rational::frac_add(frac_neg(poly_coeff(s, 1)), sv),
                frac_mul(frac_int(2), poly_coeff(s, 2)),
            ),
        ),
    ensures
        is_root(s, x, 2),
{
    let c0 = poly_coeff(s, 0);
    let c1 = poly_coeff(s, 1);
    let c2 = poly_coeff(s, 2);
    lemma_poly_coeff_reduced(s, 0);
    lemma_poly_coeff_reduced(s, 1);
    lemma_poly_coeff_reduced(s, 2);
    let an = c2.num;
    let ad = c2.den;
    let bn = c1.num;
    let bd = c1.den;
    let cn = c0.num;
    let cd = c0.den;
    let sn = sv.num;
    let sd = sv.den;
    let xn = x.num;
    let xd = x.den;
    // squares, named once so that later rearrangements stay small
    let an2 = an * an;
    let ad2 = ad * ad;
    let bn2 = bn * bn;
    let bd2 = bd * bd;
    let sn2 = sn * sn;
    let sd2 = sd * sd;
    let xn2 = xn * xn;
    let xd2 = xd * xd;
    // the evaluation sum unfolds to c + b x + a x^2
    lemma_degree_zero_eval(s, x);
    broadcast use vstd::arithmetic::power::lemma_pow1;

    assert(crate::polynomial::frac_pow(x, 1) == x);
    assert(vstd::arithmetic::power::pow(xn, 2) == xn * xn) by {
        reveal(vstd::arithmetic::power::pow);
    }
    assert(vstd::arithmetic::power::pow(xd, 2) == xd * xd) by {
        reveal(vstd::arithmetic::power::pow);
    }
    assert(crate::polynomial::frac_pow(x, 2) == frac_mul(x, x));
    let e = poly_eval_frac(s, x, 3);
    assert(poly_eval_frac(s, x, 2) == crate::rational::frac_add(
        poly_eval_frac(s, x, 1),
        frac_mul(poly_coeff(s, 1), crate::polynomial::frac_pow(x, 1)),
    ));
    assert(poly_eval_frac(s, x, 3) == crate::rational::frac_add(
        poly_eval_frac(s, x, 2),
        frac_mul(poly_coeff(s, 2), crate::polynomial::frac_pow(x, 2)),
    ));
    assert(e == crate::rational::frac_add(
        crate::rational::frac_add(c0, frac_mul(c1, x)),
        frac_mul(c2, frac_mul(x, x)),
    ));
    assert(e.num == (cn * (bd * xd) + cd * (bn * xn)) * (ad * xd2) + (cd * (bd * xd)) * (an
        * xn2));
    // normalize the discriminant hypothesis:
    // sn^2 * bd^2 ad cd == (bn^2 ad cd - 4 an cn bd^2) * sd^2
    assert(sn2 * (bd2 * (ad * cd)) == (bn2 * (ad * cd) - 4 * (an * (cn * bd2))) * sd2)
        by (nonlinear_arith)
        requires
            (sn * sn) * ((bd * bd) * ((1 * ad) * cd)) == ((bn * bn) * ((1 * ad) * cd) + (bd * bd)
                * (-((4 * an) * cn))) * (sd * sd),
            an2 == an * an,
            bn2 == bn * bn,
            bd2 == bd * bd,
            sn2 == sn * sn,
            sd2 == sd * sd,
    ;
    // normalize the root hypothesis into v == -u or v == u
    let u = (ad * bd) * (sn * xd);
    let v = 2 * ((an * bd) * (sd * xn)) + (ad * bn) * (sd * xd);
    assert(xn * ((bd * sd) * (2 * an)) == 2 * ((an * bd) * (sd * xn))) by (nonlinear_arith);
    if !plus {
        assert(((((-bn) * sd) + bd * (-sn)) * (1 * ad)) * xd == (((-bn) * sd) * (1 * ad)) * xd + (
        (bd * (-sn)) * (1 * ad)) * xd) by (nonlinear_arith);
        assert((((-bn) * sd) * (1 * ad)) * xd == -((ad * bn) * (sd * xd))) by (nonlinear_arith);
        assert(((bd * (-sn)) * (1 * ad)) * xd == -((ad * bd) * (sn * xd))) by (nonlinear_arith);
        assert(v == -u);
    } else {
        assert(((((-bn) * sd) + bd * sn) * (1 * ad)) * xd == (((-bn) * sd) * (1 * ad)) * xd + ((bd
            * sn) * (1 * ad)) * xd) by (nonlinear_arith);
        assert((((-bn) * sd) * (1 * ad)) * xd == -((ad * bn) * (sd * xd))) by (nonlinear_arith);
        assert(((bd * sn) * (1 * ad)) * xd == (ad * bd) * (sn * xd)) by (nonlinear_arith);
        assert(v == u);
    }
    assert(u * u == v * v) by (nonlinear_arith)
        requires
            v == u || v == -u,
    ;
    // square both named products
    let p = 2 * ((an * bd) * (sd * xn));
    let q = (ad * bn) * (sd * xd);
    assert(v * v == p * p + 2 * (p * q) + q * q) by (nonlinear_arith)
        requires
            v == p + q,
    ;
    assert(u * u == ad2 * (bd2 * (sn2 * xd2))) by (nonlinear_arith)
        requires
            u == (ad * bd) * (sn * xd),
            ad2 == ad * ad,
            bd2 == bd * bd,
            sn2 == sn * sn,
            xd2 == xd * xd,
    ;
    assert(p * p == 4 * (an2 * (bd2 * (sd2 * xn2)))) by (nonlinear_arith)
        requires
            p == 2 * ((an * bd) * (sd * xn)),
            an2 == an * an,
            bd2 == bd * bd,
            sd2 == sd * sd,
            xn2 == xn * xn,
    ;
    assert(q * q == ad2 * (bn2 * (sd2 * xd2))) by (nonlinear_arith)
        requires
            q == (ad * bn) * (sd * xd),
            ad2 == ad * ad,
            bn2 == bn * bn,
            sd2 == sd * sd,
            xd2 == xd * xd,
    ;
    assert(p * q == 2 * (((an * bd) * (sd * xn)) * ((ad * bn) * (sd * xd)))) by (nonlinear_arith)
        requires
            p == 2 * ((an * bd) * (sd * xn)),
            q == (ad * bn) * (sd * xd),
    ;
    assert(((an * bd) * (sd * xn)) * ((ad * bn) * (sd * xd)) == ((an * bd) * (ad * bn)) * ((sd
        * xn) * (sd * xd))) by (nonlinear_arith);
    assert((an * bd) * (ad * bn) == (an * ad) * (bn * bd)) by (nonlinear_arith);
    assert((sd * xn) * (sd * xd) == sd2 * (xn * xd)) by (nonlinear_arith)
        requires
            sd2 == sd * sd,
    ;
    assert(((an * bd) * (ad * bn)) * ((sd * xn) * (sd * xd)) == ((an * ad) * (bn * bd)) * (sd2 * (
    xn * xd))) by (nonlinear_arith)
        requires
            (an * bd) * (ad * bn) == (an * ad) * (bn * bd),
            (sd * xn) * (sd * xd) == sd2 * (xn * xd),
    ;
    assert(p * q == 2 * ((an * ad) * ((bn * bd) * (sd2 * (xn * xd))))) by (nonlinear_arith)
        requires
            p * q == 2 * (((an * ad) * (bn * bd)) * (sd2 * (xn * xd))),
    ;
    // multiply the discriminant equation by ad * xd^2 and identify the
    // left side with cd * u^2
    assert(cd * (u * u) == (sn2 * (bd2 * (ad * cd))) * (ad * xd2)) by (nonlinear_arith)
        requires
            u * u == ad2 * (bd2 * (sn2 * xd2)),
            ad2 == ad * ad,
    ;
    lemma_eq_scale(
        sn2 * (bd2 * (ad * cd)),
        (bn2 * (ad * cd) - 4 * (an * (cn * bd2))) * sd2,
        ad * xd2,
    );
    assert((sn2 * (bd2 * (ad * cd))) * (ad * xd2) == ((bn2 * (ad * cd) - 4 * (an * (cn * bd2)))
        * sd2) * (ad * xd2));
    assert(((bn2 * (ad * cd) - 4 * (an * (cn * bd2))) * sd2) * (ad * xd2) == (bn2 * (ad * cd))
        * (sd2 * (ad * xd2)) - 4 * ((an * (cn * bd2)) * (sd2 * (ad * xd2)))) by (nonlinear_arith);
    let u1 = sd2 * xd2;
    assert(sd2 * (ad * xd2) == ad * u1) by (nonlinear_arith)
        requires
            u1 == sd2 * xd2,
    ;
    assert((bn2 * (ad * cd)) * (sd2 * (ad * xd2)) == (bn2 * (ad * cd)) * (ad * u1));
    assert((bn2 * (ad * cd)) * (ad * u1) == cd * ((ad * ad) * (bn2 * u1))) by (nonlinear_arith);
    assert(cd * ((ad * ad) * (bn2 * u1)) == cd * ((ad * ad) * (bn2 * (sd2 * xd2))));
    assert((bn2 * (ad * cd)) * (sd2 * (ad * xd2)) == cd * ((ad * ad) * (bn2 * (sd2 * xd2))));
    assert(cd * ((ad * ad) * (bn2 * (sd2 * xd2))) == cd * (q * q)) by (nonlinear_arith)
        requires
            q * q == ad2 * (bn2 * (sd2 * xd2)),
            ad2 == ad * ad,
    ;
    assert((an * (cn * bd2)) * (sd2 * (ad * xd2)) == (an * ad) * ((cn * bd2) * (sd2 * xd2)))
        by (nonlinear_arith);
    assert(((bn2 * (ad * cd) - 4 * (an * (cn * bd2))) * sd2) * (ad * xd2) == cd * (q * q) - 4 * (
    (an * ad) * ((cn * bd2) * (sd2 * xd2))));
    // equate with cd times the expanded square of v
    assert(cd * (u * u) == cd * (p * p) + 2 * (cd * (p * q)) + cd * (q * q)) by (nonlinear_arith)
        requires
            u * u == v * v,
            v * v == p * p + 2 * (p * q) + q * q,
    ;
    // cancel the shared cd q^2 term
    assert(-(4 * ((an * ad) * ((cn * bd2) * (sd2 * xd2)))) == cd * (p * p) + 2 * (cd * (p * q)));
    // divide by 4 an bd sd^2
    let k = 4 * (an * (bd * sd2));
    assert(k != 0) by (nonlinear_arith)
        requires
            k == 4 * (an * (bd * sd2)),
            an != 0,
            bd > 0,
            sd2 == sd * sd,
            sd > 0,
    ;
    assert((cn * bd2) * (sd2 * xd2) == (bd * sd2) * ((bd * cn) * xd2)) by (nonlinear_arith)
        requires
            bd2 == bd * bd,
    ;
    assert((an * ad) * ((bd * sd2) * ((bd * cn) * xd2)) == (an * (bd * sd2)) * ((ad * bd) * (cn
        * xd2))) by (nonlinear_arith);
    assert(-(4 * ((an * ad) * ((cn * bd2) * (sd2 * xd2)))) == k * (-((ad * bd) * (cn * xd2))))
        by (nonlinear_arith)
        requires
            k == 4 * (an * (bd * sd2)),
            (an * ad) * ((cn * bd2) * (sd2 * xd2)) == (an * (bd * sd2)) * ((ad * bd) * (cn
                * xd2)),
    ;
    assert(cd * (p * p) == 4 * (cd * (an2 * (bd2 * (sd2 * xn2))))) by (nonlinear_arith)
        requires
            p * p == 4 * (an2 * (bd2 * (sd2 * xn2))),
    ;
    assert((an * (bd * sd2)) * ((an * bd) * (cd * xn2)) == ((an * an) * (bd * bd)) * (sd2 * (cd
        * xn2))) by (nonlinear_arith);
    assert(((an * an) * (bd * bd)) * (sd2 * (cd * xn2)) == cd * (an2 * (bd2 * (sd2 * xn2))))
        by (nonlinear_arith)
        requires
            an2 == an * an,
            bd2 == bd * bd,
    ;
    assert(cd * (p * p) == k * ((an * bd) * (cd * xn2))) by (nonlinear_arith)
        requires
            cd * (p * p) == 4 * ((an * (bd * sd2)) * ((an * bd) * (cd * xn2))),
            k == 4 * (an * (bd * sd2)),
    ;
    lemma_double_shift(cd, (an * ad) * ((bn * bd) * (sd2 * (xn * xd))), p * q);
    assert(2 * (cd * (p * q)) == 4 * (cd * ((an * ad) * ((bn * bd) * (sd2 * (xn * xd))))));
    let v1 = xn * xd;
    let w1 = bd * sd2;
    assert((bn * bd) * (sd2 * v1) == w1 * (bn * v1)) by (nonlinear_arith)
        requires
            w1 == bd * sd2,
    ;
    assert((an * ad) * (w1 * (bn * v1)) == (an * w1) * ((ad * bn) * v1)) by (nonlinear_arith);
    assert(cd * ((an * w1) * ((ad * bn) * v1)) == (an * w1) * ((ad * bn) * (cd * v1)))
        by (nonlinear_arith);
    assert(cd * ((an * ad) * ((bn * bd) * (sd2 * (xn * xd)))) == (an * (bd * sd2)) * ((ad * bn)
        * (cd * (xn * xd))));
    assert(2 * (cd * (p * q)) == k * ((ad * bn) * (cd * (xn * xd)))) by (nonlinear_arith)
        requires
            2 * (cd * (p * q)) == 4 * ((an * (bd * sd2)) * ((ad * bn) * (cd * (xn * xd)))),
            k == 4 * (an * (bd * sd2)),
    ;
    assert(k * (-((ad * bd) * (cn * xd2))) == k * ((an * bd) * (cd * xn2) + (ad * bn) * (cd * (xn
        * xd)))) by (nonlinear_arith)
        requires
            k * (-((ad * bd) * (cn * xd2))) == k * ((an * bd) * (cd * xn2)) + k * ((ad * bn) * (cd
                * (xn * xd))),
    ;
    vstd::arithmetic::mul::lemma_mul_equality_converse(
        k,
        -((ad * bd) * (cn * xd2)),
        (an * bd) * (cd * xn2) + (ad * bn) * (cd * (xn * xd)),
    );
    // the root relation: ad bd cn xd^2 + an bd cd xn^2 + ad bn cd xn xd == 0
    assert((ad * bd) * (cn * xd2) + (an * bd) * (cd * xn2) + (ad * bn) * (cd * (xn * xd)) == 0);
    // the evaluation numerator is xd times that
    assert((cn * (bd * xd) + cd * (bn * xn)) * (ad * xd2) + (cd * (bd * xd)) * (an * xn2) == (cn
        * (bd * xd)) * (ad * xd2) + (cd * (bn * xn)) * (ad * xd2) + (cd * (bd * xd)) * (an * xn2))
        by (nonlinear_arith);
    assert((cn * (bd * xd)) * (ad * xd2) == xd * ((ad * bd) * (cn * xd2))) by (nonlinear_arith);
    assert(ad * xd2 == ad * (xd * xd)) by (nonlinear_arith)
        requires
            xd2 == xd * xd,
    ;
    assert((cd * (bn * xn)) * (ad * (xd * xd)) == ((ad * bn) * (cd * xn)) * (xd * xd))
        by (nonlinear_arith);
    assert(((ad * bn) * (cd * xn)) * (xd * xd) == xd * ((ad * bn) * (cd * (xn * xd))))
        by (nonlinear_arith);
    assert((cd * (bn * xn)) * (ad * xd2) == xd * ((ad * bn) * (cd * (xn * xd))));
    assert((cd * (bd * xd)) * (an * xn2) == xd * ((an * bd) * (cd * xn2))) by (nonlinear_arith);
    assert(e.num == xd * ((ad * bd) * (cn * xd2)) + xd * ((an * bd) * (cd * xn2)) + xd * ((ad
        * bn) * (cd * (xn * xd))));
    assert(e.num == xd * ((ad * bd) * (cn * xd2) + (an * bd) * (cd * xn2) + (ad * bn) * (cd * (xn
        * xd)))) by (nonlinear_arith)
        requires
            e.num == xd * ((ad * bd) * (cn * xd2)) + xd * ((an * bd) * (cd * xn2)) + xd * ((ad
                * bn) * (cd * (xn * xd))),
    ;
    assert(e.num == 0) by (nonlinear_arith)
        requires
            e.num == xd * ((ad * bd) * (cn * xd2) + (an * bd) * (cd * xn2) + (ad * bn) * (cd * (xn
                * xd))),
            (ad * bd) * (cn * xd2) + (an * bd) * (cd * xn2) + (ad * bn) * (cd * (xn * xd)) == 0,
    ;
    assert(e.num * 1 == 0 * e.den) by (nonlinear_arith)
        requires
            e.num == 0,
    ;
}

/// Find the real rational roots of a polynomial. Degree one and two use
/// the closed forms; degree three and above search the candidates that
/// the rational root theorem allows and count multiplicities through the
/// derivative chain. Degree zero has no solution path.
#[verifier::rlimit(50)]
pub fn solve_univariate_polynomial(poly: &Polynomial) -> (r: Result<Vec<Rational>, MathError>)
    requires
        poly.wf(),
    ensures
        poly.degree == 0 <==> r == Err::<Vec<Rational>, MathError>(MathError::UnsupportedDegree),
        r matches Ok(roots) ==> roots_sound(poly.coeffs@, poly.degree as int, roots@),
        poly.degree == 1 ==> (poly_coeff(poly.coeffs@, 1).num == 0 ==> r == Err::<
            Vec<Rational>,
            MathError,
        >(MathError::DivisionByZero)),
        poly.degree == 1 ==> (r is Ok <==> poly_coeff(poly.coeffs@, 1).num != 0 && fits_i64(
            canon(
                frac_div(frac_neg(poly_coeff(poly.coeffs@, 0)), poly_coeff(poly.coeffs@, 1)),
            ),
        )),
        poly.degree == 1 ==> (r matches Ok(roots) ==> roots@.len() == 1),
        poly.degree == 1 ==> (r is Err ==> r == Err::<Vec<Rational>, MathError>(
            MathError::DivisionByZero,
        ) || r == Err::<Vec<Rational>, MathError>(MathError::Overflow)),
        poly.degree == 1 ==> (r == Err::<Vec<Rational>, MathError>(MathError::DivisionByZero)
            ==> poly_coeff(poly.coeffs@, 1).num == 0),
        poly.degree == 2 ==> (match quad_steps(poly.coeffs@) {
            Ok(vals) => r is Ok && r->Ok_0@.len() == vals.len() && (forall|k: int|
                0 <= k < vals.len() ==> (#[trigger] r->Ok_0@[k])@ == vals[k]),
            Err(e) => r == Err::<Vec<Rational>, MathError>(e),
        }),
        poly.degree == 2 ==> (r matches Ok(roots) ==> ((frac_lt(
            discriminant_of(poly.coeffs@),
            frac_int(0),
        ) ==> roots@.len() == 0) && (frac_eq(discriminant_of(poly.coeffs@), frac_int(0))
            ==> roots@.len() == 1) && (frac_lt(frac_int(0), discriminant_of(poly.coeffs@))
            ==> roots@.len() == 2))),
        poly.degree == 2 ==> (r is Err ==> r == Err::<Vec<Rational>, MathError>(
            MathError::Overflow,
        ) || r == Err::<Vec<Rational>, MathError>(MathError::IrrationalResult) || r == Err::<
            Vec<Rational>,
            MathError,
        >(MathError::DivisionByZero)),
        poly.degree >= 3 ==> ((poly_coeff(poly.coeffs@, 0).den != 1 || poly_coeff(
            poly.coeffs@,
            poly.degree as int,
        ).den != 1) <==> r == Err::<Vec<Rational>, MathError>(MathError::NotNormalized)),
        poly.degree >= 3 ==> (r matches Ok(roots) ==> rational_roots_complete(
            poly.coeffs@,
            poly.degree as int,
            roots@,
        )),
        poly.degree >= 3 ==> (r matches Ok(roots) ==> roots_with_multiplicity(
            poly.coeffs@,
            poly.degree as int,
            roots@,
        )),
        poly.degree >= 3 ==> (r is Err ==> r == Err::<Vec<Rational>, MathError>(
            MathError::NotNormalized,
        ) || r == Err::<Vec<Rational>, MathError>(MathError::Overflow)),
        poly.degree >= 3 ==> (r is Ok <==> (poly_coeff(poly.coeffs@, 0).den == 1 && poly_coeff(
            poly.coeffs@,
            poly.degree as int,
        ).den == 1 && search_steps_ok(poly.coeffs@, poly.degree as int))),
{
    let ghost s = poly.coeffs@;
    let ghost d = poly.degree as int;
    if poly.degree() == 0 {
        return Err(MathError::UnsupportedDegree);
    }
    if poly.degree() == 1 {
        let c0 = poly.get(0);
        let c1 = poly.get(1);
        let root = match c0.neg().div(&c1) {
            Ok(root) => root,
            Err(e) => {
                return Err(e);
            },
        };
        proof {
            lemma_frac_nonzero_den(frac_neg(c0@), frac_recip(c1@));
            lemma_canon_cross(frac_div(frac_neg(c0@), c1@));
            lemma_linear_root(s, root@);
        }
        let mut roots: Vec<Rational> = Vec::new();
        roots.push(root);
        return Ok(roots);
    }
    if poly.degree() == 2 {
        let a = poly.get(2);
        let b = poly.get(1);
        let c = poly.get(0);
        let four = Rational::from_int(4);
        let two = Rational::from_int(2);
        let zero = Rational::from_int(0);
        let bb = match b.mul(&b) {
            Ok(v) => v,
            Err(e) => {
                proof {
                    assert(quad_steps(s) == Err::<Seq<Frac>, MathError>(MathError::Overflow));
                }
                return Err(e);
            },
        };
        let fa = match four.mul(&a) {
            Ok(v) => v,
            Err(e) => {
                proof {
                    assert(quad_steps(s) == Err::<Seq<Frac>, MathError>(MathError::Overflow));
                }
                return Err(e);
            },
        };
        let fac = match fa.mul(&c) {
            Ok(v) => v,
            Err(e) => {
                proof {
                    assert(quad_steps(s) == Err::<Seq<Frac>, MathError>(MathError::Overflow));
                }
                return Err(e);
            },
        };
        let disc = match bb.sub(&fac) {
            Ok(v) => v,
            Err(e) => {
                proof {
                    assert(quad_steps(s) == Err::<Seq<Frac>, MathError>(MathError::Overflow));
                }
                return Err(e);
            },
        };
        proof {
            lemma_quadratic_disc_value(s, a@, b@, c@, bb@, fa@, fac@, disc@);
            lemma_discriminant_den(s);
            lemma_order_trichotomy(discriminant_of(s), frac_int(0));
            lemma_sign_transfer(disc@, discriminant_of(s));
            assert(quad_steps(s) == quad_root_steps(s, disc@));
        }
        match disc.cmp(&zero) {
            core::cmp::Ordering::Greater => {
                let sq = match disc.sqrt() {
                    Ok(v) => v,
                    Err(e) => {
                        proof {
                            assert(quad_root_steps(s, disc@) == Err::<Seq<Frac>, MathError>(
                                MathError::IrrationalResult,
                            ));
                        }
                        return Err(e);
                    },
                };
                proof {
                    lemma_nonneg_root_unique(disc@.num, sq@.num);
                    lemma_nonneg_root_unique(disc@.den, sq@.den);
                }
                let denom2a = match two.mul(&a) {
                    Ok(v) => v,
                    Err(e) => {
                        return Err(e);
                    },
                };
                let nb = b.neg();
                let n1 = match nb.sub(&sq) {
                    Ok(v) => v,
                    Err(e) => {
                        return Err(e);
                    },
                };
                let r1 = match n1.div(&denom2a) {
                    Ok(v) => v,
                    Err(e) => {
                        return Err(e);
                    },
                };
                let n2 = match nb.add(&sq) {
                    Ok(v) => v,
                    Err(e) => {
                        return Err(e);
                    },
                };
                let r2 = match n2.div(&denom2a) {
                    Ok(v) => v,
                    Err(e) => {
                        return Err(e);
                    },
                };
                proof {
                    // the extracted square root squares to the discriminant
                    assert(frac_mul(sq@, sq@) == disc@);
                    lemma_frac_nonzero_den(sq@, sq@);
                    lemma_discriminant_den(s);
                    lemma_frac_eq_transitive(frac_mul(sq@, sq@), disc@, discriminant_of(s));
                    // the divisions denote the two closed-form roots
                    lemma_double_nonzero(a@, denom2a@);
                    lemma_frac_nonzero_den(frac_neg(b@), sq@);
                    lemma_root_formula_value(
                        n1@,
                        denom2a@,
                        r1@,
                        frac_sub(frac_neg(b@), sq@),
                        frac_mul(frac_int(2), a@),
                    );
                    lemma_quadratic_root(s, sq@, r1@, false);
                    lemma_root_formula_value(
                        n2@,
                        denom2a@,
                        r2@,
                        crate::rational::frac_add(frac_neg(b@), sq@),
                        frac_mul(frac_int(2), a@),
                    );
                    lemma_quadratic_root(s, sq@, r2@, true);
                }
                let mut roots: Vec<Rational> = Vec::new();
                roots.push(r1);
                roots.push(r2);
                Ok(roots)
            },
            core::cmp::Ordering::Equal => {
                let denom2a = match two.mul(&a) {
                    Ok(v) => v,
                    Err(e) => {
                        return Err(e);
                    },
                };
                let nb = b.neg();
                let root = match nb.div(&denom2a) {
                    Ok(v) => v,
                    Err(e) => {
                        return Err(e);
                    },
                };
                proof {
                    // a zero square root squares to the vanished discriminant
                    let zf = frac_int(0);
                    assert(0int * 0int == 0 && 1int * 1int == 1) by (nonlinear_arith);
                    assert(frac_mul(zf, zf) == zf);
                    lemma_discriminant_den(s);
                    lemma_frac_eq_transitive(zf, disc@, discriminant_of(s));
                    // subtracting the zero root leaves the negated middle
                    // coefficient unchanged
                    assert((-b@.num) * 1 + b@.den * (-0) == -b@.num && b@.den * 1 == b@.den)
                        by (nonlinear_arith);
                    assert(frac_sub(frac_neg(b@), zf) == frac_neg(b@));
                    lemma_canon_identity(frac_neg(b@));
                    lemma_double_nonzero(a@, denom2a@);
                    lemma_root_formula_value(
                        nb@,
                        denom2a@,
                        root@,
                        frac_sub(frac_neg(b@), zf),
                        frac_mul(frac_int(2), a@),
                    );
                    lemma_quadratic_root(s, zf, root@, false);
                }
                let mut roots: Vec<Rational> = Vec::new();
                roots.push(root);
                Ok(roots)
            },
            core::cmp::Ordering::Less => {
                let roots: Vec<Rational> = Vec::new();
                Ok(roots)
            },
        }
    } else {
        solve_by_rational_root_search(poly)
    }
}

/// The computed discriminant denotes the mathematical one.
proof fn lemma_quadratic_disc_value(
    s: Seq<(u32, Rational)>,
    a: Frac,
    b: Frac,
    c: Frac,
    bb: Frac,
    fa: Frac,
    fac: Frac,
    disc: Frac,
)
    requires
        a == poly_coeff(s, 2),
        b == poly_coeff(s, 1),
        c == poly_coeff(s, 0),
        a.den > 0,
        b.den > 0,
        c.den > 0,
        bb.den > 0,
        fa.den > 0,
        fac.den > 0,
        disc.den > 0,
        bb == canon(frac_mul(b, b)),
        fa == canon(frac_mul(frac_int(4), a)),
        fac == canon(frac_mul(fa, c)),
        disc == canon(frac_sub(bb, fac)),
    ensures
        frac_eq(disc, discriminant_of(s)),
{
    lemma_frac_nonzero_den(b, b);
    lemma_canon_cross(frac_mul(b, b));
    lemma_frac_nonzero_den(frac_int(4), a);
    lemma_canon_cross(frac_mul(frac_int(4), a));
    lemma_frac_nonzero_den(fa, c);
    lemma_canon_cross(frac_mul(fa, c));
    lemma_frac_nonzero_den(frac_mul(frac_int(4), a), c);
    // fac denotes (4*a)*c
    lemma_frac_mul_congruence(fa, frac_mul(frac_int(4), a), c, c);
    lemma_frac_eq_transitive(fac, frac_mul(fa, c), frac_mul(frac_mul(frac_int(4), a), c));
    // disc denotes b*b - (4*a)*c
    lemma_frac_nonzero_den(bb, fac);
    lemma_canon_cross(frac_sub(bb, fac));
    lemma_frac_sub_congruence(bb, frac_mul(b, b), fac, frac_mul(frac_mul(frac_int(4), a), c));
    lemma_frac_nonzero_den(frac_mul(b, b), frac_mul(frac_mul(frac_int(4), a), c));
    lemma_frac_nonzero_den(b, b);
    lemma_frac_eq_transitive(disc, frac_sub(bb, fac), discriminant_of(s));
}

/// The general search path for degree three and above: both extreme
/// coefficients must be integers; every reduced fraction of a divisor of
/// the constant term over a divisor of the leading coefficient is tested
/// by exact evaluation, and each confirmed root is emitted once per order
/// of vanishing of the derivative chain.
fn solve_by_rational_root_search(poly: &Polynomial) -> (r: Result<Vec<Rational>, MathError>)
    requires
        poly.wf(),
        poly.degree >= 3,
    ensures
        r matches Ok(roots) ==> roots_sound(poly.coeffs@, poly.degree as int, roots@),
        (poly_coeff(poly.coeffs@, 0).den != 1 || poly_coeff(
            poly.coeffs@,
            poly.degree as int,
        ).den != 1) <==> r == Err::<Vec<Rational>, MathError>(MathError::NotNormalized),
        r matches Ok(roots) ==> rational_roots_complete(
            poly.coeffs@,
            poly.degree as int,
            roots@,
        ),
        r matches Ok(roots) ==> roots_with_multiplicity(
            poly.coeffs@,
            poly.degree as int,
            roots@,
        ),
        r is Err ==> r == Err::<Vec<Rational>, MathError>(MathError::NotNormalized) || r == Err::<
            Vec<Rational>,
            MathError,
        >(MathError::Overflow),
        r is Ok <==> (poly_coeff(poly.coeffs@, 0).den == 1 && poly_coeff(
            poly.coeffs@,
            poly.degree as int,
        ).den == 1 && search_steps_ok(poly.coeffs@, poly.degree as int)),
{
    let ghost s = poly.coeffs@;
    let ghost d = poly.degree as int;
    let c0r = poly.get(0);
    let cdr = poly.get(poly.degree());
    let c0 = match c0r.as_integer() {
        Some(v) => v,
        None => {
            return Err(MathError::NotNormalized);
        },
    };
    let cd = match cdr.as_integer() {
        Some(v) => v,
        None => {
            return Err(MathError::NotNormalized);
        },
    };
    proof {
        assert(c0 as int == poly_coeff(s, 0).num);
        assert(cd as int == poly_coeff(s, d).num);
        lemma_poly_coeff_reduced(s, 0);
        lemma_poly_coeff_reduced(s, d);
    }
    let ps = integer_factors(c0);
    let qs = integer_factors(cd);
    let mut roots: Vec<Rational> = Vec::new();
    let mut pi: usize = 0;
    while pi < ps.len()
        invariant
            poly.wf(),
            s == poly.coeffs@,
            d == poly.degree as int,
            d >= 3,
            pi <= ps@.len(),
            c0 as int == poly_coeff(s, 0).num,
            cd as int == poly_coeff(s, d).num,
            poly_coeff(s, 0).den == 1,
            poly_coeff(s, d).den == 1,
            forall|i: int|
                0 <= i < ps@.len() ==> (#[trigger] ps@[i]) != 0 && divides(
                    ps@[i] as int,
                    c0 as int,
                ) && i64::MIN < ps@[i],
            forall|i: int|
                0 <= i < qs@.len() ==> (#[trigger] qs@[i]) != 0 && divides(
                    qs@[i] as int,
                    cd as int,
                ) && i64::MIN < qs@[i],
            c0 == 0 ==> ps@.len() == 0,
            forall|x: int, y: int|
                0 <= x < pi && 0 <= y < qs@.len() ==> #[trigger] pair_chain_ok(
                    s,
                    d,
                    ps@,
                    qs@,
                    x,
                    y,
                ),
            c0 != 0 ==> forall|dv: int|
                dv != 0 && divides(dv, c0 as int) ==> exists|i: int|
                    0 <= i < ps@.len() && (#[trigger] ps@[i]) == dv,
            cd != 0 ==> forall|dv: int|
                dv != 0 && divides(dv, cd as int) ==> exists|i: int|
                    0 <= i < qs@.len() && (#[trigger] qs@[i]) == dv,
            cd == 0 ==> qs@.len() == 0,
            roots_sound(s, d, roots@),
            forall|x: int, y: int| 0 <= x < y < ps@.len() ==> (#[trigger] ps@[x]) != (#[trigger] ps@[y]),
            forall|x: int, y: int| 0 <= x < y < qs@.len() ==> (#[trigger] qs@[x]) != (#[trigger] qs@[y]),
            forall|x: int, y: int|
                0 <= x < pi && 0 <= y < qs@.len() ==> #[trigger] pair_done(
                    s,
                    d,
                    ps@,
                    qs@,
                    x,
                    y,
                    roots@,
                ),
            forall|x: int, y: int|
                0 <= x < pi && 0 <= y < qs@.len() ==> #[trigger] pair_counted(
                    s,
                    d,
                    ps@,
                    qs@,
                    x,
                    y,
                    roots@,
                ),
            forall|x: int, y: int|
                pi <= x < ps@.len() && 0 <= y < qs@.len() ==> #[trigger] pair_untouched(
                    ps@,
                    qs@,
                    x,
                    y,
                    roots@,
                ),
            forall|k: int|
                0 <= k < roots@.len() ==> entry_from_candidates(
                    c0 as int,
                    cd as int,
                    (#[trigger] roots@[k])@,
                ),
        decreases ps@.len() - pi,
    {
        let p = ps[pi];
        let mut qi: usize = 0;
        while qi < qs.len()
            invariant
                poly.wf(),
                s == poly.coeffs@,
                d == poly.degree as int,
                d >= 3,
                pi < ps@.len(),
                qi <= qs@.len(),
                p == ps@[pi as int],
                p != 0,
                p > i64::MIN,
                c0 as int == poly_coeff(s, 0).num,
                cd as int == poly_coeff(s, d).num,
                poly_coeff(s, 0).den == 1,
                poly_coeff(s, d).den == 1,
                forall|i: int|
                    0 <= i < qs@.len() ==> (#[trigger] qs@[i]) != 0 && divides(
                        qs@[i] as int,
                        cd as int,
                    ) && i64::MIN < qs@[i],
                cd == 0 ==> qs@.len() == 0,
                roots_sound(s, d, roots@),
                divides(p as int, c0 as int),
                c0 != 0,
                cd == 0 ==> qs@.len() == 0,
                forall|x: int, y: int|
                    0 <= x < pi && 0 <= y < qs@.len() ==> #[trigger] pair_chain_ok(
                        s,
                        d,
                        ps@,
                        qs@,
                        x,
                        y,
                    ),
                forall|y: int|
                    0 <= y < qi ==> #[trigger] pair_chain_ok(s, d, ps@, qs@, pi as int, y),
                forall|x: int, y: int| 0 <= x < y < ps@.len() ==> (#[trigger] ps@[x]) != (#[trigger] ps@[y]),
                forall|x: int, y: int| 0 <= x < y < qs@.len() ==> (#[trigger] qs@[x]) != (#[trigger] qs@[y]),
                forall|i2: int|
                    0 <= i2 < ps@.len() ==> (#[trigger] ps@[i2]) != 0 && i64::MIN < ps@[i2],
                forall|x: int, y: int|
                    0 <= x < pi && 0 <= y < qs@.len() ==> #[trigger] pair_done(
                        s,
                        d,
                        ps@,
                        qs@,
                        x,
                        y,
                        roots@,
                    ),
                forall|y: int|
                    0 <= y < qi ==> #[trigger] pair_done(s, d, ps@, qs@, pi as int, y, roots@),
                forall|x: int, y: int|
                    0 <= x < pi && 0 <= y < qs@.len() ==> #[trigger] pair_counted(
                        s,
                        d,
                        ps@,
                        qs@,
                        x,
                        y,
                        roots@,
                    ),
                forall|y: int|
                    0 <= y < qi ==> #[trigger] pair_counted(s, d, ps@, qs@, pi as int, y, roots@),
                forall|x: int, y: int|
                    pi < x < ps@.len() && 0 <= y < qs@.len() ==> #[trigger] pair_untouched(
                        ps@,
                        qs@,
                        x,
                        y,
                        roots@,
                    ),
                forall|y: int|
                    qi <= y < qs@.len() ==> #[trigger] pair_untouched(
                        ps@,
                        qs@,
                        pi as int,
                        y,
                        roots@,
                    ),
                forall|k: int|
                    0 <= k < roots@.len() ==> entry_from_candidates(
                        c0 as int,
                        cd as int,
                        (#[trigger] roots@[k])@,
                    ),
            decreases qs@.len() - qi,
        {
            let q = qs[qi];
            proof {
                assert(cd != 0);
            }
            let ghost r0 = roots@;
            match handle_candidate(poly, p, q, &mut roots) {
                Ok(_) => {},
                Err(e) => {
                    proof {
                        assert(!candidate_chain_ok(s, d, p as int, q as int));
                        if search_steps_ok(s, d) {
                            assert(candidate_chain_ok(s, d, p as int, q as int));
                        }
                        assert(!search_steps_ok(s, d));
                    }
                    return Err(e);
                },
            }
            proof {
                assert forall|x: int, y: int|
                    0 <= x < pi && 0 <= y < qs@.len() implies #[trigger] pair_done(
                    s,
                    d,
                    ps@,
                    qs@,
                    x,
                    y,
                    roots@,
                ) by {
                    assert(pair_done(s, d, ps@, qs@, x, y, r0));
                    lemma_candidate_done_grow(s, d, ps@[x] as int, qs@[y] as int, r0, roots@);
                }
                assert forall|y: int| 0 <= y < qi + 1 implies #[trigger] pair_done(
                    s,
                    d,
                    ps@,
                    qs@,
                    pi as int,
                    y,
                    roots@,
                ) by {
                    if y < qi {
                        assert(pair_done(s, d, ps@, qs@, pi as int, y, r0));
                        lemma_candidate_done_grow(
                            s,
                            d,
                            ps@[pi as int] as int,
                            qs@[y] as int,
                            r0,
                            roots@,
                        );
                    }
                }
                assert(pair_chain_ok(s, d, ps@, qs@, pi as int, qi as int));
                // counts: no fraction but the current candidate's moved
                let ghost f = Frac { num: p as int, den: q as int };
                assert forall|g: Frac| g != f implies #[trigger] occurrences(roots@, g)
                    == occurrences(r0, g) by {
                    if p as int != 0 && q as int >= 1 && coprime(abs(p as int), q as nat)
                        && is_root(s, f, d) {
                        assert(candidate_counted(s, d, p as int, q as int, r0, roots@));
                    } else {
                        assert(roots@ == r0);
                    }
                }
                assert(pair_untouched(ps@, qs@, pi as int, qi as int, r0));
                assert(pair_counted(s, d, ps@, qs@, pi as int, qi as int, roots@)) by {
                    if p as int != 0 && q as int >= 1 && coprime(abs(p as int), q as nat)
                        && is_root(s, f, d) {
                        assert(candidate_counted(s, d, p as int, q as int, r0, roots@));
                        let m = choose|m: int|
                            #[trigger] is_multiplicity(s, d, f, m) && occurrences(roots@, f)
                                == occurrences(r0, f) + m;
                        assert(occurrences(roots@, f) == m);
                    } else {
                        assert(roots@ == r0);
                    }
                }
                assert forall|x: int, y: int|
                    0 <= x < pi && 0 <= y < qs@.len() implies #[trigger] pair_counted(
                    s,
                    d,
                    ps@,
                    qs@,
                    x,
                    y,
                    roots@,
                ) by {
                    assert(pair_counted(s, d, ps@, qs@, x, y, r0));
                    assert(ps@[x] != p);
                    assert((Frac { num: ps@[x] as int, den: qs@[y] as int }) != f);
                }
                assert forall|y: int| 0 <= y < qi implies #[trigger] pair_counted(
                    s,
                    d,
                    ps@,
                    qs@,
                    pi as int,
                    y,
                    roots@,
                ) by {
                    assert(pair_counted(s, d, ps@, qs@, pi as int, y, r0));
                    assert(qs@[y] != q);
                    assert((Frac { num: ps@[pi as int] as int, den: qs@[y] as int }) != f);
                }
                assert forall|x: int, y: int|
                    pi < x < ps@.len() && 0 <= y < qs@.len() implies #[trigger] pair_untouched(
                    ps@,
                    qs@,
                    x,
                    y,
                    roots@,
                ) by {
                    assert(pair_untouched(ps@, qs@, x, y, r0));
                    assert(ps@[x] != p);
                    assert((Frac { num: ps@[x] as int, den: qs@[y] as int }) != f);
                }
                assert forall|y: int| qi + 1 <= y < qs@.len() implies #[trigger] pair_untouched(
                    ps@,
                    qs@,
                    pi as int,
                    y,
                    roots@,
                ) by {
                    assert(pair_untouched(ps@, qs@, pi as int, y, r0));
                    assert(qs@[y] != q);
                    assert((Frac { num: ps@[pi as int] as int, den: qs@[y] as int }) != f);
                }
                // every new entry is the current reduced divisor candidate
                assert forall|k: int| 0 <= k < roots@.len() implies entry_from_candidates(
                    c0 as int,
                    cd as int,
                    (#[trigger] roots@[k])@,
                ) by {
                    if k < r0.len() {
                        assert(roots@[k] == r0[k]);
                    } else {
                        assert(roots@[k]@ == f);
                        assert(divides(q as int, cd as int));
                        assert(f == (Frac { num: p as int, den: q as int }) && p as int != 0
                            && q as int >= 1 && coprime(abs(p as int), q as nat) && divides(
                            p as int,
                            c0 as int,
                        ) && divides(q as int, cd as int));
                    }
                }
            }
            qi = qi + 1;
        }
        proof {
            assert forall|x: int, y: int|
                0 <= x < pi + 1 && 0 <= y < qs@.len() implies #[trigger] pair_done(
                s,
                d,
                ps@,
                qs@,
                x,
                y,
                roots@,
            ) by {
                if x == pi as int {
                    assert(pair_done(s, d, ps@, qs@, pi as int, y, roots@));
                }
            }
            assert forall|x: int, y: int|
                0 <= x < pi + 1 && 0 <= y < qs@.len() implies #[trigger] pair_counted(
                s,
                d,
                ps@,
                qs@,
                x,
                y,
                roots@,
            ) by {
                if x == pi as int {
                    assert(pair_counted(s, d, ps@, qs@, pi as int, y, roots@));
                }
            }
            assert forall|x: int, y: int|
                pi + 1 <= x < ps@.len() && 0 <= y < qs@.len() implies #[trigger] pair_untouched(
                ps@,
                qs@,
                x,
                y,
                roots@,
            ) by {
                assert(pair_untouched(ps@, qs@, x, y, roots@));
            }
            assert forall|x: int, y: int|
                0 <= x < pi + 1 && 0 <= y < qs@.len() implies #[trigger] pair_chain_ok(
                s,
                d,
                ps@,
                qs@,
                x,
                y,
            ) by {
                if x == pi as int {
                    assert(pair_chain_ok(s, d, ps@, qs@, pi as int, y));
                }
            }
        }
        pi = pi + 1;
    }
    proof {
        assert forall|p: int, q: int|
            (p != 0 && q >= 1 && coprime(abs(p), q as nat) && poly_coeff(s, 0).num != 0
                && poly_coeff(s, d).num != 0 && divides(p, poly_coeff(s, 0).num) && divides(
                q,
                poly_coeff(s, d).num,
            )) implies #[trigger] candidate_done(s, d, p, q, roots@) by {
            let i = choose|i: int| 0 <= i < ps@.len() && (#[trigger] ps@[i]) == p;
            let j = choose|j: int| 0 <= j < qs@.len() && (#[trigger] qs@[j]) == q;
            assert(pair_done(s, d, ps@, qs@, i, j, roots@));
        }
        assert forall|p: int, q: int|
            (p != 0 && q >= 1 && coprime(abs(p), q as nat) && poly_coeff(s, 0).num != 0
                && poly_coeff(s, d).num != 0 && divides(p, poly_coeff(s, 0).num) && divides(
                q,
                poly_coeff(s, d).num,
            )) implies #[trigger] counted_absolute(s, d, p, q, roots@) by {
            let i = choose|i: int| 0 <= i < ps@.len() && (#[trigger] ps@[i]) == p;
            let j = choose|j: int| 0 <= j < qs@.len() && (#[trigger] qs@[j]) == q;
            assert(pair_counted(s, d, ps@, qs@, i, j, roots@));
        }
        assert(roots_with_multiplicity(s, d, roots@));
        if poly_coeff(s, 0).num != 0 && poly_coeff(s, d).num != 0 {
            assert forall|p: int, q: int|
                (p != 0 && q != 0 && divides(p, poly_coeff(s, 0).num) && divides(
                    q,
                    poly_coeff(s, d).num,
                )) implies #[trigger] candidate_chain_ok(s, d, p, q) by {
                let i = choose|i: int| 0 <= i < ps@.len() && (#[trigger] ps@[i]) == p;
                let j = choose|j: int| 0 <= j < qs@.len() && (#[trigger] qs@[j]) == q;
                assert(pair_chain_ok(s, d, ps@, qs@, i, j));
            }
        }
        assert(search_steps_ok(s, d));
    }
    Ok(roots)
}

/// Test one candidate fraction: where it is canonical and evaluates to
/// zero, append it once per order of vanishing of the derivative chain.
fn handle_candidate(poly: &Polynomial, p: i64, q: i64, roots: &mut Vec<Rational>) -> (r: Result<
    (),
    MathError,
>)
    requires
        poly.wf(),
        poly.degree >= 3,
        poly_coeff(poly.coeffs@, poly.degree as int).num != 0,
        p != 0,
        p > i64::MIN,
        q != 0,
        q > i64::MIN,
        roots_sound(poly.coeffs@, poly.degree as int, old(roots)@),
    ensures
        final(roots)@.len() >= old(roots)@.len(),
        forall|k: int| 0 <= k < old(roots)@.len() ==> final(roots)@[k] == old(roots)@[k],
        roots_sound(poly.coeffs@, poly.degree as int, final(roots)@),
        r is Ok ==> candidate_done(
            poly.coeffs@,
            poly.degree as int,
            p as int,
            q as int,
            final(roots)@,
        ),
        r is Ok ==> candidate_counted(
            poly.coeffs@,
            poly.degree as int,
            p as int,
            q as int,
            old(roots)@,
            final(roots)@,
        ),
        forall|k: int|
            old(roots)@.len() <= k < final(roots)@.len() ==> ((#[trigger] final(roots)@[k])@ == (
            Frac { num: p as int, den: q as int }) && p != 0 && q as int >= 1 && coprime(
                abs(p as int),
                q as nat,
            ) && is_root(poly.coeffs@, Frac { num: p as int, den: q as int }, poly.degree as int)),
        r is Err ==> r == Err::<(), MathError>(MathError::Overflow),
        r is Ok <==> candidate_chain_ok(poly.coeffs@, poly.degree as int, p as int, q as int),
{
    let ghost s = poly.coeffs@;
    let ghost d = poly.degree as int;
    if q <= 0 {
        return Ok(());
    }
    let pm: u64 = if p < 0 {
        ((-(p + 1)) as u64) + 1
    } else {
        p as u64
    };
    proof {
        assert(pm == abs(p as int));
    }
    let g = greatest_common_divisor(pm as u128, q as u128);
    if g != 1 {
        proof {
            assert(!coprime(abs(p as int), q as nat));
        }
        return Ok(());
    }
    proof {
        assert(coprime(abs(p as int), q as nat));
        assert(is_reduced(Frac { num: p as int, den: q as int }));
        lemma_canon_identity(Frac { num: p as int, den: q as int });
    }
    let cand = match Rational::new(p, q) {
        Ok(c) => c,
        Err(_) => {
            proof {
                assert(false);
            }
            return Err(MathError::Overflow);
        },
    };
    let v = match poly.eval(cand) {
        Ok(v) => v,
        Err(e) => {
            proof {
                assert(!candidate_chain_ok(s, d, p as int, q as int));
            }
            return Err(e);
        },
    };
    proof {
        assert(crate::polynomial::eval_steps(s, cand@, d + 1) == Some(v@));
    }
    if !v.is_zero() {
        proof {
            if is_root(s, cand@, d) {
                lemma_poly_eval_den(s, cand@, d + 1);
                lemma_frac_eq_transitive(v@, poly_eval_frac(s, cand@, d + 1), frac_int(0));
            }
            assert(candidate_chain_ok(s, d, p as int, q as int));
        }
        return Ok(());
    }
    proof {
        lemma_poly_eval_den(s, cand@, d + 1);
        lemma_frac_eq_transitive(poly_eval_frac(s, cand@, d + 1), v@, frac_int(0));
        assert(is_root(s, cand@, d));
    }
    // count the multiplicity: one, plus one per successive derivative
    // that also vanishes at the root
    proof {
        assert forall|e: int| 0 <= e implies #[trigger] poly_coeff(s, e) == deriv_coeff(
            s,
            0nat,
            e,
        ) by {}
    }
    let mut td = match poly.diff() {
        Ok(t) => t,
        Err(_) => {
            proof {
                lemma_diff_ok_equiv(s, s, 0nat, d);
                assert(!diff_chain_ok(s, 0nat, d));
                assert(!candidate_chain_ok(s, d, p as int, q as int));
            }
            return Err(MathError::Overflow);
        },
    };
    proof {
        lemma_diff_ok_equiv(s, s, 0nat, d);
        assert(diff_chain_ok(s, 0nat, d));
        lemma_derived_lead_nonzero(s, td.coeffs@, d);
        assert forall|e: int| 0 <= e implies #[trigger] poly_coeff(td.coeffs@, e) == deriv_coeff(
            s,
            1nat,
            e,
        ) by {
            assert(poly_coeff(td.coeffs@, e) == canon(
                frac_mul(poly_coeff(s, e + 1), frac_int(e + 1)),
            ));
            assert(deriv_coeff(s, 1nat, e) == canon(
                frac_mul(deriv_coeff(s, 0nat, e + 1), frac_int(e + 1)),
            ));
        }
    }
    let mut m: usize = 1;
    let mut tv = match td.eval(cand) {
        Ok(v) => v,
        Err(e) => {
            proof {
                lemma_eval_steps_agree(td.coeffs@, s, 1nat, cand@, td.degree as int + 1);
                assert(deriv_eval_steps(s, 1nat, cand@, d - 1 + 1) is None);
                assert(!mult_chain_ok(s, d, cand@, 1));
                assert(!candidate_chain_ok(s, d, p as int, q as int));
            }
            return Err(e);
        },
    };
    let mut vanish = tv.is_zero();
    proof {
        lemma_eval_steps_agree(td.coeffs@, s, 1nat, cand@, td.degree as int + 1);
        assert(deriv_eval_steps(s, 1nat, cand@, d - 1 + 1) == Some(tv@));
        lemma_deriv_eval_agree(td.coeffs@, s, 1nat, cand@, td.degree as int + 1);
        if vanish {
            lemma_poly_eval_den(td.coeffs@, cand@, td.degree as int + 1);
            lemma_frac_eq_transitive(
                poly_eval_frac(td.coeffs@, cand@, td.degree as int + 1),
                tv@,
                frac_int(0),
            );
            assert(derivative_vanishes(s, d, cand@, 1nat));
        }
    }
    while vanish
        invariant
            poly.wf(),
            s == poly.coeffs@,
            d == poly.degree as int,
            d >= 3,
            roots@ == old(roots)@,
            roots_sound(s, d, roots@),
            cand.wf(),
            td.wf(),
            poly_coeff(td.coeffs@, td.degree as int).num != 0,
            td.degree as int == d - m,
            p as int != 0,
            q as int >= 1,
            coprime(abs(p as int), q as nat),
            cand@ == (Frac { num: p as int, den: q as int }),
            crate::polynomial::eval_steps(s, cand@, d + 1) is Some,
            frac_eq(crate::polynomial::eval_steps(s, cand@, d + 1)->Some_0, frac_int(0)),
            diff_chain_ok(s, 0nat, d),
            mult_chain_ok(s, d, cand@, 1) == mult_chain_ok(s, d, cand@, m as int),
            deriv_eval_steps(s, m as nat, cand@, d - m + 1) == Some(tv@),
            forall|e: int|
                0 <= e ==> #[trigger] poly_coeff(td.coeffs@, e) == deriv_coeff(s, m as nat, e),
            forall|j: int| 1 <= j < m ==> #[trigger] derivative_vanishes(s, d, cand@, j as nat),
            vanish <==> frac_eq(tv@, frac_int(0)),
            tv.wf(),
            frac_eq(tv@, poly_eval_frac(td.coeffs@, cand@, td.degree as int + 1)),
            vanish ==> frac_eq(
                poly_eval_frac(td.coeffs@, cand@, td.degree as int + 1),
                frac_int(0),
            ),
            vanish ==> derivative_vanishes(s, d, cand@, m as nat),
            1 <= m,
            m + td.degree as int <= d,
        decreases td.degree,
    {
        proof {
            if td.degree == 0 {
                lemma_degree_zero_eval(td.coeffs@, cand@);
                assert(frac_eq(poly_coeff(td.coeffs@, 0), frac_int(0)));
                assert(poly_coeff(td.coeffs@, 0).num * 1 == poly_coeff(td.coeffs@, 0).num
                    && 0 * poly_coeff(td.coeffs@, 0).den == 0) by (nonlinear_arith);
                assert(false);
            }
        }
        proof {
            // the chain at the current level unfolds into this step
            assert(mult_chain_ok(s, d, cand@, m as int) == (diff_chain_ok(s, m as nat, d)
                && mult_chain_ok(s, d, cand@, m as int + 1)));
        }
        m = m + 1;
        let ghost td_old = td;
        td = match td.diff() {
            Ok(t) => t,
            Err(_) => {
                proof {
                    lemma_diff_ok_equiv(td_old.coeffs@, s, (m - 1) as nat, d);
                    assert(!diff_chain_ok(s, (m - 1) as nat, d));
                    assert(!mult_chain_ok(s, d, cand@, m as int - 1));
                    assert(!mult_chain_ok(s, d, cand@, 1));
                    assert(!candidate_chain_ok(s, d, p as int, q as int));
                }
                return Err(MathError::Overflow);
            },
        };
        proof {
            lemma_diff_ok_equiv(td_old.coeffs@, s, (m - 1) as nat, d);
            assert(diff_chain_ok(s, (m - 1) as nat, d));
            assert(mult_chain_ok(s, d, cand@, 1) == mult_chain_ok(s, d, cand@, m as int));
            lemma_derived_lead_nonzero(td_old.coeffs@, td.coeffs@, td_old.degree as int);
            assert forall|e: int| 0 <= e implies #[trigger] poly_coeff(td.coeffs@, e)
                == deriv_coeff(s, m as nat, e) by {
                assert(poly_coeff(td.coeffs@, e) == canon(
                    frac_mul(poly_coeff(td_old.coeffs@, e + 1), frac_int(e + 1)),
                ));
                assert(poly_coeff(td_old.coeffs@, e + 1) == deriv_coeff(s, (m - 1) as nat, e + 1));
            }
            assert forall|j: int| 1 <= j < m implies #[trigger] derivative_vanishes(
                s,
                d,
                cand@,
                j as nat,
            ) by {
                if j < m - 1 {
                } else {
                    assert(derivative_vanishes(s, d, cand@, (m - 1) as nat));
                }
            }
        }
        tv = match td.eval(cand) {
            Ok(v) => v,
            Err(e) => {
                proof {
                    lemma_eval_steps_agree(td.coeffs@, s, m as nat, cand@, td.degree as int + 1);
                    assert(deriv_eval_steps(s, m as nat, cand@, d - m + 1) is None);
                    assert(!mult_chain_ok(s, d, cand@, m as int));
                    assert(!mult_chain_ok(s, d, cand@, 1));
                    assert(!candidate_chain_ok(s, d, p as int, q as int));
                }
                return Err(e);
            },
        };
        vanish = tv.is_zero();
        proof {
            lemma_eval_steps_agree(td.coeffs@, s, m as nat, cand@, td.degree as int + 1);
            assert(deriv_eval_steps(s, m as nat, cand@, d - m + 1) == Some(tv@));
            lemma_deriv_eval_agree(td.coeffs@, s, m as nat, cand@, td.degree as int + 1);
            if vanish {
                lemma_poly_eval_den(td.coeffs@, cand@, td.degree as int + 1);
                lemma_frac_eq_transitive(
                    poly_eval_frac(td.coeffs@, cand@, td.degree as int + 1),
                    tv@,
                    frac_int(0),
                );
                assert(derivative_vanishes(s, d, cand@, m as nat));
            }
        }
    }
    proof {
        lemma_deriv_eval_agree(td.coeffs@, s, m as nat, cand@, td.degree as int + 1);
        if derivative_vanishes(s, d, cand@, m as nat) {
            lemma_poly_eval_den(td.coeffs@, cand@, td.degree as int + 1);
            lemma_frac_eq_transitive(
                tv@,
                poly_eval_frac(td.coeffs@, cand@, td.degree as int + 1),
                frac_int(0),
            );
        }
        assert(is_multiplicity(s, d, cand@, m as int));
        assert(mult_chain_ok(s, d, cand@, m as int));
        assert(mult_chain_ok(s, d, cand@, 1));
        assert(candidate_chain_ok(s, d, p as int, q as int));
    }
    let ghost rpre = roots@;
    let mut t: usize = 0;
    while t < m
        invariant
            s == poly.coeffs@,
            d == poly.degree as int,
            cand.wf(),
            is_root(s, cand@, d),
            cand@ == (Frac { num: p as int, den: q as int }),
            t <= m,
            1 <= m,
            roots@.len() == rpre.len() + t,
            forall|k: int| 0 <= k < rpre.len() ==> roots@[k] == rpre[k],
            forall|k: int| rpre.len() <= k < roots@.len() ==> roots@[k] == cand,
            roots_sound(s, d, roots@),
            occurrences(roots@, cand@) == occurrences(rpre, cand@) + t,
            forall|g: Frac|
                g != cand@ ==> #[trigger] occurrences(roots@, g) == occurrences(rpre, g),
        decreases m - t,
    {
        proof {
            lemma_occurrences_push(roots@, cand, cand@);
            assert forall|g: Frac| g != cand@ implies #[trigger] occurrences(roots@.push(cand), g)
                == occurrences(roots@, g) by {
                lemma_occurrences_push(roots@, cand, g);
            }
        }
        roots.push(cand);
        t = t + 1;
    }
    proof {
        assert((roots@[rpre.len() as int])@ == (Frac { num: p as int, den: q as int }));
        assert(candidate_counted(s, d, p as int, q as int, rpre, roots@));
    }
    Ok(())
}

/// The derivative's leading coefficient is nonzero when the source's is.
proof fn lemma_derived_lead_nonzero(src: Seq<(u32, Rational)>, dst: Seq<(u32, Rational)>, deg: int)
    requires
        deg >= 1,
        coeffs_wf(src),
        poly_coeff(src, deg).num != 0,
        poly_coeff(dst, deg - 1) == canon(frac_mul(poly_coeff(src, deg), frac_int(deg))),
    ensures
        poly_coeff(dst, deg - 1).num != 0,
{
    lemma_poly_coeff_reduced(src, deg);
    let c = poly_coeff(src, deg);
    lemma_product_nonzero(c.num, deg);
    assert(frac_mul(c, frac_int(deg)).num != 0);
    assert(c.den * 1 == c.den) by (nonlinear_arith);
    assert(frac_mul(c, frac_int(deg)).den != 0);
    lemma_canon_nonzero(frac_mul(c, frac_int(deg)));
}

/// A magnitude divisor of the magnitude divides the signed value, under
/// either sign.
proof fn lemma_mod_zero_divides(mag: u64, i: u64, n: int)
    requires
        1 <= i,
        mag == abs(n),
        mag % i == 0,
    ensures
        divides(i as int, n),
        divides(-(i as int), n),
{
    vstd::arithmetic::div_mod::lemma_fundamental_div_mod(mag as int, i as int);
    let q = mag as int / i as int;
    assert(mag as int == i as int * q);
    if n >= 0 {
        assert(n == q * (i as int)) by (nonlinear_arith)
            requires
                n == i as int * q,
        ;
        assert(n == (-q) * (-(i as int))) by (nonlinear_arith)
            requires
                n == i as int * q,
        ;
    } else {
        assert(n == (-q) * (i as int)) by (nonlinear_arith)
            requires
                -n == i as int * q,
        ;
        assert(n == q * (-(i as int))) by (nonlinear_arith)
            requires
                -n == i as int * q,
        ;
    }
}

/// When the magnitude leaves a remainder, neither signed candidate
/// divides the value.
proof fn lemma_no_divisor_of_magnitude(mag: u64, i: u64, n: int)
    requires
        1 <= i,
        mag == abs(n),
        mag % i != 0,
    ensures
        !divides(i as int, n),
        !divides(-(i as int), n),
{
    if divides(i as int, n) {
        let k = choose|k: int| n == #[trigger] (k * (i as int));
        let ka = if k < 0 {
            -k
        } else {
            k
        };
        assert(mag as int == ka * (i as int)) by (nonlinear_arith)
            requires
                n == k * (i as int),
                mag == abs(n),
                ka == abs(k),
                i >= 1,
        ;
        vstd::arithmetic::div_mod::lemma_mod_multiples_basic(ka, i as int);
        assert((ka * (i as int)) % (i as int) == 0);
    }
    if divides(-(i as int), n) {
        let k = choose|k: int| n == #[trigger] (k * (-(i as int)));
        assert(n == (-k) * (i as int)) by (nonlinear_arith)
            requires
                n == k * (-(i as int)),
        ;
        let ka = if k < 0 {
            k
        } else {
            -k
        };
        assert(mag as int == (-ka) * (i as int)) by (nonlinear_arith)
            requires
                n == (-k) * (i as int),
                mag == abs(n),
                i >= 1,
                ka == -abs(k),
        ;
        vstd::arithmetic::div_mod::lemma_mod_multiples_basic(-ka, i as int);
        assert(((-ka) * (i as int)) % (i as int) == 0);
    }
}

/// A nonzero divisor of a nonzero value has magnitude between one and the
/// value's magnitude.
proof fn lemma_divisor_magnitude_bound(d: int, n: int)
    requires
        d != 0,
        n != 0,
        divides(d, n),
    ensures
        1 <= abs(d) <= abs(n),
{
    let k = choose|k: int| n == #[trigger] (k * d);
    assert(k != 0) by (nonlinear_arith)
        requires
            n == k * d,
            n != 0,
    ;
    assert(abs(n) == abs(k) * abs(d)) by (nonlinear_arith)
        requires
            n == k * d,
    ;
    assert(abs(k) * abs(d) >= abs(d)) by (nonlinear_arith)
        requires
            abs(k) >= 1,
            abs(d) >= 0,
    ;
}

} // verus!
