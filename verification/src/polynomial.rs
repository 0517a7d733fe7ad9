//! Univariate polynomials over exact rationals.
//!
//! A polynomial is a sparse exponent-to-coefficient mapping with at least
//! one term; the degree is the largest exponent present. Exponents absent
//! from the mapping read as the zero coefficient. Values are immutable:
//! differentiation produces a new polynomial.

use vstd::prelude::*;
use vstd::arithmetic::power::pow;
use crate::rational::{Rational, Frac, frac_int, frac_eq, frac_add, frac_mul, canon, fits_i64,
    lemma_canon_reduced, lemma_canon_cross, lemma_canon_zero, lemma_frac_eq_transitive,
    lemma_frac_add_congruence, lemma_frac_mul_congruence, lemma_frac_nonzero_den,
    lemma_view_injective};
use crate::error::MathError;

verus! {

/// No two pairs carry the same exponent.
pub open spec fn keys_distinct(s: Seq<(u32, Rational)>) -> bool {
    forall|i: int, j: int|
        0 <= i < j < s.len() ==> (#[trigger] s[i].0) != (#[trigger] s[j].0)
}

/// Every stored coefficient is a canonical rational.
pub open spec fn coeffs_wf(s: Seq<(u32, Rational)>) -> bool {
    forall|i: int| 0 <= i < s.len() ==> (#[trigger] s[i].1).wf()
}

/// The coefficient mapped to an exponent: the first stored pair with that
/// exponent, and zero where none is present.
pub open spec fn poly_coeff(s: Seq<(u32, Rational)>, e: int) -> Frac
    decreases s.len(),
{
    if s.len() == 0 {
        frac_int(0)
    } else if s[0].0 == e {
        s[0].1@
    } else {
        poly_coeff(s.skip(1), e)
    }
}

/// Skipping pairs whose exponent does not match leaves the lookup
/// unchanged.
pub proof fn lemma_poly_coeff_skip(s: Seq<(u32, Rational)>, e: int, i: int)
    requires
        0 <= i <= s.len(),
        forall|j: int| 0 <= j < i ==> (#[trigger] s[j].0) != e,
    ensures
        poly_coeff(s, e) == poly_coeff(s.skip(i), e),
    decreases i,
{
    if i > 0 {
        assert(s[0].0 != e);
        assert(forall|j: int| 0 <= j < i - 1 ==> (#[trigger] s.skip(1)[j].0) != e);
        lemma_poly_coeff_skip(s.skip(1), e, i - 1);
        assert(s.skip(1).skip(i - 1) =~= s.skip(i));
    } else {
        assert(s.skip(0) =~= s);
    }
}

/// Where the first matching pair stands, the lookup reads it.
pub proof fn lemma_poly_coeff_found(s: Seq<(u32, Rational)>, e: int, i: int)
    requires
        0 <= i < s.len(),
        forall|j: int| 0 <= j < i ==> (#[trigger] s[j].0) != e,
        s[i].0 == e,
    ensures
        poly_coeff(s, e) == s[i].1@,
{
    lemma_poly_coeff_skip(s, e, i);
    assert(s.skip(i)[0] == s[i]);
}

/// An exponent absent from the mapping reads as zero.
pub proof fn lemma_poly_coeff_absent(s: Seq<(u32, Rational)>, e: int)
    requires
        forall|j: int| 0 <= j < s.len() ==> (#[trigger] s[j].0) != e,
    ensures
        poly_coeff(s, e) == frac_int(0),
{
    lemma_poly_coeff_skip(s, e, s.len() as int);
}

/// With distinct keys, the lookup reads any pair that carries the
/// exponent.
pub proof fn lemma_poly_coeff_at(s: Seq<(u32, Rational)>, j: int)
    requires
        keys_distinct(s),
        0 <= j < s.len(),
    ensures
        poly_coeff(s, s[j].0 as int) == s[j].1@,
{
    lemma_poly_coeff_found(s, s[j].0 as int, j);
}

/// The raising of a fraction to a power, numerator and denominator
/// independently.
pub open spec fn frac_pow(x: Frac, e: nat) -> Frac {
    Frac { num: pow(x.num, e), den: pow(x.den, e) }
}

/// The exact value of the polynomial sum `c_0 x^0 + ... + c_{n-1} x^{n-1}`.
pub open spec fn poly_eval_frac(s: Seq<(u32, Rational)>, x: Frac, n: int) -> Frac
    decreases n,
{
    if n <= 0 {
        frac_int(0)
    } else {
        frac_add(
            poly_eval_frac(s, x, n - 1),
            frac_mul(poly_coeff(s, n - 1), frac_pow(x, (n - 1) as nat)),
        )
    }
}

/// The checked sum of two rationals: the canonical form of the sum, where
/// it fits the 64-bit representation.
pub open spec fn rat_add_checked(a: Frac, b: Frac) -> Option<Frac> {
    if fits_i64(canon(frac_add(a, b))) {
        Some(canon(frac_add(a, b)))
    } else {
        None
    }
}

/// The checked product of two rationals.
pub open spec fn rat_mul_checked(a: Frac, b: Frac) -> Option<Frac> {
    if fits_i64(canon(frac_mul(a, b))) {
        Some(canon(frac_mul(a, b)))
    } else {
        None
    }
}

/// The checked difference of two rationals.
pub open spec fn rat_sub_checked(a: Frac, b: Frac) -> Option<Frac> {
    if fits_i64(canon(crate::rational::frac_sub(a, b))) {
        Some(canon(crate::rational::frac_sub(a, b)))
    } else {
        None
    }
}

/// The checked quotient of two rationals; meaningful when the divisor is
/// nonzero.
pub open spec fn rat_div_checked(a: Frac, b: Frac) -> Option<Frac> {
    if fits_i64(canon(crate::rational::frac_div(a, b))) {
        Some(canon(crate::rational::frac_div(a, b)))
    } else {
        None
    }
}

/// The checked power of a canonical rational: both component powers must
/// fit the representation.
pub open spec fn rat_pow_checked(x: Frac, e: nat) -> Option<Frac> {
    if -(i64::MAX as int) <= pow(x.num, e) <= i64::MAX as int && pow(x.den, e) <= i64::MAX as int {
        Some(frac_pow(x, e))
    } else {
        None
    }
}

/// The evaluation sum as the fixed-width arithmetic computes it, term by
/// term from exponent zero: the value where every intermediate fits, and
/// nothing where one overflows.
pub open spec fn eval_steps(s: Seq<(u32, Rational)>, x: Frac, n: int) -> Option<Frac>
    decreases n,
{
    if n <= 0 {
        Some(frac_int(0))
    } else {
        match eval_steps(s, x, n - 1) {
            Option::None => Option::None,
            Option::Some(acc) => match rat_pow_checked(x, (n - 1) as nat) {
                Option::None => Option::None,
                Option::Some(p) => match rat_mul_checked(poly_coeff(s, n - 1), p) {
                    Option::None => Option::None,
                    Option::Some(t) => rat_add_checked(acc, t),
                },
            },
        }
    }
}

/// Once a step of the checked evaluation overflows, every longer
/// evaluation overflows too.
pub proof fn lemma_eval_steps_none_persists(s: Seq<(u32, Rational)>, x: Frac, m: int, n: int)
    requires
        eval_steps(s, x, m) is None,
        m <= n,
    ensures
        eval_steps(s, x, n) is None,
    decreases n - m,
{
    if n > m {
        lemma_eval_steps_none_persists(s, x, m, n - 1);
    }
}

/// A coefficient read from a well-formed store has a positive
/// denominator.
pub proof fn lemma_poly_coeff_reduced(s: Seq<(u32, Rational)>, e: int)
    requires
        coeffs_wf(s),
    ensures
        poly_coeff(s, e).den > 0,
    decreases s.len(),
{
    if s.len() > 0 && s[0].0 != e {
        assert(coeffs_wf(s.skip(1)));
        lemma_poly_coeff_reduced(s.skip(1), e);
    }
}

/// When every step of the checked evaluation succeeds, its result denotes
/// the exact polynomial value.
pub proof fn lemma_eval_steps_exact(s: Seq<(u32, Rational)>, x: Frac, n: int)
    requires
        coeffs_wf(s),
        x.den > 0,
        eval_steps(s, x, n) is Some,
    ensures
        eval_steps(s, x, n)->Some_0.den > 0,
        frac_eq(eval_steps(s, x, n)->Some_0, poly_eval_frac(s, x, n)),
        poly_eval_frac(s, x, n).den != 0,
    decreases n,
{
    if n <= 0 {
    } else {
        lemma_eval_steps_exact(s, x, n - 1);
        let acc = eval_steps(s, x, n - 1)->Some_0;
        let c = poly_coeff(s, n - 1);
        let e = (n - 1) as nat;
        let p = frac_pow(x, e);
        lemma_poly_coeff_reduced(s, n - 1);
        vstd::arithmetic::power::lemma_pow_positive(x.den, e);
        assert(p.den > 0);
        let t = rat_mul_checked(c, p)->Some_0;
        lemma_frac_nonzero_den(c, p);
        lemma_canon_reduced(frac_mul(c, p));
        lemma_canon_cross(frac_mul(c, p));
        lemma_frac_nonzero_den(acc, t);
        lemma_canon_reduced(frac_add(acc, t));
        lemma_canon_cross(frac_add(acc, t));
        let prev_exact = poly_eval_frac(s, x, n - 1);
        lemma_frac_nonzero_den(prev_exact, frac_mul(c, p));
        lemma_frac_mul_congruence(c, c, p, p);
        lemma_frac_eq_transitive(t, frac_mul(c, p), frac_mul(c, p));
        lemma_frac_add_congruence(acc, prev_exact, t, frac_mul(c, p));
        lemma_frac_eq_transitive(
            eval_steps(s, x, n)->Some_0,
            frac_add(acc, t),
            frac_add(prev_exact, frac_mul(c, p)),
        );
    }
}

/// The polynomial value has a meaningful (nonzero) denominator whenever
/// the coefficients are canonical and the point has a positive one.
pub proof fn lemma_poly_eval_den(s: Seq<(u32, Rational)>, x: Frac, n: int)
    requires
        coeffs_wf(s),
        x.den > 0,
    ensures
        poly_eval_frac(s, x, n).den != 0,
    decreases n,
{
    if n > 0 {
        lemma_poly_eval_den(s, x, n - 1);
        lemma_poly_coeff_reduced(s, n - 1);
        vstd::arithmetic::power::lemma_pow_positive(x.den, (n - 1) as nat);
        lemma_frac_nonzero_den(poly_coeff(s, n - 1), frac_pow(x, (n - 1) as nat));
        lemma_frac_nonzero_den(
            poly_eval_frac(s, x, n - 1),
            frac_mul(poly_coeff(s, n - 1), frac_pow(x, (n - 1) as nat)),
        );
    }
}

/// A polynomial of degree zero evaluates to its constant coefficient.
pub proof fn lemma_degree_zero_eval(s: Seq<(u32, Rational)>, x: Frac)
    ensures
        poly_eval_frac(s, x, 1) == poly_coeff(s, 0),
{
    broadcast use vstd::arithmetic::power::lemma_pow0;

    let c0 = poly_coeff(s, 0);
    assert(frac_pow(x, 0) == (Frac { num: 1, den: 1 }));
    assert(frac_mul(c0, frac_pow(x, 0)) == c0) by {
        assert(c0.num * 1 == c0.num) by (nonlinear_arith);
        assert(c0.den * 1 == c0.den) by (nonlinear_arith);
    }
    assert(frac_add(frac_int(0), c0) == c0) by {
        assert(0int * c0.den + 1 * c0.num == c0.num) by (nonlinear_arith);
        assert(1int * c0.den == c0.den) by (nonlinear_arith);
    }
    assert(poly_eval_frac(s, x, 0) == frac_int(0));
    assert(poly_eval_frac(s, x, 1) == frac_add(frac_int(0), frac_mul(c0, frac_pow(x, 0))));
}

/// A sparse univariate polynomial with rational coefficients. The pair
/// list is the exponent-to-coefficient mapping; `degree` caches the
/// largest exponent present.
#[derive(Debug)]
pub struct Polynomial {
    pub coeffs: Vec<(u32, Rational)>,
    pub degree: u32,
}

impl Polynomial {
    /// Validity: at least one term, distinct exponents, canonical
    /// coefficients, and the cached degree is the largest exponent.
    pub open spec fn wf(self) -> bool {
        &&& self.coeffs@.len() >= 1
        &&& keys_distinct(self.coeffs@)
        &&& coeffs_wf(self.coeffs@)
        &&& forall|i: int|
            0 <= i < self.coeffs@.len() ==> (#[trigger] self.coeffs@[i].0) <= self.degree
        &&& exists|i: int|
            0 <= i < self.coeffs@.len() && (#[trigger] self.coeffs@[i].0) == self.degree
    }

    /// Build a polynomial from a finalized exponent-to-coefficient
    /// mapping: non-empty, every exponent distinct, every coefficient
    /// canonical. The degree is the largest exponent present.
    pub fn new(coeffs: Vec<(u32, Rational)>) -> (r: Polynomial)
        requires
            coeffs@.len() >= 1,
            keys_distinct(coeffs@),
            coeffs_wf(coeffs@),
        ensures
            r.wf(),
            r.coeffs@ == coeffs@,
    {
        let mut max: u32 = coeffs[0].0;
        let mut i: usize = 1;
        while i < coeffs.len()
            invariant
                1 <= i <= coeffs@.len(),
                exists|j: int| 0 <= j < i && (#[trigger] coeffs@[j].0) == max,
                forall|j: int| 0 <= j < i ==> (#[trigger] coeffs@[j].0) <= max,
            decreases coeffs@.len() - i,
        {
            if coeffs[i].0 > max {
                max = coeffs[i].0;
            }
            i = i + 1;
        }
        let ghost cs = coeffs@;
        let ghost j0 = choose|j: int| 0 <= j < cs.len() && (#[trigger] cs[j].0) == max;
        let r = Polynomial { degree: max, coeffs };
        proof {
            assert(r.coeffs@ == cs);
            assert(r.coeffs@[j0].0 == r.degree);
        }
        r
    }

    /// The degree: the largest exponent present in the mapping.
    pub fn degree(&self) -> (r: u32)
        requires
            self.wf(),
        ensures
            r == self.degree,
    {
        self.degree
    }

    /// The coefficient associated with an exponent, zero when the
    /// exponent is not present.
    pub fn get(&self, degree: u32) -> (r: Rational)
        requires
            self.wf(),
        ensures
            r.wf(),
            r@ == poly_coeff(self.coeffs@, degree as int),
    {
        lookup(&self.coeffs, degree)
    }

    /// Evaluate at a rational point by direct summation of
    /// `coefficient * x^exponent` from exponent zero through the degree.
    /// Returns the exact value, or an overflow condition exactly when an
    /// intermediate canonical result does not fit the representation.
    pub fn eval(&self, x: Rational) -> (r: Result<Rational, MathError>)
        requires
            self.wf(),
            x.wf(),
        ensures
            r is Ok <==> eval_steps(self.coeffs@, x@, self.degree as int + 1) is Some,
            r matches Ok(v) ==> v.wf() && v@ == eval_steps(
                self.coeffs@,
                x@,
                self.degree as int + 1,
            )->Some_0 && frac_eq(v@, poly_eval_frac(self.coeffs@, x@, self.degree as int + 1)),
            r is Err ==> r == Err::<Rational, MathError>(MathError::Overflow),
    {
        let mut result = Rational::from_int(0);
        let mut e: u64 = 0;
        while e <= self.degree as u64
            invariant
                self.wf(),
                x.wf(),
                e <= self.degree as u64 + 1,
                result.wf(),
                eval_steps(self.coeffs@, x@, e as int) == Some(result@),
            decreases self.degree as u64 + 1 - e,
        {
            let coeff = self.get(e as u32);
            let p = match x.pow(e as u32) {
                Ok(p) => p,
                Err(_) => {
                    proof {
                        assert(eval_steps(self.coeffs@, x@, e as int + 1) is None);
                        lemma_eval_steps_none_persists(
                            self.coeffs@,
                            x@,
                            e as int + 1,
                            self.degree as int + 1,
                        );
                    }
                    return Err(MathError::Overflow);
                },
            };
            let term = match coeff.mul(&p) {
                Ok(t) => t,
                Err(_) => {
                    proof {
                        assert(p@ == frac_pow(x@, e as nat));
                        assert(eval_steps(self.coeffs@, x@, e as int + 1) is None);
                        lemma_eval_steps_none_persists(
                            self.coeffs@,
                            x@,
                            e as int + 1,
                            self.degree as int + 1,
                        );
                    }
                    return Err(MathError::Overflow);
                },
            };
            let next = match result.add(&term) {
                Ok(v) => v,
                Err(_) => {
                    proof {
                        assert(p@ == frac_pow(x@, e as nat));
                        assert(eval_steps(self.coeffs@, x@, e as int + 1) is None);
                        lemma_eval_steps_none_persists(
                            self.coeffs@,
                            x@,
                            e as int + 1,
                            self.degree as int + 1,
                        );
                    }
                    return Err(MathError::Overflow);
                },
            };
            proof {
                assert(p@ == frac_pow(x@, e as nat));
                assert(eval_steps(self.coeffs@, x@, e as int + 1) == Some(next@));
            }
            result = next;
            e = e + 1;
        }
        proof {
            lemma_eval_steps_exact(self.coeffs@, x@, self.degree as int + 1);
        }
        Ok(result)
    }

    /// The formal derivative: each term at a positive exponent `e` with
    /// coefficient `c` becomes a term at `e - 1` with coefficient `c * e`,
    /// and the constant term is dropped. A constant polynomial derives to
    /// the zero polynomial, kept as a single zero term at exponent zero.
    pub fn diff(&self) -> (r: Result<Polynomial, MathError>)
        requires
            self.wf(),
        ensures
            r is Ok <==> forall|i: int|
                0 <= i < self.coeffs@.len() ==> ((#[trigger] self.coeffs@[i].0) > 0 ==> fits_i64(
                    canon(frac_mul(self.coeffs@[i].1@, frac_int(self.coeffs@[i].0 as int))),
                )),
            r matches Ok(q) ==> q.wf() && q.degree == (if self.degree == 0 {
                0
            } else {
                (self.degree - 1) as u32
            }) && (forall|e: int|
                0 <= e ==> poly_coeff(q.coeffs@, e) == canon(
                    frac_mul(poly_coeff(self.coeffs@, e + 1), frac_int(e + 1)),
                )),
            r is Err ==> r == Err::<Polynomial, MathError>(MathError::Overflow),
    {
        if self.degree == 0 {
            let zero = Rational::from_int(0);
            let mut out: Vec<(u32, Rational)> = Vec::new();
            out.push((0, zero));
            let q = Polynomial { coeffs: out, degree: 0 };
            proof {
                assert(q.coeffs@[0].0 == 0);
                assert forall|e: int| 0 <= e implies poly_coeff(q.coeffs@, e) == canon(
                    frac_mul(poly_coeff(self.coeffs@, e + 1), frac_int(e + 1)),
                ) by {
                    if e == 0 {
                        lemma_poly_coeff_found(q.coeffs@, 0, 0);
                    } else {
                        lemma_poly_coeff_absent(q.coeffs@, e);
                    }
                    assert(poly_coeff(q.coeffs@, e) == frac_int(0));
                    assert(forall|j: int|
                        0 <= j < self.coeffs@.len() ==> (#[trigger] self.coeffs@[j].0) != e + 1);
                    lemma_poly_coeff_absent(self.coeffs@, e + 1);
                    lemma_deriv_of_zero(e);
                }
            }
            return Ok(q);
        }
        let mut out: Vec<(u32, Rational)> = Vec::new();
        let mut i: usize = 0;
        while i < self.coeffs.len()
            invariant
                self.wf(),
                self.degree > 0,
                i <= self.coeffs@.len(),
                keys_distinct(out@),
                coeffs_wf(out@),
                forall|j: int|
                    0 <= j < out@.len() ==> (#[trigger] out@[j].0) as int <= self.degree - 1,
                forall|j: int|
                    0 <= j < out@.len() ==> #[trigger] pair_from_source(
                        self.coeffs@,
                        out@,
                        j,
                        i as int,
                    ),
                forall|t: int|
                    0 <= t < i ==> #[trigger] source_covered(self.coeffs@, out@, t),
                forall|t: int|
                    0 <= t < i ==> ((#[trigger] self.coeffs@[t].0) > 0 ==> fits_i64(
                        canon(frac_mul(self.coeffs@[t].1@, frac_int(self.coeffs@[t].0 as int))),
                    )),
            decreases self.coeffs@.len() - i,
        {
            let pair = self.coeffs[i];
            let exp = pair.0;
            let c = pair.1;
            if exp > 0 {
                let factor = Rational::from_int(exp as i64);
                let nc = match c.mul(&factor) {
                    Ok(nc) => nc,
                    Err(_) => {
                        proof {
                            assert(self.coeffs@[i as int].0 > 0 && !fits_i64(
                                canon(
                                    frac_mul(
                                        self.coeffs@[i as int].1@,
                                        frac_int(self.coeffs@[i as int].0 as int),
                                    ),
                                ),
                            ));
                        }
                        return Err(MathError::Overflow);
                    },
                };
                proof {
                    assert forall|j: int| 0 <= j < out@.len() implies (#[trigger] out@[j].0) as int
                        != exp - 1 by {
                        assert(pair_from_source(self.coeffs@, out@, j, i as int));
                        let t = choose|t: int|
                            0 <= t < i && (#[trigger] self.coeffs@[t].0) as int == out@[j].0 + 1
                                && out@[j].1@ == canon(
                                frac_mul(
                                    self.coeffs@[t].1@,
                                    frac_int(self.coeffs@[t].0 as int),
                                ),
                            );
                        assert(self.coeffs@[t].0 != self.coeffs@[i as int].0);
                    }
                    lemma_pair_from_source_push(self.coeffs@, out@, (exp - 1) as u32, nc, i as int);
                }
                out.push((exp - 1, nc));
            } else {
                proof {
                    lemma_pair_from_source_grow(self.coeffs@, out@, i as int);
                }
            }
            i = i + 1;
        }
        proof {
            let t0 = choose|t: int|
                0 <= t < self.coeffs@.len() && (#[trigger] self.coeffs@[t].0) == self.degree;
            assert(source_covered(self.coeffs@, out@, t0));
            assert(out@.len() >= 1);
        }
        let q = Polynomial::new(out);
        proof {
            lemma_diff_final(self.coeffs@, q.coeffs@, self.degree as int, q.degree as int);
        }
        Ok(q)
    }
}

/// The output pair at `j` derives from some source pair among the first
/// `n`: its exponent is one lower and its coefficient is the source
/// coefficient times the source exponent.
pub open spec fn pair_from_source(
    s: Seq<(u32, Rational)>,
    out: Seq<(u32, Rational)>,
    j: int,
    n: int,
) -> bool {
    exists|t: int|
        0 <= t < n && (#[trigger] s[t].0) as int == out[j].0 + 1 && out[j].1@ == canon(
            frac_mul(s[t].1@, frac_int(s[t].0 as int)),
        )
}

/// The source pair at `t` is accounted for: either its exponent is zero
/// and it is dropped, or the output carries its derived exponent.
pub open spec fn source_covered(
    s: Seq<(u32, Rational)>,
    out: Seq<(u32, Rational)>,
    t: int,
) -> bool {
    s[t].0 == 0 || exists|j: int|
        0 <= j < out.len() && (#[trigger] out[j].0) as int == s[t].0 - 1
}

/// Pushing the derived pair for source index `i` preserves both
/// correspondence invariants.
proof fn lemma_pair_from_source_push(
    s: Seq<(u32, Rational)>,
    out: Seq<(u32, Rational)>,
    key: u32,
    nc: Rational,
    i: int,
)
    requires
        0 <= i < s.len(),
        s[i].0 > 0,
        key as int == s[i].0 - 1,
        nc@ == canon(frac_mul(s[i].1@, frac_int(s[i].0 as int))),
        forall|j: int| 0 <= j < out.len() ==> #[trigger] pair_from_source(s, out, j, i),
        forall|t: int| 0 <= t < i ==> #[trigger] source_covered(s, out, t),
    ensures
        forall|j: int|
            0 <= j < out.push((key, nc)).len() ==> #[trigger] pair_from_source(
                s,
                out.push((key, nc)),
                j,
                i + 1,
            ),
        forall|t: int| 0 <= t < i + 1 ==> #[trigger] source_covered(s, out.push((key, nc)), t),
{
    let out2 = out.push((key, nc));
    assert forall|j: int| 0 <= j < out2.len() implies #[trigger] pair_from_source(
        s,
        out2,
        j,
        i + 1,
    ) by {
        if j < out.len() {
            assert(pair_from_source(s, out, j, i));
            let t = choose|t: int|
                0 <= t < i && (#[trigger] s[t].0) as int == out[j].0 + 1 && out[j].1@ == canon(
                    frac_mul(s[t].1@, frac_int(s[t].0 as int)),
                );
            assert(out2[j] == out[j]);
            assert(0 <= t < i + 1 && s[t].0 as int == out2[j].0 + 1 && out2[j].1@ == canon(
                frac_mul(s[t].1@, frac_int(s[t].0 as int)),
            ));
        } else {
            assert(out2[j] == (key, nc));
            assert(0 <= i < i + 1 && s[i].0 as int == out2[j].0 + 1 && out2[j].1@ == canon(
                frac_mul(s[i].1@, frac_int(s[i].0 as int)),
            ));
        }
    }
    assert forall|t: int| 0 <= t < i + 1 implies #[trigger] source_covered(s, out2, t) by {
        if t < i {
            assert(source_covered(s, out, t));
            if s[t].0 != 0 {
                let j = choose|j: int|
                    0 <= j < out.len() && (#[trigger] out[j].0) as int == s[t].0 - 1;
                assert(out2[j] == out[j]);
            }
        } else {
            assert(out2[out.len() as int] == (key, nc));
            assert(out2[out.len() as int].0 as int == s[t].0 - 1);
        }
    }
}

/// A dropped constant term preserves both correspondence invariants.
proof fn lemma_pair_from_source_grow(s: Seq<(u32, Rational)>, out: Seq<(u32, Rational)>, i: int)
    requires
        0 <= i < s.len(),
        s[i].0 == 0,
        forall|j: int| 0 <= j < out.len() ==> #[trigger] pair_from_source(s, out, j, i),
        forall|t: int| 0 <= t < i ==> #[trigger] source_covered(s, out, t),
    ensures
        forall|j: int| 0 <= j < out.len() ==> #[trigger] pair_from_source(s, out, j, i + 1),
        forall|t: int| 0 <= t < i + 1 ==> #[trigger] source_covered(s, out, t),
{
    assert forall|j: int| 0 <= j < out.len() implies #[trigger] pair_from_source(
        s,
        out,
        j,
        i + 1,
    ) by {
        assert(pair_from_source(s, out, j, i));
        let t = choose|t: int|
            0 <= t < i && (#[trigger] s[t].0) as int == out[j].0 + 1 && out[j].1@ == canon(
                frac_mul(s[t].1@, frac_int(s[t].0 as int)),
            );
        assert(0 <= t < i + 1 && s[t].0 as int == out[j].0 + 1 && out[j].1@ == canon(
            frac_mul(s[t].1@, frac_int(s[t].0 as int)),
        ));
    }
}

/// The derivative of an absent (zero) coefficient is the canonical zero.
pub proof fn lemma_deriv_of_zero(e: int)
    requires
        e >= 0,
    ensures
        canon(frac_mul(frac_int(0), frac_int(e + 1))) == frac_int(0),
{
    assert(frac_mul(frac_int(0), frac_int(e + 1)).num == 0) by (nonlinear_arith);
    assert(frac_mul(frac_int(0), frac_int(e + 1)).den == 1) by (nonlinear_arith);
    assert(frac_mul(frac_int(0), frac_int(e + 1)) == (Frac { num: 0, den: 1 }));
    lemma_canon_zero(1);
}

/// From the loop invariants, the completed output is exactly the
/// derivative mapping and its degree is one below the source degree.
proof fn lemma_diff_final(s: Seq<(u32, Rational)>, out: Seq<(u32, Rational)>, d: int, qd: int)
    requires
        d > 0,
        keys_distinct(s),
        keys_distinct(out),
        forall|i: int| 0 <= i < s.len() ==> (#[trigger] s[i].0) <= d,
        exists|i: int| 0 <= i < s.len() && (#[trigger] s[i].0) == d,
        forall|j: int| 0 <= j < out.len() ==> (#[trigger] out[j].0) as int <= d - 1,
        forall|j: int|
            0 <= j < out.len() ==> #[trigger] pair_from_source(s, out, j, s.len() as int),
        forall|t: int| 0 <= t < s.len() ==> #[trigger] source_covered(s, out, t),
        forall|j: int| 0 <= j < out.len() ==> (#[trigger] out[j].0) <= qd,
        exists|j: int| 0 <= j < out.len() && (#[trigger] out[j].0) == qd,
    ensures
        qd == d - 1,
        forall|e: int|
            0 <= e ==> poly_coeff(out, e) == canon(
                frac_mul(poly_coeff(s, e + 1), frac_int(e + 1)),
            ),
{
    // the source's top term survives, so the top output key is d - 1
    let t0 = choose|t: int| 0 <= t < s.len() && (#[trigger] s[t].0) == d;
    assert(source_covered(s, out, t0));
    let j0 = choose|j: int| 0 <= j < out.len() && (#[trigger] out[j].0) as int == s[t0].0 - 1;
    assert(out[j0].0 as int == d - 1);
    assert(qd >= d - 1);
    let jq = choose|j: int| 0 <= j < out.len() && (#[trigger] out[j].0) == qd;
    assert(qd <= d - 1);
    assert forall|e: int| 0 <= e implies poly_coeff(out, e) == canon(
        frac_mul(poly_coeff(s, e + 1), frac_int(e + 1)),
    ) by {
        if exists|t: int| 0 <= t < s.len() && (#[trigger] s[t].0) == e + 1 {
            let t = choose|t: int| 0 <= t < s.len() && (#[trigger] s[t].0) == e + 1;
            lemma_poly_coeff_at(s, t);
            assert(source_covered(s, out, t));
            let j = choose|j: int|
                0 <= j < out.len() && (#[trigger] out[j].0) as int == s[t].0 - 1;
            lemma_poly_coeff_at(out, j);
            assert(pair_from_source(s, out, j, s.len() as int));
            let t2 = choose|t2: int|
                0 <= t2 < s.len() && (#[trigger] s[t2].0) as int == out[j].0 + 1 && out[j].1@
                    == canon(frac_mul(s[t2].1@, frac_int(s[t2].0 as int)));
            assert(s[t2].0 == s[t].0);
            assert(t2 == t);
        } else {
            assert(forall|t: int| 0 <= t < s.len() ==> (#[trigger] s[t].0) != e + 1);
            lemma_poly_coeff_absent(s, e + 1);
            lemma_deriv_of_zero(e);
            assert forall|j: int| 0 <= j < out.len() implies (#[trigger] out[j].0) as int
                != e by {
                assert(pair_from_source(s, out, j, s.len() as int));
                let t2 = choose|t2: int|
                    0 <= t2 < s.len() && (#[trigger] s[t2].0) as int == out[j].0 + 1 && out[j].1@
                        == canon(frac_mul(s[t2].1@, frac_int(s[t2].0 as int)));
                assert(s[t2].0 as int != e + 1);
            }
            lemma_poly_coeff_absent(out, e);
        }
    }
}

/// Differentiation is linear: the derivative coefficient of a
/// coefficient-wise sum of two polynomials is the sum of their derivative
/// coefficients, at every exponent.
pub proof fn lemma_derivative_linear(a: Frac, b: Frac, e: int)
    requires
        a.den != 0,
        b.den != 0,
        e >= 0,
    ensures
        frac_eq(
            canon(frac_mul(frac_add(a, b), frac_int(e + 1))),
            frac_add(canon(frac_mul(a, frac_int(e + 1))), canon(frac_mul(b, frac_int(e + 1)))),
        ),
{
    let k = frac_int(e + 1);
    let ab = frac_add(a, b);
    lemma_frac_nonzero_den(a, b);
    lemma_frac_nonzero_den(ab, k);
    lemma_frac_nonzero_den(k, ab);
    lemma_frac_nonzero_den(a, k);
    lemma_frac_nonzero_den(b, k);
    lemma_frac_nonzero_den(k, a);
    lemma_frac_nonzero_den(k, b);
    lemma_canon_cross(frac_mul(ab, k));
    lemma_canon_cross(frac_mul(a, k));
    lemma_canon_cross(frac_mul(b, k));
    lemma_canon_reduced(frac_mul(ab, k));
    lemma_canon_reduced(frac_mul(a, k));
    lemma_canon_reduced(frac_mul(b, k));
    // (a + b) * k equals k * (a + b), which distributes
    crate::rational::lemma_mul_commutative(ab, k);
    crate::rational::lemma_mul_distributive(k, a, b);
    crate::rational::lemma_mul_commutative(k, a);
    crate::rational::lemma_mul_commutative(k, b);
    lemma_frac_nonzero_den(frac_mul(k, a), frac_mul(k, b));
    lemma_frac_nonzero_den(frac_mul(a, k), frac_mul(b, k));
    lemma_frac_add_congruence(frac_mul(k, a), frac_mul(a, k), frac_mul(k, b), frac_mul(b, k));
    lemma_frac_eq_transitive(frac_mul(ab, k), frac_mul(k, ab), frac_add(frac_mul(k, a), frac_mul(k, b)));
    lemma_frac_eq_transitive(
        frac_mul(ab, k),
        frac_add(frac_mul(k, a), frac_mul(k, b)),
        frac_add(frac_mul(a, k), frac_mul(b, k)),
    );
    // each summand equals its canonical form
    lemma_frac_add_congruence(
        frac_mul(a, k),
        canon(frac_mul(a, k)),
        frac_mul(b, k),
        canon(frac_mul(b, k)),
    );
    lemma_frac_nonzero_den(canon(frac_mul(a, k)), canon(frac_mul(b, k)));
    lemma_frac_eq_transitive(
        frac_mul(ab, k),
        frac_add(frac_mul(a, k), frac_mul(b, k)),
        frac_add(canon(frac_mul(a, k)), canon(frac_mul(b, k))),
    );
    lemma_frac_eq_transitive(
        canon(frac_mul(ab, k)),
        frac_mul(ab, k),
        frac_add(canon(frac_mul(a, k)), canon(frac_mul(b, k))),
    );
}

/// Scan the pair list for an exponent; total, independent of validity.
fn lookup(coeffs: &Vec<(u32, Rational)>, e: u32) -> (r: Rational)
    ensures
        r@ == poly_coeff(coeffs@, e as int),
        coeffs_wf(coeffs@) ==> r.wf(),
{
    let mut i: usize = 0;
    while i < coeffs.len()
        invariant
            i <= coeffs@.len(),
            forall|j: int| 0 <= j < i ==> (#[trigger] coeffs@[j].0) != e,
        decreases coeffs@.len() - i,
    {
        if coeffs[i].0 == e {
            proof {
                lemma_poly_coeff_found(coeffs@, e as int, i as int);
            }
            return coeffs[i].1;
        }
        i = i + 1;
    }
    proof {
        lemma_poly_coeff_absent(coeffs@, e as int);
    }
    Rational::from_int(0)
}

impl PartialEq for Polynomial {
    /// Coefficient-wise equality: same degree and the same coefficient at
    /// every exponent up to it.
    fn eq(&self, other: &Self) -> (r: bool) {
        if self.degree != other.degree {
            return false;
        }
        let mut e: u64 = 0;
        while e <= self.degree as u64
            invariant
                self.degree == other.degree,
                e <= self.degree as u64 + 1,
                forall|k: int|
                    0 <= k < e ==> poly_coeff(self.coeffs@, k) == poly_coeff(other.coeffs@, k),
            decreases self.degree as u64 + 1 - e,
        {
            let a = lookup(&self.coeffs, e as u32);
            let b = lookup(&other.coeffs, e as u32);
            if a != b {
                proof {
                    lemma_view_injective(a, b);
                }
                return false;
            }
            proof {
                lemma_view_injective(a, b);
            }
            e = e + 1;
        }
        true
    }
}

impl vstd::std_specs::cmp::PartialEqSpecImpl for Polynomial {
    open spec fn obeys_eq_spec() -> bool {
        true
    }

    open spec fn eq_spec(&self, other: &Polynomial) -> bool {
        self.degree == other.degree && forall|k: int|
            0 <= k <= self.degree ==> poly_coeff(self.coeffs@, k) == poly_coeff(other.coeffs@, k)
    }
}

} // verus!
