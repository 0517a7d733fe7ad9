//! Divisibility and greatest common divisors.
//!
//! The canonical-form invariant of the rational type rests on these
//! definitions: a fraction is reduced when the magnitudes of its numerator
//! and denominator are coprime. The lemmas here (Bezout's identity, Euclid's
//! lemma, uniqueness of the reduced representative) are what the rational
//! contracts are proved from.

use vstd::prelude::*;
use vstd::arithmetic::div_mod::{lemma_fundamental_div_mod, lemma_mod_division_less_than_divisor, lemma_mod_bound};
use vstd::math::abs;
use vstd::arithmetic::power::pow;

verus! {

/// `d` divides `n`: some integer multiple of `d` equals `n`.
pub open spec fn divides(d: int, n: int) -> bool {
    exists|k: int| n == #[trigger] (k * d)
}

/// Greatest common divisor of two naturals, by the Euclidean recursion.
pub open spec fn gcd(a: nat, b: nat) -> nat
    decreases b,
{
    if b == 0 {
        a
    } else {
        gcd(b, (a % b) as nat)
    }
}

/// Two naturals are coprime when 1 is their only common divisor.
pub open spec fn coprime(a: nat, b: nat) -> bool {
    gcd(a, b) == 1
}

/// A divisor of two numbers divides any integer linear combination of them.
pub proof fn lemma_divides_linear(d: int, a: int, b: int, x: int, y: int)
    requires
        divides(d, a),
        divides(d, b),
    ensures
        divides(d, x * a + y * b),
{
    let ka = choose|k: int| a == #[trigger] (k * d);
    let kb = choose|k: int| b == #[trigger] (k * d);
    assert(x * a + y * b == (x * ka + y * kb) * d) by (nonlinear_arith)
        requires
            a == ka * d,
            b == kb * d,
    ;
}

/// Divisibility is transitive.
pub proof fn lemma_divides_transitive(a: int, b: int, c: int)
    requires
        divides(a, b),
        divides(b, c),
    ensures
        divides(a, c),
{
    let k1 = choose|k: int| b == #[trigger] (k * a);
    let k2 = choose|k: int| c == #[trigger] (k * b);
    assert(c == (k2 * k1) * a) by (nonlinear_arith)
        requires
            b == k1 * a,
            c == k2 * b,
    ;
}

/// A positive divisor of a positive number is no larger than it.
pub proof fn lemma_divides_le(d: int, n: int)
    requires
        divides(d, n),
        d > 0,
        n > 0,
    ensures
        d <= n,
{
    let k = choose|k: int| n == #[trigger] (k * d);
    assert(k * d > 0);
    assert(k >= 1) by (nonlinear_arith)
        requires
            k * d > 0,
            d > 0,
    ;
    assert(k * d >= d) by (nonlinear_arith)
        requires
            k >= 1,
            d > 0,
    ;
}

/// Two positive numbers that divide each other are equal.
pub proof fn lemma_divides_antisymmetric(a: int, b: int)
    requires
        divides(a, b),
        divides(b, a),
        a > 0,
        b > 0,
    ensures
        a == b,
{
    lemma_divides_le(a, b);
    lemma_divides_le(b, a);
}

/// The gcd divides both of its arguments.
pub proof fn lemma_gcd_divides(a: nat, b: nat)
    ensures
        divides(gcd(a, b) as int, a as int),
        divides(gcd(a, b) as int, b as int),
    decreases b,
{
    if b == 0 {
        assert(a as int == 1 * (a as int));
        assert(0int == 0 * (a as int));
    } else {
        let r = (a % b) as nat;
        lemma_gcd_divides(b, r);
        lemma_fundamental_div_mod(a as int, b as int);
        let g = gcd(a, b) as int;
        lemma_divides_linear(g, b as int, r as int, a as int / b as int, 1);
        assert((a as int / b as int) * b + 1 * r == a) by (nonlinear_arith)
            requires
                a == (b as int) * (a as int / b as int) + r,
        ;
    }
}

/// The gcd of two naturals, not both zero, is positive.
pub proof fn lemma_gcd_positive(a: nat, b: nat)
    requires
        a > 0 || b > 0,
    ensures
        gcd(a, b) > 0,
    decreases b,
{
    if b == 0 {
    } else {
        lemma_mod_bound(a as int, b as int);
        lemma_gcd_positive(b, (a % b) as nat);
    }
}

/// Bezout's identity: the gcd is an integer linear combination of its
/// arguments.
pub proof fn lemma_bezout(a: nat, b: nat)
    ensures
        exists|x: int, y: int| #[trigger] (x * a + y * b) == gcd(a, b),
    decreases b,
{
    if b == 0 {
        assert(1 * a + 0 * b == gcd(a, b));
    } else {
        let r = (a % b) as nat;
        lemma_bezout(b, r);
        let (x0, y0) = choose|x: int, y: int| #[trigger] (x * b + y * r) == gcd(b, r);
        lemma_fundamental_div_mod(a as int, b as int);
        let q = a as int / b as int;
        assert(r == a - q * b);
        let x1 = y0;
        let y1 = x0 - y0 * q;
        assert(x1 * a + y1 * b == gcd(a, b)) by (nonlinear_arith)
            requires
                x0 * b + y0 * r == gcd(a, b),
                r == a - q * b,
                x1 == y0,
                y1 == x0 - y0 * q,
        ;
    }
}

/// A common divisor of two naturals divides their gcd.
pub proof fn lemma_common_divisor_divides_gcd(d: int, a: nat, b: nat)
    requires
        divides(d, a as int),
        divides(d, b as int),
    ensures
        divides(d, gcd(a, b) as int),
{
    lemma_bezout(a, b);
    let (x, y) = choose|x: int, y: int| #[trigger] (x * a + y * b) == gcd(a, b);
    lemma_divides_linear(d, a as int, b as int, x, y);
}

/// The gcd is symmetric in its arguments.
pub proof fn lemma_gcd_symmetric(a: nat, b: nat)
    ensures
        gcd(a, b) == gcd(b, a),
{
    if a == 0 && b == 0 {
    } else {
        lemma_gcd_positive(a, b);
        lemma_gcd_positive(b, a);
        lemma_gcd_divides(a, b);
        lemma_gcd_divides(b, a);
        lemma_common_divisor_divides_gcd(gcd(a, b) as int, b, a);
        lemma_common_divisor_divides_gcd(gcd(b, a) as int, a, b);
        lemma_divides_antisymmetric(gcd(a, b) as int, gcd(b, a) as int);
    }
}

/// Euclid's lemma: a number coprime to `b` that divides `b * c` divides `c`.
pub proof fn lemma_euclid(m: nat, b: nat, c: int)
    requires
        coprime(m, b),
        divides(m as int, b * c),
    ensures
        divides(m as int, c),
{
    lemma_bezout(m, b);
    let (x, y) = choose|x: int, y: int| #[trigger] (x * m + y * b) == gcd(m, b);
    let k = choose|k: int| b * c == #[trigger] (k * (m as int));
    // c == c * (x*m + y*b) == (c*x)*m + y*(b*c) == (c*x)*m + y*(k*m)
    assert(c == (c * x + y * k) * m) by (nonlinear_arith)
        requires
            x * m + y * b == 1,
            b * c == k * m,
    ;
}

/// A reduced fraction representation with positive denominator is unique:
/// cross-equal reduced pairs are identical.
pub proof fn lemma_reduced_unique(n1: int, d1: int, n2: int, d2: int)
    requires
        d1 > 0,
        d2 > 0,
        coprime(abs(n1), d1 as nat),
        coprime(abs(n2), d2 as nat),
        n1 * d2 == n2 * d1,
    ensures
        n1 == n2,
        d1 == d2,
{
    let a1 = abs(n1);
    let a2 = abs(n2);
    // magnitudes satisfy the same cross equality
    assert(a1 * d2 == a2 * d1) by (nonlinear_arith)
        requires
            n1 * d2 == n2 * d1,
            d1 > 0,
            d2 > 0,
            a1 == abs(n1),
            a2 == abs(n2),
    ;
    // d1 divides a1 * d2, and is coprime to a1, so d1 divides d2
    assert(a1 * d2 == a2 * d1);
    assert(divides(d1, a1 as int * d2));
    lemma_gcd_symmetric(a1 as nat, d1 as nat);
    lemma_euclid(d1 as nat, a1 as nat, d2);
    // and symmetrically d2 divides d1
    assert(a2 * d1 == a1 * d2);
    assert(divides(d2, a2 as int * d1));
    lemma_gcd_symmetric(a2 as nat, d2 as nat);
    lemma_euclid(d2 as nat, a2 as nat, d1);
    lemma_divides_antisymmetric(d1, d2);
    assert(n1 == n2) by (nonlinear_arith)
        requires
            n1 * d2 == n2 * d1,
            d1 == d2,
            d1 > 0,
    ;
}

/// Dividing two naturals by their gcd leaves a coprime pair.
pub proof fn lemma_gcd_quotients_coprime(a: nat, b: nat)
    requires
        a > 0 || b > 0,
    ensures
        gcd(a, b) > 0,
        coprime((a as int / gcd(a, b) as int) as nat, (b as int / gcd(a, b) as int) as nat),
{
    lemma_gcd_positive(a, b);
    let g = gcd(a, b) as int;
    lemma_gcd_divides(a, b);
    let ka = choose|k: int| a as int == #[trigger] (k * g);
    let kb = choose|k: int| b as int == #[trigger] (k * g);
    vstd::arithmetic::div_mod::lemma_div_multiples_vanish(ka, g);
    vstd::arithmetic::div_mod::lemma_div_multiples_vanish(kb, g);
    assert(ka * g / g == ka);
    assert(kb * g / g == kb);
    let qa = a as int / g;
    let qb = b as int / g;
    assert(qa == ka && qb == kb);
    assert(qa >= 0 && qb >= 0) by (nonlinear_arith)
        requires
            a as int == qa * g,
            b as int == qb * g,
            g > 0,
            a >= 0,
            b >= 0,
    ;
    let g2 = gcd(qa as nat, qb as nat) as int;
    assert(qa > 0 || qb > 0) by (nonlinear_arith)
        requires
            a as int == qa * g,
            b as int == qb * g,
            g > 0,
            a > 0 || b > 0,
    ;
    lemma_gcd_positive(qa as nat, qb as nat);
    lemma_gcd_divides(qa as nat, qb as nat);
    // g2 * g divides both a and b
    let ja = choose|k: int| qa == #[trigger] (k * g2);
    let jb = choose|k: int| qb == #[trigger] (k * g2);
    assert(a as int == ja * (g2 * g) && b as int == jb * (g2 * g)) by (nonlinear_arith)
        requires
            a as int == qa * g,
            b as int == qb * g,
            qa == ja * g2,
            qb == jb * g2,
    ;
    assert(divides(g2 * g, a as int));
    assert(divides(g2 * g, b as int));
    lemma_common_divisor_divides_gcd(g2 * g, a, b);
    assert(g2 * g > 0) by (nonlinear_arith)
        requires
            g2 > 0,
            g > 0,
    ;
    lemma_divides_le(g2 * g, g);
    assert(g2 * g <= g);
    assert(g2 <= 1) by (nonlinear_arith)
        requires
            g2 * g <= g,
            g > 0,
            g2 > 0,
    ;
}

/// The gcd of zero and a natural is that natural.
pub proof fn lemma_gcd_zero_left(b: nat)
    ensures
        gcd(0, b) == b,
{
    if b > 0 {
        assert(0int % b as int == 0) by (nonlinear_arith)
            requires
                b > 0,
        ;
        assert(gcd(0, b) == gcd(b, 0));
    }
}

/// Coprime divisors: positive divisors of coprime numbers are coprime.
pub proof fn lemma_coprime_of_divisors(a: nat, b: nat, x: nat, y: nat)
    requires
        coprime(a, b),
        divides(x as int, a as int),
        divides(y as int, b as int),
        y > 0,
    ensures
        coprime(x, y),
{
    lemma_gcd_positive(x, y);
    let g = gcd(x, y);
    lemma_gcd_divides(x, y);
    lemma_divides_transitive(g as int, x as int, a as int);
    lemma_divides_transitive(g as int, y as int, b as int);
    lemma_common_divisor_divides_gcd(g as int, a, b);
    lemma_divides_le(g as int, 1);
}

/// A number coprime to two factors is coprime to their product.
pub proof fn lemma_coprime_mul_right(a: nat, b: nat, c: nat)
    requires
        coprime(a, b),
        coprime(a, c),
    ensures
        coprime(a, b * c),
{
    if a == 0 {
        // coprime(0, b) forces b == 1, likewise c
        lemma_gcd_zero_left(b);
        lemma_gcd_zero_left(c);
        assert(b == 1 && c == 1);
        assert(b * c == 1) by (nonlinear_arith)
            requires
                b == 1,
                c == 1,
        ;
    } else {
        lemma_gcd_positive(a, b * c);
        let g = gcd(a, b * c);
        lemma_gcd_divides(a, b * c);
        // gcd(g, b) divides gcd(a, b) == 1, so g is coprime to b
        lemma_gcd_positive(g, b);
        let e = gcd(g, b);
        lemma_gcd_divides(g, b);
        lemma_divides_transitive(e as int, g as int, a as int);
        lemma_common_divisor_divides_gcd(e as int, a, b);
        lemma_divides_le(e as int, 1);
        assert(coprime(g, b));
        lemma_euclid(g, b, c as int);
        lemma_common_divisor_divides_gcd(g as int, a, c);
        lemma_divides_le(g as int, 1);
    }
}

/// Powers of a nonnegative base are nonnegative.
pub proof fn lemma_pow_nat_nonneg(b: nat, e: nat)
    ensures
        pow(b as int, e) >= 0,
    decreases e,
{
    reveal(pow);
    if e > 0 {
        lemma_pow_nat_nonneg(b, (e - 1) as nat);
        assert(b as int * pow(b as int, (e - 1) as nat) >= 0) by (nonlinear_arith)
            requires
                b >= 0,
                pow(b as int, (e - 1) as nat) >= 0,
        ;
    }
}

/// A number coprime to a base is coprime to every power of it.
pub proof fn lemma_coprime_pow(a: nat, b: nat, k: nat)
    requires
        coprime(a, b),
    ensures
        coprime(a, pow(b as int, k) as nat),
    decreases k,
{
    reveal(pow);
    lemma_pow_nat_nonneg(b, k);
    if k == 0 {
        lemma_coprime_one(a);
    } else {
        lemma_coprime_pow(a, b, (k - 1) as nat);
        lemma_pow_nat_nonneg(b, (k - 1) as nat);
        let p = pow(b as int, (k - 1) as nat) as nat;
        lemma_coprime_mul_right(a, b, p);
        assert(pow(b as int, k) == b as int * pow(b as int, (k - 1) as nat));
        assert(b * p == (b as int * pow(b as int, (k - 1) as nat)) as nat);
    }
}

/// Coprime bases have coprime powers.
pub proof fn lemma_coprime_pow_both(a: nat, b: nat, j: nat, k: nat)
    requires
        coprime(a, b),
    ensures
        coprime(pow(a as int, j) as nat, pow(b as int, k) as nat),
{
    lemma_coprime_pow(a, b, k);
    lemma_pow_nat_nonneg(b, k);
    let pb = pow(b as int, k) as nat;
    lemma_gcd_symmetric(a, pb);
    lemma_coprime_pow(pb, a, j);
    lemma_pow_nat_nonneg(a, j);
    lemma_gcd_symmetric(pb, pow(a as int, j) as nat);
}

/// The magnitude of a power is the power of the magnitude.
pub proof fn lemma_pow_abs(b: int, e: nat)
    ensures
        abs(pow(b, e)) == pow(abs(b) as int, e),
    decreases e,
{
    reveal(pow);
    if e > 0 {
        lemma_pow_abs(b, (e - 1) as nat);
        assert(abs(b * pow(b, (e - 1) as nat)) == abs(b) * abs(pow(b, (e - 1) as nat)))
            by (nonlinear_arith);
    }
}

/// Every natural is coprime to one.
pub proof fn lemma_coprime_one(a: nat)
    ensures
        coprime(a, 1),
{
    assert(a as int % 1 == 0) by (nonlinear_arith);
    assert(gcd(a, 1) == gcd(1, 0));
}

/// `n` is the square of some integer.
pub open spec fn is_square(n: int) -> bool {
    exists|r: int| #[trigger] (r * r) == n
}

/// The non-negative square root of a perfect square.
pub open spec fn nonneg_root(n: int) -> int {
    choose|r: int| r >= 0 && #[trigger] (r * r) == n
}

/// The non-negative root of a perfect square is unique.
pub proof fn lemma_nonneg_root_unique(n: int, r: int)
    requires
        r >= 0,
        r * r == n,
    ensures
        nonneg_root(n) == r,
{
    let r2 = nonneg_root(n);
    assert(r2 >= 0 && r2 * r2 == n);
    assert(r2 == r) by (nonlinear_arith)
        requires
            r >= 0,
            r2 >= 0,
            r * r == r2 * r2,
    ;
}

/// `n` is the cube of some integer.
pub open spec fn is_cube(n: int) -> bool {
    exists|r: int| #[trigger] (r * r * r) == n
}

/// Exact integer square root of a non-negative value, by binary search over
/// the half-open range from zero to the value plus one. Returns nothing when
/// the value is not a perfect square.
pub fn integer_sqrt(value: i64) -> (r: Option<i64>)
    requires
        value >= 0,
    ensures
        r matches Some(s) ==> 0 <= s && s * s == value,
        r is Some <==> is_square(value as int),
{
    let mut low: u64 = 0;
    let mut high: u64 = (value as u64) + 1;
    proof {
        assert(value < (value + 1) * (value + 1)) by (nonlinear_arith)
            requires
                value >= 0,
        ;
    }
    while low != high - 1
        invariant
            low < high,
            high <= (value as u64) + 1,
            (low as int) * (low as int) <= value as int,
            (value as int) < (high as int) * (high as int),
            0 <= value <= i64::MAX,
        decreases high - low,
    {
        let mid: u64 = (low + high) / 2;
        proof {
            assert((mid as int) * (mid as int) <= 0xffffffffffffffffffffffffffffffff)
                by (nonlinear_arith)
                requires
                    0 <= (mid as int) < 0x10000000000000000,
            ;
        }
        let sq: u128 = (mid as u128) * (mid as u128);
        if sq <= (value as u128) {
            low = mid;
        } else {
            high = mid;
        }
    }
    let sq: u128 = (low as u128) * (low as u128);
    if sq == (value as u128) {
        proof {
            assert(low <= i64::MAX as u64) by (nonlinear_arith)
                requires
                    (low as int) * (low as int) <= value as int,
                    value <= i64::MAX,
                    low >= 0,
            ;
            assert((low as int) * (low as int) == value as int);
        }
        Some(low as i64)
    } else {
        proof {
            assert forall|s: int| #[trigger] (s * s) != value as int by {
                let t: int = if s < 0 {
                    -s
                } else {
                    s
                };
                assert(t * t == s * s) by (nonlinear_arith)
                    requires
                        t == s || t == -s,
                ;
                if t * t == value as int {
                    if t <= low as int {
                        assert(t * t <= (low as int) * (low as int)) by (nonlinear_arith)
                            requires
                                0 <= t <= low as int,
                        ;
                    } else {
                        assert(t * t >= (high as int) * (high as int)) by (nonlinear_arith)
                            requires
                                t >= high as int,
                                high as int >= 0,
                        ;
                    }
                }
            }
        }
        None
    }
}

/// Exact integer cube root, defined for all signs because the cube is odd:
/// the root of a negative value is the negated root of its magnitude.
/// Returns nothing when the value is not a perfect cube.
pub fn integer_cbrt(value: i64) -> (r: Option<i64>)
    ensures
        r matches Some(c) ==> c * c * c == value,
        r is Some <==> is_cube(value as int),
{
    let value_abs: u64 = if value < 0 {
        ((-(value + 1)) as u64) + 1
    } else {
        value as u64
    };
    proof {
        assert(value_abs == abs(value as int));
    }
    let mut low: u64 = 0;
    // No cube root of a 64-bit value exceeds 2^21, so capping the search
    // range keeps every candidate cube inside 128 bits.
    let mut high: u64 = if value_abs >= 2097152 {
        2097153
    } else {
        value_abs + 1
    };
    proof {
        if value_abs >= 2097152 {
            // (2^21 + 1)^3 exceeds 2^63, the largest possible magnitude
            assert(2097153int * 2097153int == 4398050705409int);
            assert(4398050705409int * 2097153int == 9223385231000600577int);
            assert((2097153 as int) * (2097153 as int) * (2097153 as int)
                == 9223385231000600577int);
        } else {
            assert((value_abs as int) < (value_abs as int + 1) * (value_abs as int + 1) * (
            value_abs as int + 1)) by (nonlinear_arith)
                requires
                    value_abs >= 0,
            ;
        }
    }
    while low != high - 1
        invariant
            low < high,
            high <= 2097153,
            (low as int) * (low as int) * (low as int) <= value_abs as int,
            (value_abs as int) < (high as int) * (high as int) * (high as int),
        decreases high - low,
    {
        let mid: u64 = (low + high) / 2;
        proof {
            assert((mid as int) * (mid as int) <= 4398050705409int && (mid as int) * (mid as int)
                * (mid as int) <= 9223385231000600577int) by (nonlinear_arith)
                requires
                    0 <= (mid as int) <= 2097153,
            ;
        }
        let cube: u128 = (mid as u128) * (mid as u128) * (mid as u128);
        if cube <= (value_abs as u128) {
            low = mid;
        } else {
            high = mid;
        }
    }
    proof {
        assert((low as int) * (low as int) <= 4398050705409int && (low as int) * (low as int) * (
        low as int) <= 9223385231000600577int) by (nonlinear_arith)
            requires
                0 <= (low as int) <= 2097153,
        ;
    }
    let cube: u128 = (low as u128) * (low as u128) * (low as u128);
    if cube == (value_abs as u128) {
        let root: i64 = if value < 0 {
            -(low as i64)
        } else {
            low as i64
        };
        proof {
            assert(root * root * root == value) by (nonlinear_arith)
                requires
                    (low as int) * (low as int) * (low as int) == abs(value as int),
                    (value < 0 ==> root == -(low as int)) && (value >= 0 ==> root == low as int),
                    abs(value as int) == if value < 0 {
                        -(value as int)
                    } else {
                        value as int
                    },
            ;
            assert((root as int) * (root as int) * (root as int) == value as int);
        }
        Some(root)
    } else {
        proof {
            assert forall|s: int| #[trigger] (s * s * s) != value as int by {
                let t: int = if s < 0 {
                    -s
                } else {
                    s
                };
                assert(t * t * t == abs(s * s * s)) by (nonlinear_arith)
                    requires
                        t == abs(s),
                ;
                if s * s * s == value as int {
                    assert(t * t * t == value_abs as int);
                    if t <= low as int {
                        assert(t * t * t <= (low as int) * (low as int) * (low as int))
                            by (nonlinear_arith)
                            requires
                                0 <= t <= low as int,
                        ;
                    } else {
                        assert(t * t * t >= (high as int) * (high as int) * (high as int))
                            by (nonlinear_arith)
                            requires
                                t >= high as int,
                                high as int >= 0,
                        ;
                    }
                }
            }
        }
        None
    }
}

/// Euclidean step used by the executable gcd loop: the gcd is unchanged by
/// replacing the pair with the divisor and the remainder.
pub proof fn lemma_gcd_step(a: nat, b: nat)
    requires
        b > 0,
    ensures
        gcd(a, b) == gcd(b, (a % b) as nat),
{
}

/// Executable Euclidean algorithm over unsigned magnitudes.
///
/// Wide 128-bit operands let every caller in this crate pass the magnitude
/// of any intermediate cross product without truncation.
pub fn greatest_common_divisor(a: u128, b: u128) -> (g: u128)
    ensures
        g == gcd(a as nat, b as nat),
{
    let mut x: u128 = a;
    let mut y: u128 = b;
    while y != 0
        invariant
            gcd(x as nat, y as nat) == gcd(a as nat, b as nat),
        decreases y,
    {
        proof {
            lemma_gcd_step(x as nat, y as nat);
            lemma_mod_division_less_than_divisor(x as int, y as int);
        }
        let t: u128 = y;
        y = x % y;
        x = t;
    }
    x
}

} // verus!
