//! Arbitrary-precision signed integers over base-2^64 limb arrays.
//!
//! A value is a sign and a non-empty sequence of 64-bit limbs, least
//! significant first. Its mathematical meaning is the signed sum of the
//! limbs weighted by powers of the base. Comparison and equality go by
//! that meaning: high zero limbs and the sign of zero carry no weight, so
//! the order is a total order on the denoted values and every arithmetic
//! contract is exact unconditionally.

use core::cmp::Ordering;
use vstd::prelude::*;
use vstd::std_specs::cmp::{PartialOrdSpec, PartialEqSpec};

verus! {

/// The sign of an arbitrary-precision integer.
#[derive(Clone, Copy, Debug, PartialEq, Eq, Structural)]
pub enum Sign {
    Positive,
    Negative,
}

/// An arbitrary-precision signed integer: a sign and base-2^64 limbs,
/// least significant first. The limb sequence is never empty; a canonical
/// zero is a single zero limb, under either sign.
#[derive(Clone, Debug)]
pub struct BigInt {
    pub sign: Sign,
    pub digits: Vec<u64>,
}

/// The base raised to a limb position: 2^64 per limb.
pub open spec fn base_pow(n: int) -> nat
    decreases n,
{
    if n <= 0 {
        1
    } else {
        0x10000000000000000 * base_pow(n - 1)
    }
}

/// The limb at a position, reading zero beyond the end.
pub open spec fn limb_at(s: Seq<u64>, i: int) -> u64 {
    if 0 <= i < s.len() {
        s[i]
    } else {
        0
    }
}

/// The value of the first `n` limbs, least significant first.
pub open spec fn prefix_val(s: Seq<u64>, n: int) -> nat
    decreases n,
{
    if n <= 0 {
        0
    } else {
        prefix_val(s, n - 1) + (limb_at(s, n - 1) as nat) * base_pow(n - 1)
    }
}

/// The magnitude denoted by a limb sequence.
pub open spec fn limbs_val(s: Seq<u64>) -> nat {
    prefix_val(s, s.len() as int)
}

/// The signed value an arbitrary-precision integer denotes.
pub open spec fn big_val(b: BigInt) -> int {
    if b.sign is Positive {
        limbs_val(b.digits@) as int
    } else {
        -(limbs_val(b.digits@) as int)
    }
}

impl View for BigInt {
    type V = int;

    open spec fn view(&self) -> int {
        big_val(*self)
    }
}

/// The representation of the canonical zero: one zero limb.
pub open spec fn is_zero_rep(s: Seq<u64>) -> bool {
    s.len() == 1 && s[0] == 0
}

/// Three-way order on integers.
pub open spec fn ord_of(x: int, y: int) -> Ordering {
    if x < y {
        Ordering::Less
    } else if x == y {
        Ordering::Equal
    } else {
        Ordering::Greater
    }
}

impl BigInt {
    /// Validity: the limb sequence is never empty.
    pub open spec fn wf(self) -> bool {
        self.digits@.len() >= 1
    }

    /// The canonical zero: positive sign, one zero limb.
    pub fn new() -> (r: BigInt)
        ensures
            r.wf(),
            r.sign is Positive,
            is_zero_rep(r.digits@),
            big_val(r) == 0,
    {
        let mut digits: Vec<u64> = Vec::new();
        digits.push(0);
        proof {
            lemma_single_limb_val(digits@);
        }
        BigInt { sign: Sign::Positive, digits }
    }

    /// A single-limb value from an unsigned 64-bit integer.
    pub fn from_u64(n: u64) -> (r: BigInt)
        ensures
            r.wf(),
            r.sign is Positive,
            r.digits@ =~= seq![n],
            big_val(r) == n,
    {
        let mut digits: Vec<u64> = Vec::new();
        digits.push(n);
        proof {
            lemma_single_limb_val(digits@);
        }
        BigInt { sign: Sign::Positive, digits }
    }

    /// A single-limb value from a signed 64-bit integer: the sign is split
    /// off and the limb holds the magnitude.
    pub fn from_i64(n: i64) -> (r: BigInt)
        ensures
            r.wf(),
            r.digits@.len() == 1,
            big_val(r) == n as int,
    {
        let mag: u64 = if n < 0 {
            ((-(n + 1)) as u64) + 1
        } else {
            n as u64
        };
        let mut digits: Vec<u64> = Vec::new();
        digits.push(mag);
        proof {
            lemma_single_limb_val(digits@);
        }
        let sign = if n >= 0 {
            Sign::Positive
        } else {
            Sign::Negative
        };
        BigInt { sign, digits }
    }

    /// A single-limb value from a signed 32-bit integer.
    pub fn from_i32(n: i32) -> (r: BigInt)
        ensures
            r.wf(),
            r.digits@.len() == 1,
            big_val(r) == n as int,
    {
        BigInt::from_i64(n as i64)
    }

    /// Negation flips the sign and keeps the limbs; either zero negates to
    /// the other zero, and both compare equal.
    pub fn neg(&self) -> (r: BigInt)
        requires
            self.wf(),
        ensures
            r.wf(),
            r.digits@ == self.digits@,
            big_val(r) == -big_val(*self),
            r.sign == (if self.sign is Positive {
                Sign::Negative
            } else {
                Sign::Positive
            }),
    {
        match self.sign {
            Sign::Positive => BigInt { sign: Sign::Negative, digits: self.digits.clone() },
            Sign::Negative => BigInt { sign: Sign::Positive, digits: self.digits.clone() },
        }
    }

    /// Shift left by whole limbs: insert `k` zero limbs at the least
    /// significant end, multiplying the value by the base to the `k`.
    pub fn shl(&self, k: usize) -> (r: BigInt)
        requires
            self.wf(),
        ensures
            r.wf(),
            r.sign == self.sign,
            r.digits@.len() == k + self.digits@.len(),
            forall|i: int| 0 <= i < k ==> r.digits@[i] == 0,
            forall|i: int|
                0 <= i < self.digits@.len() ==> r.digits@[k + i] == (#[trigger] self.digits@[i]),
            limbs_val(r.digits@) == limbs_val(self.digits@) * base_pow(k as int),
            big_val(r) == big_val(*self) * base_pow(k as int),
    {
        let mut digits: Vec<u64> = Vec::new();
        let mut i: usize = 0;
        while i < k
            invariant
                i <= k,
                digits@.len() == i,
                prefix_val(digits@, i as int) == 0,
                forall|j: int| 0 <= j < i ==> limb_at(digits@, j) == 0,
            decreases k - i,
        {
            proof {
                lemma_prefix_val_push(digits@, 0);
                assert forall|j: int| 0 <= j < i + 1 implies limb_at(digits@.push(0), j) == 0 by {
                    if j < i {
                        assert(limb_at(digits@.push(0), j) == limb_at(digits@, j));
                    } else {
                        assert(digits@.push(0)[j] == 0);
                    }
                }
            }
            digits.push(0);
            i = i + 1;
        }
        let mut j: usize = 0;
        proof {
            assert(prefix_val(self.digits@, 0) * base_pow(k as int) == 0) by (nonlinear_arith)
                requires
                    prefix_val(self.digits@, 0) == 0,
            ;
        }
        while j < self.digits.len()
            invariant
                j <= self.digits@.len(),
                digits@.len() == k + j,
                prefix_val(digits@, k as int) == 0,
                forall|t: int| 0 <= t < k ==> limb_at(digits@, t) == 0,
                forall|t: int| 0 <= t < j ==> limb_at(digits@, k + t) == limb_at(self.digits@, t),
                prefix_val(digits@, k + j) == prefix_val(self.digits@, j as int) * base_pow(
                    k as int,
                ),
            decreases self.digits.len() - j,
        {
            let d = self.digits[j];
            proof {
                lemma_base_pow_add(j as int, k as int);
                lemma_prefix_val_push(digits@, d);
                assert forall|t: int| 0 <= t < k implies limb_at(digits@.push(d), t) == 0 by {
                    assert(limb_at(digits@.push(d), t) == limb_at(digits@, t));
                }
                assert forall|t: int| 0 <= t < j + 1 implies limb_at(digits@.push(d), k + t)
                    == limb_at(self.digits@, t) by {
                    if t < j {
                        assert(limb_at(digits@.push(d), k + t) == limb_at(digits@, k + t));
                    } else {
                        assert(digits@.push(d)[k + t] == d);
                    }
                }
                assert(prefix_val(digits@.push(d), k + j + 1) == prefix_val(digits@, k + j)
                    + d * base_pow(k + j));
                assert(prefix_val(self.digits@, j + 1) == prefix_val(self.digits@, j as int)
                    + limb_at(self.digits@, j as int) * base_pow(j as int));
                assert((prefix_val(self.digits@, j as int) + d * base_pow(j as int)) * base_pow(
                    k as int,
                ) == prefix_val(self.digits@, j as int) * base_pow(k as int) + d * (base_pow(
                    j as int,
                ) * base_pow(k as int))) by (nonlinear_arith);
                assert(d * (base_pow(j as int) * base_pow(k as int)) == d * base_pow(k + j))
                    by (nonlinear_arith)
                    requires
                        base_pow(j as int) * base_pow(k as int) == base_pow(k + j),
                ;
            }
            digits.push(d);
            j = j + 1;
        }
        proof {
            assert(limbs_val(digits@) == limbs_val(self.digits@) * base_pow(k as int));
            assert(forall|i: int| 0 <= i < k ==> digits@[i] == limb_at(digits@, i));
            assert(forall|i: int|
                0 <= i < self.digits@.len() ==> digits@[k + i] == limb_at(digits@, k + i)
                    && (#[trigger] self.digits@[i]) == limb_at(self.digits@, i));
            if self.sign is Negative {
                assert(-((limbs_val(self.digits@) * base_pow(k as int)) as int) == (-(limbs_val(
                    self.digits@,
                ) as int)) * base_pow(k as int)) by (nonlinear_arith);
            }
        }
        BigInt { sign: self.sign, digits }
    }
}

/// Base powers grow with the exponent.
pub proof fn lemma_base_pow_increases(m: int, n: int)
    requires
        m <= n,
    ensures
        base_pow(m) <= base_pow(n),
    decreases n - m,
{
    if m < n {
        lemma_base_pow_increases(m, n - 1);
        lemma_base_pow_pos(n - 1);
        assert(base_pow(n - 1) <= 0x10000000000000000 * base_pow(n - 1)) by (nonlinear_arith)
            requires
                base_pow(n - 1) >= 0,
        ;
    }
}

/// Zero limbs above a position add nothing to the prefix value.
pub proof fn lemma_prefix_val_zeros_above(s: Seq<u64>, n: int, m: int)
    requires
        0 <= n <= m,
        forall|i: int| n <= i < m ==> limb_at(s, i) == 0,
    ensures
        prefix_val(s, m) == prefix_val(s, n),
    decreases m - n,
{
    if n < m {
        lemma_prefix_val_zeros_above(s, n, m - 1);
        assert(limb_at(s, m - 1) == 0);
    }
}

/// A prefix is at least its top term.
pub proof fn lemma_prefix_val_lower(s: Seq<u64>, n: int)
    requires
        n >= 1,
    ensures
        prefix_val(s, n) >= (limb_at(s, n - 1) as nat) * base_pow(n - 1),
{
}

/// A sequence whose most significant nonzero limb sits lower denotes the
/// smaller magnitude.
proof fn lemma_effective_len_bounds(x: Seq<u64>, ex: int, y: Seq<u64>, ey: int)
    requires
        0 <= ex < ey,
        ey <= y.len(),
        limb_at(y, ey - 1) != 0,
    ensures
        prefix_val(x, ex) < prefix_val(y, ey),
{
    lemma_prefix_val_bound(x, ex);
    lemma_prefix_val_lower(y, ey);
    lemma_base_pow_increases(ex, ey - 1);
    assert((limb_at(y, ey - 1) as nat) * base_pow(ey - 1) >= base_pow(ey - 1))
        by (nonlinear_arith)
        requires
            limb_at(y, ey - 1) >= 1,
            base_pow(ey - 1) >= 0,
    ;
}

/// Prefixes of sequences that agree on a limb range differ by the same
/// amount at both ends of the range.
proof fn lemma_prefix_val_agree_range(x: Seq<u64>, y: Seq<u64>, lo: int, hi: int)
    requires
        0 <= lo <= hi,
        forall|i: int| lo <= i < hi ==> limb_at(x, i) == limb_at(y, i),
    ensures
        prefix_val(x, hi) - prefix_val(x, lo) == prefix_val(y, hi) - prefix_val(y, lo),
    decreases hi - lo,
{
    if lo < hi {
        lemma_prefix_val_agree_range(x, y, lo, hi - 1);
        assert(limb_at(x, hi - 1) == limb_at(y, hi - 1));
    }
}

/// Where the limbs agree above a position and differ at it, the larger
/// limb decides the order.
proof fn lemma_lex_decides(x: Seq<u64>, y: Seq<u64>, j: int, n: int)
    requires
        0 <= j < n,
        limb_at(x, j) > limb_at(y, j),
        forall|i: int| j < i < n ==> limb_at(x, i) == limb_at(y, i),
    ensures
        prefix_val(x, n) > prefix_val(y, n),
{
    lemma_prefix_val_agree_range(x, y, j + 1, n);
    lemma_prefix_val_bound(y, j);
    lemma_base_pow_pos(j);
    assert((limb_at(x, j) as nat) * base_pow(j) >= (limb_at(y, j) as nat) * base_pow(j)
        + base_pow(j)) by (nonlinear_arith)
        requires
            limb_at(x, j) >= limb_at(y, j) + 1,
            base_pow(j) >= 0,
    ;
}

impl PartialEq for BigInt {
    /// Value equality: the two operands denote the same integer. High
    /// zero limbs carry no weight, and the two sign variants of zero are
    /// equal.
    fn eq(&self, other: &Self) -> (r: bool) {
        matches!(self.partial_cmp(other), Some(Ordering::Equal))
    }
}

impl vstd::std_specs::cmp::PartialEqSpecImpl for BigInt {
    open spec fn obeys_eq_spec() -> bool {
        true
    }

    open spec fn eq_spec(&self, other: &BigInt) -> bool {
        big_val(*self) == big_val(*other)
    }
}

impl PartialOrd for BigInt {
    /// Comparison of the denoted values: zero compares equal to zero
    /// under either sign, differing signs of nonzero values decide
    /// outright, and same-sign values compare by magnitude, reversed when
    /// both are negative.
    fn partial_cmp(&self, other: &Self) -> (r: Option<Ordering>) {
        let ea = effective_len(&self.digits);
        let eb = effective_len(&other.digits);
        proof {
            if ea > 0 {
                lemma_prefix_val_lower(self.digits@, ea as int);
                assert((self.digits@[ea - 1] as nat) * base_pow(ea as int - 1) >= base_pow(
                    ea as int - 1,
                )) by (nonlinear_arith)
                    requires
                        self.digits@[ea - 1] >= 1,
                        base_pow(ea as int - 1) >= 0,
                ;
                lemma_base_pow_pos(ea as int - 1);
            }
            if eb > 0 {
                lemma_prefix_val_lower(other.digits@, eb as int);
                assert((other.digits@[eb - 1] as nat) * base_pow(eb as int - 1) >= base_pow(
                    eb as int - 1,
                )) by (nonlinear_arith)
                    requires
                        other.digits@[eb - 1] >= 1,
                        base_pow(eb as int - 1) >= 0,
                ;
                lemma_base_pow_pos(eb as int - 1);
            }
        }
        let r = if ea == 0 && eb == 0 {
            Ordering::Equal
        } else if ea == 0 {
            match other.sign {
                Sign::Positive => Ordering::Less,
                Sign::Negative => Ordering::Greater,
            }
        } else if eb == 0 {
            match self.sign {
                Sign::Positive => Ordering::Greater,
                Sign::Negative => Ordering::Less,
            }
        } else if self.sign != other.sign {
            match self.sign {
                Sign::Positive => Ordering::Greater,
                Sign::Negative => Ordering::Less,
            }
        } else {
            let mag = limb_cmp(&self.digits, &other.digits);
            match self.sign {
                Sign::Positive => mag,
                Sign::Negative => match mag {
                    Ordering::Less => Ordering::Greater,
                    Ordering::Equal => Ordering::Equal,
                    Ordering::Greater => Ordering::Less,
                },
            }
        };
        Some(r)
    }
}

impl vstd::std_specs::cmp::PartialOrdSpecImpl for BigInt {
    open spec fn obeys_partial_cmp_spec() -> bool {
        true
    }

    open spec fn partial_cmp_spec(&self, other: &BigInt) -> Option<Ordering> {
        Some(ord_of(big_val(*self), big_val(*other)))
    }
}

/// The index just past the most significant nonzero limb; the limbs from
/// there on contribute nothing to the value.
fn effective_len(v: &Vec<u64>) -> (r: usize)
    ensures
        r <= v@.len(),
        forall|i: int| r <= i < v@.len() ==> v@[i] == 0,
        r > 0 ==> v@[r - 1] != 0,
        limbs_val(v@) == prefix_val(v@, r as int),
{
    let mut e = v.len();
    while e > 0 && v[e - 1] == 0
        invariant
            e <= v@.len(),
            forall|i: int| e <= i < v@.len() ==> v@[i] == 0,
        decreases e,
    {
        e = e - 1;
    }
    proof {
        lemma_prefix_val_zeros_above(v@, e as int, v@.len() as int);
    }
    e
}

/// Compare the magnitudes two limb sequences denote: by the position of
/// the most significant nonzero limb first, then limb by limb downward,
/// the first differing limb deciding.
fn limb_cmp(x: &Vec<u64>, y: &Vec<u64>) -> (r: Ordering)
    ensures
        r == ord_of(limbs_val(x@) as int, limbs_val(y@) as int),
{
    let ex = effective_len(x);
    let ey = effective_len(y);
    if ex < ey {
        proof {
            lemma_effective_len_bounds(x@, ex as int, y@, ey as int);
        }
        return Ordering::Less;
    }
    if ey < ex {
        proof {
            lemma_effective_len_bounds(y@, ey as int, x@, ex as int);
        }
        return Ordering::Greater;
    }
    let mut i: usize = ex;
    while i > 0
        invariant
            i <= ex,
            ex == ey,
            ex <= x@.len(),
            ey <= y@.len(),
            limbs_val(x@) == prefix_val(x@, ex as int),
            limbs_val(y@) == prefix_val(y@, ey as int),
            forall|t: int| i <= t < ex ==> limb_at(x@, t) == limb_at(y@, t),
        decreases i,
    {
        let xi = x[i - 1];
        let yi = y[i - 1];
        if xi < yi {
            proof {
                lemma_lex_decides(y@, x@, i as int - 1, ex as int);
            }
            return Ordering::Less;
        }
        if xi > yi {
            proof {
                lemma_lex_decides(x@, y@, i as int - 1, ex as int);
            }
            return Ordering::Greater;
        }
        i = i - 1;
    }
    proof {
        lemma_prefix_val_agree(x@, y@, ex as int);
    }
    Ordering::Equal
}

impl BigInt {
    /// Three-way comparison of the denoted values.
    pub fn compare(&self, other: &BigInt) -> (r: Ordering)
        ensures
            r == ord_of(big_val(*self), big_val(*other)),
    {
        match self.partial_cmp(other) {
            Some(o) => o,
            // never reached: the comparison is total
            None => Ordering::Equal,
        }
    }

    /// Magnitude addition: both operands must be positive. The limbs are
    /// added pairwise, a single-bit carry propagating upward; a carry out
    /// of the most significant limb appends one more limb. The value is
    /// always the exact sum.
    pub fn add_positive(&self, other: &BigInt) -> (r: BigInt)
        requires
            self.wf(),
            other.wf(),
            self.sign is Positive,
            other.sign is Positive,
        ensures
            r.wf(),
            r.sign is Positive,
            big_val(r) == big_val(*self) + big_val(*other),
            r.digits@.len() == add_result_len(self.digits@, other.digits@),
    {
        let la = self.digits.len();
        let lb = other.digits.len();
        let n = if la >= lb {
            la
        } else {
            lb
        };
        let mut result_digits: Vec<u64> = Vec::new();
        let mut carry: bool = false;
        let mut i: usize = 0;
        while i < n
            invariant
                i <= n,
                n == max_len(self.digits@, other.digits@),
                n >= self.digits@.len(),
                n >= other.digits@.len(),
                result_digits@.len() == i,
                prefix_val(result_digits@, i as int) + (if carry {
                    1nat
                } else {
                    0nat
                }) * base_pow(i as int) == prefix_val(self.digits@, i as int) + prefix_val(
                    other.digits@,
                    i as int,
                ),
            decreases n - i,
        {
            let l: u64 = if i < self.digits.len() {
                self.digits[i]
            } else {
                0
            };
            let rl: u64 = if i < other.digits.len() {
                other.digits[i]
            } else {
                0
            };
            let s: u128 = (l as u128) + (rl as u128) + (if carry {
                1u128
            } else {
                0u128
            });
            let limb: u64 = (s % 0x10000000000000000u128) as u64;
            let carry_out: bool = s >= 0x10000000000000000u128;
            proof {
                assert(s == limb + (if carry_out {
                    1nat
                } else {
                    0nat
                }) * 0x10000000000000000);
                lemma_prefix_val_push(result_digits@, limb);
                lemma_carry_step(
                    prefix_val(result_digits@, i as int),
                    prefix_val(self.digits@, i as int),
                    prefix_val(other.digits@, i as int),
                    l as nat,
                    rl as nat,
                    if carry {
                        1nat
                    } else {
                        0nat
                    },
                    if carry_out {
                        1nat
                    } else {
                        0nat
                    },
                    limb as nat,
                    base_pow(i as int),
                );
            }
            result_digits.push(limb);
            carry = carry_out;
            i = i + 1;
        }
        proof {
            lemma_prefix_val_beyond(self.digits@, n as int);
            lemma_prefix_val_beyond(other.digits@, n as int);
            lemma_prefix_val_bound(result_digits@, n as int);
        }
        if carry {
            proof {
                lemma_prefix_val_push(result_digits@, 1);
                assert((1nat) * base_pow(i as int) == base_pow(i as int)) by (nonlinear_arith);
            }
            result_digits.push(1);
        }
        let result = BigInt { sign: Sign::Positive, digits: result_digits };
        proof {
            assert(limbs_val(result.digits@) == limbs_val(self.digits@) + limbs_val(
                other.digits@,
            ));
        }
        result
    }
}

/// The larger of the two limb-sequence lengths.
pub open spec fn max_len(x: Seq<u64>, y: Seq<u64>) -> int {
    if x.len() >= y.len() {
        x.len() as int
    } else {
        y.len() as int
    }
}

/// The length of a magnitude sum: the larger input length, plus one
/// exactly when the sum reaches the base to that power — the carry
/// escaping the most significant limb.
pub open spec fn add_result_len(x: Seq<u64>, y: Seq<u64>) -> int {
    if limbs_val(x) + limbs_val(y) >= base_pow(max_len(x, y)) {
        max_len(x, y) + 1
    } else {
        max_len(x, y)
    }
}

impl BigInt {
    /// Magnitude subtraction: both operands must be positive. The smaller
    /// value is subtracted from the larger, limb by limb with a borrow,
    /// and the sign of the result records which operand was larger. The
    /// value is always the exact difference.
    pub fn sub_positive(&self, other: &BigInt) -> (r: BigInt)
        requires
            self.wf(),
            other.wf(),
            self.sign is Positive,
            other.sign is Positive,
        ensures
            r.wf(),
            big_val(r) == big_val(*self) - big_val(*other),
            r.digits@.len() == max_len(self.digits@, other.digits@),
            r.sign is Positive <==> big_val(*self) >= big_val(*other),
    {
        let ge = match self.compare(other) {
            Ordering::Less => false,
            _ => true,
        };
        let sign = if ge {
            Sign::Positive
        } else {
            Sign::Negative
        };
        let (left, right) = if ge {
            (self, other)
        } else {
            (other, self)
        };
        proof {
            assert(limbs_val(left.digits@) >= limbs_val(right.digits@));
        }
        let la = left.digits.len();
        let lb = right.digits.len();
        let n = if la >= lb {
            la
        } else {
            lb
        };
        let mut result_digits: Vec<u64> = Vec::new();
        let mut borrow: bool = false;
        let mut i: usize = 0;
        while i < n
            invariant
                i <= n,
                n >= left.digits@.len(),
                n >= right.digits@.len(),
                n == max_len(left.digits@, right.digits@),
                result_digits@.len() == i,
                prefix_val(result_digits@, i as int) as int == prefix_val(left.digits@, i as int)
                    - prefix_val(right.digits@, i as int) + (if borrow {
                    1int
                } else {
                    0int
                }) * (base_pow(i as int) as int),
            decreases n - i,
        {
            let l: u64 = if i < left.digits.len() {
                left.digits[i]
            } else {
                0
            };
            let rl: u64 = if i < right.digits.len() {
                right.digits[i]
            } else {
                0
            };
            let t: u128 = 0x10000000000000000u128 + (l as u128) - (rl as u128) - (if borrow {
                1u128
            } else {
                0u128
            });
            let limb: u64 = (t % 0x10000000000000000u128) as u64;
            let borrow_out: bool = t < 0x10000000000000000u128;
            proof {
                assert(l as int - rl as int - (if borrow {
                    1int
                } else {
                    0int
                }) == limb - (if borrow_out {
                    1int
                } else {
                    0int
                }) * 0x10000000000000000);
                lemma_prefix_val_push(result_digits@, limb);
                lemma_borrow_step(
                    prefix_val(result_digits@, i as int) as int,
                    prefix_val(left.digits@, i as int) as int,
                    prefix_val(right.digits@, i as int) as int,
                    l as int,
                    rl as int,
                    if borrow {
                        1int
                    } else {
                        0int
                    },
                    if borrow_out {
                        1int
                    } else {
                        0int
                    },
                    limb as int,
                    base_pow(i as int) as int,
                );
            }
            result_digits.push(limb);
            borrow = borrow_out;
            i = i + 1;
        }
        let result = BigInt { sign, digits: result_digits };
        proof {
            lemma_prefix_val_beyond(left.digits@, n as int);
            lemma_prefix_val_beyond(right.digits@, n as int);
            if borrow {
                lemma_prefix_val_bound(result.digits@, i as int);
                assert(false);
            }
            assert(limbs_val(result.digits@) as int == limbs_val(left.digits@) as int - limbs_val(
                right.digits@,
            ) as int);
        }
        result
    }

    /// Magnitude multiplication by the schoolbook method: each limb of the
    /// left operand multiplies the whole right operand with a carry chain,
    /// and the shifted rows accumulate through magnitude addition. Both
    /// operands must be positive; the value is always the exact product.
    pub fn mul_positive(&self, other: &BigInt) -> (r: BigInt)
        requires
            self.wf(),
            other.wf(),
            self.sign is Positive,
            other.sign is Positive,
        ensures
            r.wf(),
            r.sign is Positive,
            big_val(r) == big_val(*self) * big_val(*other),
    {
        let mut result = BigInt::new();
        let mut i: usize = 0;
        proof {
            assert(prefix_val(self.digits@, 0) * limbs_val(other.digits@) == 0)
                by (nonlinear_arith)
                requires
                    prefix_val(self.digits@, 0) == 0,
            ;
        }
        while i < self.digits.len()
            invariant
                i <= self.digits@.len(),
                self.wf(),
                other.wf(),
                result.wf(),
                result.sign is Positive,
                limbs_val(result.digits@) == prefix_val(self.digits@, i as int) * limbs_val(
                    other.digits@,
                ),
            decreases self.digits@.len() - i,
        {
            let d: u64 = self.digits[i];
            let row_digits = mul_limb(&other.digits, d);
            let row = BigInt { sign: Sign::Positive, digits: row_digits };
            let shifted = row.shl(i);
            proof {
                lemma_mul_row_step(
                    prefix_val(self.digits@, i as int),
                    limbs_val(other.digits@),
                    d as nat,
                    base_pow(i as int),
                );
            }
            result = result.add_positive(&shifted);
            i = i + 1;
        }
        result
    }

    /// Signed addition, routed by the sign pair to a magnitude addition
    /// or subtraction. Always exact: same-sign magnitudes add with a
    /// carry, mixed-sign magnitudes subtract, the larger deciding the
    /// sign. Same-sign results gain a limb over the longer input exactly
    /// when the magnitude sum carries out of its top limb.
    pub fn add(&self, other: &BigInt) -> (r: BigInt)
        requires
            self.wf(),
            other.wf(),
        ensures
            r.wf(),
            big_val(r) == big_val(*self) + big_val(*other),
            self.sign == other.sign ==> r.digits@.len() == add_result_len(
                self.digits@,
                other.digits@,
            ),
            self.sign != other.sign ==> r.digits@.len() == max_len(self.digits@, other.digits@),
    {
        match (self.sign, other.sign) {
            (Sign::Positive, Sign::Positive) => self.add_positive(other),
            (Sign::Positive, Sign::Negative) => self.sub_positive(&other.neg()),
            (Sign::Negative, Sign::Positive) => other.sub_positive(&self.neg()),
            (Sign::Negative, Sign::Negative) => self.neg().add_positive(&other.neg()).neg(),
        }
    }

    /// Signed subtraction, routed by the sign pair. Always exact:
    /// same-sign magnitudes subtract, the larger deciding the sign, and
    /// mixed-sign magnitudes add.
    pub fn sub(&self, other: &BigInt) -> (r: BigInt)
        requires
            self.wf(),
            other.wf(),
        ensures
            r.wf(),
            big_val(r) == big_val(*self) - big_val(*other),
            self.sign == other.sign ==> r.digits@.len() == max_len(self.digits@, other.digits@),
            self.sign != other.sign ==> r.digits@.len() == add_result_len(
                self.digits@,
                other.digits@,
            ),
    {
        match (self.sign, other.sign) {
            (Sign::Positive, Sign::Positive) => self.sub_positive(other),
            (Sign::Positive, Sign::Negative) => self.add_positive(&other.neg()),
            (Sign::Negative, Sign::Positive) => self.neg().add_positive(other).neg(),
            (Sign::Negative, Sign::Negative) => self.neg().sub_positive(&other.neg()).neg(),
        }
    }

    /// Signed multiplication: the magnitudes multiply and the sign of the
    /// product is the exclusive-or of the operand signs. Always exact.
    pub fn mul(&self, other: &BigInt) -> (r: BigInt)
        requires
            self.wf(),
            other.wf(),
        ensures
            r.wf(),
            big_val(r) == big_val(*self) * big_val(*other),
    {
        let r = match (self.sign, other.sign) {
            (Sign::Positive, Sign::Positive) => self.mul_positive(other),
            (Sign::Positive, Sign::Negative) => self.mul_positive(&other.neg()).neg(),
            (Sign::Negative, Sign::Positive) => self.neg().mul_positive(other).neg(),
            (Sign::Negative, Sign::Negative) => self.neg().mul_positive(&other.neg()),
        };
        proof {
            lemma_mul_sign_cases(
                limbs_val(self.digits@) as int,
                limbs_val(other.digits@) as int,
            );
        }
        r
    }
}

/// Multiply a limb sequence by a single limb, propagating a wide carry;
/// the result has exactly one more limb than the input.
fn mul_limb(digits: &Vec<u64>, m: u64) -> (r: Vec<u64>)
    ensures
        digits@.len() <= r@.len() <= digits@.len() + 1,
        limbs_val(r@) == limbs_val(digits@) * (m as nat),
{
    let mut res: Vec<u64> = Vec::new();
    let mut carry: u64 = 0;
    let mut i: usize = 0;
    proof {
        assert(prefix_val(digits@, 0) * (m as nat) == 0) by (nonlinear_arith)
            requires
                prefix_val(digits@, 0) == 0,
        ;
    }
    while i < digits.len()
        invariant
            i <= digits@.len(),
            res@.len() == i,
            prefix_val(res@, i as int) + (carry as nat) * base_pow(i as int) == prefix_val(
                digits@,
                i as int,
            ) * (m as nat),
        decreases digits@.len() - i,
    {
        let d: u64 = digits[i];
        proof {
            assert((d as int) * (m as int) + carry <= 0xffffffffffffffffffffffffffffffff)
                by (nonlinear_arith)
                requires
                    0 <= (d as int) < 0x10000000000000000,
                    0 <= (m as int) < 0x10000000000000000,
                    0 <= (carry as int) < 0x10000000000000000,
            ;
        }
        let p: u128 = (d as u128) * (m as u128) + (carry as u128);
        let limb: u64 = (p % 0x10000000000000000u128) as u64;
        let carry_next: u64 = (p / 0x10000000000000000u128) as u64;
        proof {
            lemma_prefix_val_push(res@, limb);
            lemma_mul_limb_step(
                prefix_val(res@, i as int),
                prefix_val(digits@, i as int),
                d as nat,
                m as nat,
                carry as nat,
                carry_next as nat,
                limb as nat,
                base_pow(i as int),
            );
        }
        res.push(limb);
        carry = carry_next;
        i = i + 1;
    }
    if carry > 0 {
        proof {
            lemma_prefix_val_push(res@, carry);
        }
        res.push(carry);
    } else {
        proof {
            assert((carry as nat) * base_pow(digits@.len() as int) == 0) by (nonlinear_arith)
                requires
                    carry == 0,
            ;
        }
    }
    res
}

/// One column of a borrow chain, as an integer equation.
proof fn lemma_borrow_step(
    pres: int,
    pl: int,
    pr: int,
    l: int,
    r: int,
    bin: int,
    bout: int,
    limb: int,
    p: int,
)
    requires
        pres == pl - pr + bin * p,
        l - r - bin == limb - bout * 0x10000000000000000,
    ensures
        pres + limb * p == (pl + l * p) - (pr + r * p) + bout * (0x10000000000000000 * p),
{
    assert(pres + limb * p == (pl + l * p) - (pr + r * p) + bout * (0x10000000000000000 * p))
        by (nonlinear_arith)
        requires
            pres == pl - pr + bin * p,
            l - r - bin == limb - bout * 0x10000000000000000,
    ;
}

/// One column of the single-limb multiplication carry chain.
proof fn lemma_mul_limb_step(
    pres: nat,
    pd: nat,
    d: nat,
    m: nat,
    cin: nat,
    cout: nat,
    limb: nat,
    p: nat,
)
    requires
        pres + cin * p == pd * m,
        d * m + cin == limb + cout * 0x10000000000000000,
    ensures
        (pres + limb * p) + cout * (0x10000000000000000 * p) == (pd + d * p) * m,
{
    assert((pres + limb * p) + cout * (0x10000000000000000 * p) == (pd + d * p) * m)
        by (nonlinear_arith)
        requires
            pres + cin * p == pd * m,
            d * m + cin == limb + cout * 0x10000000000000000,
    ;
}

/// Accumulating one shifted row extends the partial product by one limb of
/// the left operand.
proof fn lemma_mul_row_step(pd: nat, vo: nat, d: nat, p: nat)
    ensures
        pd * vo + (vo * d) * p == (pd + d * p) * vo,
{
    assert(pd * vo + (vo * d) * p == (pd + d * p) * vo) by (nonlinear_arith);
}

/// The four sign cases of an integer product.
proof fn lemma_mul_sign_cases(a: int, b: int)
    ensures
        a * b == a * b,
        (-a) * b == -(a * b),
        a * (-b) == -(a * b),
        (-a) * (-b) == a * b,
{
    assert((-a) * b == -(a * b) && a * (-b) == -(a * b) && (-a) * (-b) == a * b)
        by (nonlinear_arith);
}

/// One column of a carry chain: if the running prefix equation holds and
/// the new limb absorbs the incoming carry, the equation holds one
/// position higher.
proof fn lemma_carry_step(
    pres: nat,
    pl: nat,
    pr: nat,
    l: nat,
    r: nat,
    cin: nat,
    cout: nat,
    limb: nat,
    p: nat,
)
    requires
        pres + cin * p == pl + pr,
        l + r + cin == limb + cout * 0x10000000000000000,
    ensures
        (pres + limb * p) + cout * (0x10000000000000000 * p) == (pl + l * p) + (pr + r * p),
{
    assert((pres + limb * p) + cout * (0x10000000000000000 * p) == (pl + l * p) + (pr + r * p))
        by (nonlinear_arith)
        requires
            pres + cin * p == pl + pr,
            l + r + cin == limb + cout * 0x10000000000000000,
    ;
}

/// Ordering consistency: what the comparison returns is the order of the
/// denoted values, so the relation is total and transitive, a verdict of
/// less reverses to greater under swapped operands, and a verdict of
/// equal coincides with equality — which is equality of the values, the
/// two sign variants of zero included.
pub proof fn lemma_order_consistent(a: BigInt, b: BigInt, c: BigInt)
    ensures
        a.partial_cmp_spec(&b) == Some(ord_of(big_val(a), big_val(b))),
        a.partial_cmp_spec(&b) == Some(Ordering::Equal) <==> a.eq_spec(&b),
        a.partial_cmp_spec(&b) == Some(Ordering::Equal) <==> big_val(a) == big_val(b),
        a.partial_cmp_spec(&b) == Some(Ordering::Less) <==> big_val(a) < big_val(b),
        a.partial_cmp_spec(&b) == Some(Ordering::Greater) <==> big_val(a) > big_val(b),
        a.partial_cmp_spec(&b) == Some(Ordering::Less) <==> b.partial_cmp_spec(&a) == Some(
            Ordering::Greater,
        ),
        a.partial_cmp_spec(&b) == Some(Ordering::Less) && b.partial_cmp_spec(&c) == Some(
            Ordering::Less,
        ) ==> a.partial_cmp_spec(&c) == Some(Ordering::Less),
{
}

/// A single-limb sequence denotes its limb.
pub proof fn lemma_single_limb_val(s: Seq<u64>)
    requires
        s.len() == 1,
    ensures
        limbs_val(s) == s[0],
{
    assert(prefix_val(s, 1) == prefix_val(s, 0) + (limb_at(s, 0) as nat) * base_pow(0));
    assert((s[0] as nat) * 1 == s[0]) by (nonlinear_arith);
}

/// The base power is always positive.
pub proof fn lemma_base_pow_pos(n: int)
    ensures
        base_pow(n) >= 1,
    decreases n,
{
    if n > 0 {
        lemma_base_pow_pos(n - 1);
        assert(0x10000000000000000 * base_pow(n - 1) >= base_pow(n - 1)) by (nonlinear_arith)
            requires
                base_pow(n - 1) >= 0,
        ;
    }
}

/// Base powers multiply by adding exponents.
pub proof fn lemma_base_pow_add(m: int, n: int)
    requires
        m >= 0,
        n >= 0,
    ensures
        base_pow(m + n) == base_pow(m) * base_pow(n),
    decreases n,
{
    if n == 0 {
        assert(base_pow(m) * 1 == base_pow(m)) by (nonlinear_arith);
    } else {
        lemma_base_pow_add(m, n - 1);
        assert(0x10000000000000000 * (base_pow(m) * base_pow(n - 1)) == base_pow(m) * (
        0x10000000000000000 * base_pow(n - 1))) by (nonlinear_arith);
    }
}

/// Appending a limb leaves the value of every existing prefix unchanged.
pub proof fn lemma_prefix_val_push(s: Seq<u64>, x: u64)
    ensures
        forall|n: int| n <= s.len() ==> prefix_val(s.push(x), n) == prefix_val(s, n),
        prefix_val(s.push(x), s.len() as int + 1) == prefix_val(s, s.len() as int) + (x as nat)
            * base_pow(s.len() as int),
{
    assert forall|n: int| n <= s.len() implies prefix_val(s.push(x), n) == prefix_val(s, n) by {
        lemma_prefix_val_agree(s.push(x), s, n);
    }
    lemma_prefix_val_agree(s.push(x), s, s.len() as int);
    assert(limb_at(s.push(x), s.len() as int) == x);
}

/// Sequences that agree limb-by-limb below `n` have the same prefix value.
pub proof fn lemma_prefix_val_agree(s: Seq<u64>, t: Seq<u64>, n: int)
    requires
        forall|j: int| 0 <= j < n ==> limb_at(s, j) == limb_at(t, j),
    ensures
        prefix_val(s, n) == prefix_val(t, n),
    decreases n,
{
    if n > 0 {
        lemma_prefix_val_agree(s, t, n - 1);
    }
}

/// Reading past the end adds nothing: the prefix value at or beyond the
/// length is the value of the whole sequence.
pub proof fn lemma_prefix_val_beyond(s: Seq<u64>, n: int)
    requires
        n >= s.len(),
    ensures
        prefix_val(s, n) == limbs_val(s),
    decreases n,
{
    if n > s.len() {
        lemma_prefix_val_beyond(s, n - 1);
        assert(limb_at(s, n - 1) == 0);
    }
}

/// The value of `n` limbs is below the base to the `n`.
pub proof fn lemma_prefix_val_bound(s: Seq<u64>, n: int)
    ensures
        prefix_val(s, n) < base_pow(n),
    decreases n,
{
    if n <= 0 {
    } else {
        lemma_prefix_val_bound(s, n - 1);
        assert(prefix_val(s, n - 1) + limb_at(s, n - 1) * base_pow(n - 1) < 0x10000000000000000
            * base_pow(n - 1)) by (nonlinear_arith)
            requires
                prefix_val(s, n - 1) < base_pow(n - 1),
                0 <= limb_at(s, n - 1) < 0x10000000000000000,
                base_pow(n - 1) >= 0,
        ;
    }
}

} // verus!
