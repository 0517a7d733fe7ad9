//! Parsing of human-readable polynomial equations.
//!
//! The grammar is a sequence of terms over the variable `x`: an optional
//! integer coefficient, an optional `x` with an optional caret exponent,
//! joined by signs, with an optional `=` that moves every following term
//! to the left-hand side with its sign flipped. Every distinct power of
//! `x` is accumulated into one coefficient. The contracts mirror the scan
//! exactly: the token list and the accumulated coefficient mapping are
//! specified byte by byte and token by token.

use vstd::prelude::*;
use vstd::map::*;
use vstd::string::StringSliceAdditionalSpecFns;
use crate::rational::{Rational, Frac, frac_int, frac_add, lemma_canon_identity};
use crate::polynomial::{Polynomial, rat_add_checked, keys_distinct, coeffs_wf,
    lemma_poly_coeff_found};
use crate::error::MathError;

verus! {

/// One lexical element of an equation: an integer literal, a single
/// operator byte, or the variable symbol `x`.
#[derive(Clone, Copy, Debug, PartialEq, Eq, Structural)]
pub enum Token {
    Number(i64),
    Operator(u8),
    Symbol,
}

/// The byte is an ASCII decimal digit.
pub open spec fn is_digit(b: u8) -> bool {
    0x30 <= b <= 0x39
}

/// The byte is one of the operator characters `+ - * / ^ =`.
pub open spec fn is_operator(b: u8) -> bool {
    b == 0x2b || b == 0x2d || b == 0x2a || b == 0x2f || b == 0x5e || b == 0x3d
}

/// The position right after the run of digits starting at `i`.
pub open spec fn number_end(s: Seq<u8>, i: int) -> int
    decreases s.len() - i,
    when 0 <= i <= s.len()
{
    if i < s.len() && is_digit(s[i]) {
        number_end(s, i + 1)
    } else {
        i
    }
}

/// The value of the digit run starting at `i`, folded onto `acc` in
/// base ten.
pub open spec fn number_value(s: Seq<u8>, i: int, acc: int) -> int
    decreases s.len() - i,
    when 0 <= i <= s.len()
{
    if i < s.len() && is_digit(s[i]) {
        number_value(s, i + 1, acc * 10 + (s[i] - 0x30))
    } else {
        acc
    }
}

/// The run of digits ends within the sequence, beyond its start.
pub proof fn lemma_number_end_bounds(s: Seq<u8>, i: int)
    requires
        0 <= i <= s.len(),
    ensures
        i <= number_end(s, i) <= s.len(),
        i < s.len() && is_digit(s[i]) ==> number_end(s, i) > i,
    decreases s.len() - i,
{
    if i < s.len() && is_digit(s[i]) {
        lemma_number_end_bounds(s, i + 1);
    }
}

/// Folding digits never decreases a non-negative accumulator.
pub proof fn lemma_number_value_lower(s: Seq<u8>, i: int, acc: int)
    requires
        0 <= i <= s.len(),
        acc >= 0,
    ensures
        number_value(s, i, acc) >= acc,
    decreases s.len() - i,
{
    if i < s.len() && is_digit(s[i]) {
        assert(acc * 10 >= acc) by (nonlinear_arith)
            requires
                acc >= 0,
        ;
        lemma_number_value_lower(s, i + 1, acc * 10 + (s[i] - 0x30));
    }
}

/// The token list read from position `i` on: nothing when an integer
/// literal exceeds the 64-bit range.
pub open spec fn spec_tokenize(s: Seq<u8>, i: int) -> Option<Seq<Token>>
    decreases s.len() - i,
    when 0 <= i <= s.len()
    via spec_tokenize_decreases
{
    if i >= s.len() {
        Some(Seq::empty())
    } else if is_digit(s[i]) {
        if number_value(s, i, 0) > i64::MAX as int {
            None
        } else {
            match spec_tokenize(s, number_end(s, i)) {
                Option::None => Option::None,
                Option::Some(rest) => Some(
                    seq![Token::Number(number_value(s, i, 0) as i64)] + rest,
                ),
            }
        }
    } else {
        match spec_tokenize(s, i + 1) {
            Option::None => Option::None,
            Option::Some(rest) => {
                if is_operator(s[i]) {
                    Some(seq![Token::Operator(s[i])] + rest)
                } else if s[i] == 0x78 {
                    Some(seq![Token::Symbol] + rest)
                } else {
                    // a space, or a byte outside the grammar, is skipped
                    Some(rest)
                }
            },
        }
    }
}

#[via_fn]
proof fn spec_tokenize_decreases(s: Seq<u8>, i: int) {
    if 0 <= i < s.len() && is_digit(s[i]) {
        lemma_number_end_bounds(s, i);
    }
}

/// The token carries no negative literal.
pub open spec fn token_nonneg(t: Token) -> bool {
    match t {
        Token::Number(v) => v >= 0,
        _ => true,
    }
}

/// Every integer literal the scan produces is non-negative.
pub proof fn lemma_tokens_nonneg(s: Seq<u8>, i: int)
    requires
        0 <= i <= s.len(),
        spec_tokenize(s, i) is Some,
    ensures
        forall|j: int|
            0 <= j < spec_tokenize(s, i)->Some_0.len() ==> #[trigger] token_nonneg(
                spec_tokenize(s, i)->Some_0[j],
            ),
    decreases s.len() - i,
{
    if i >= s.len() {
    } else if is_digit(s[i]) {
        lemma_number_end_bounds(s, i);
        lemma_number_value_lower(s, i, 0);
        lemma_tokens_nonneg(s, number_end(s, i));
    } else {
        lemma_tokens_nonneg(s, i + 1);
    }
}

/// A token list waiting behind an already-scanned prefix.
pub open spec fn with_prefix(pre: Seq<Token>, rest: Option<Seq<Token>>) -> Option<Seq<Token>> {
    match rest {
        Option::None => Option::None,
        Option::Some(r) => Some(pre + r),
    }
}

/// Scan an equation into tokens: digit runs become integer literals,
/// operator characters and the variable symbol become their tokens, and
/// any other byte is skipped. Fails exactly when an integer literal does
/// not fit 64 bits.
pub fn tokenize(input: &str) -> (r: Result<Vec<Token>, MathError>)
    ensures
        r matches Ok(ts) ==> spec_tokenize(input.spec_bytes(), 0) == Some(ts@),
        r is Ok <==> spec_tokenize(input.spec_bytes(), 0) is Some,
        r is Err ==> r == Err::<Vec<Token>, MathError>(MathError::Overflow),
{
    let bytes = input.as_bytes();
    let ghost s = input.spec_bytes();
    let n = bytes.len();
    let mut tokens: Vec<Token> = Vec::new();
    let mut i: usize = 0;
    while i < n
        invariant
            s == input.spec_bytes(),
            bytes@ == s,
            n == s.len(),
            i <= n,
            spec_tokenize(s, 0) == with_prefix(tokens@, spec_tokenize(s, i as int)),
        decreases n - i,
    {
        let b = bytes[i];
        if 0x30 <= b && b <= 0x39 {
            let ghost i0 = i as int;
            let mut acc: i64 = 0;
            while i < n && 0x30 <= bytes[i] && bytes[i] <= 0x39
                invariant
                    s == input.spec_bytes(),
                    bytes@ == s,
                    n == s.len(),
                    0 <= i0 <= i <= n,
                    i0 < n,
                    is_digit(s[i0]),
                    0 <= acc,
                    number_value(s, i0, 0) == number_value(s, i as int, acc as int),
                    number_end(s, i0) == number_end(s, i as int),
                    spec_tokenize(s, 0) == with_prefix(tokens@, spec_tokenize(s, i0)),
                decreases n - i,
            {
                let d = bytes[i] - 0x30;
                let next = match acc.checked_mul(10) {
                    Some(t) => t.checked_add(d as i64),
                    None => None,
                };
                match next {
                    Some(v) => {
                        acc = v;
                    },
                    None => {
                        proof {
                            assert(acc as int * 10 + (s[i as int] - 0x30) > i64::MAX as int);
                            lemma_number_value_lower(
                                s,
                                i as int + 1,
                                acc as int * 10 + (s[i as int] - 0x30),
                            );
                            assert(number_value(s, i as int, acc as int) == number_value(
                                s,
                                i as int + 1,
                                acc as int * 10 + (s[i as int] - 0x30),
                            ));
                            assert(number_value(s, i0, 0) > i64::MAX as int);
                            assert(spec_tokenize(s, i0) is None);
                        }
                        return Err(MathError::Overflow);
                    },
                }
                i = i + 1;
            }
            proof {
                assert(number_end(s, i as int) == i as int);
                assert(number_value(s, i as int, acc as int) == acc as int);
                assert(spec_tokenize(s, i0) == (match spec_tokenize(s, i as int) {
                    Option::None => Option::None::<Seq<Token>>,
                    Option::Some(rest) => Some(seq![Token::Number(acc)] + rest),
                }));
                lemma_with_prefix_push(tokens@, Token::Number(acc), spec_tokenize(s, i as int));
            }
            tokens.push(Token::Number(acc));
        } else {
            proof {
                if is_operator(b) {
                    lemma_with_prefix_push(tokens@, Token::Operator(b), spec_tokenize(s, i as int + 1));
                } else if b == 0x78 {
                    lemma_with_prefix_push(tokens@, Token::Symbol, spec_tokenize(s, i as int + 1));
                }
            }
            match b {
                0x2b | 0x2d | 0x2a | 0x2f | 0x5e | 0x3d => tokens.push(Token::Operator(b)),
                0x78 => tokens.push(Token::Symbol),
                _ => (),
            }
            i = i + 1;
        }
    }
    proof {
        assert(spec_tokenize(s, n as int) == Some(Seq::<Token>::empty()));
        assert(tokens@ + Seq::<Token>::empty() =~= tokens@);
    }
    Ok(tokens)
}

/// Composing a prefix then one more token is composing the longer prefix.
proof fn lemma_with_prefix_push(pre: Seq<Token>, t: Token, rest: Option<Seq<Token>>)
    ensures
        with_prefix(pre, (match rest {
            Option::None => Option::None::<Seq<Token>>,
            Option::Some(r) => Some(seq![t] + r),
        })) == with_prefix(pre.push(t), rest),
{
    if rest is Some {
        assert(pre + (seq![t] + rest->Some_0) =~= pre.push(t) + rest->Some_0);
    }
}

/// The exponent of a term at position `i`: two positions ahead when a
/// caret with a non-negative integer that fits 32 bits follows, one by
/// default; nothing on a malformed exponent.
pub open spec fn spec_exponent(ts: Seq<Token>, i: int) -> Option<(u32, int)> {
    if i < ts.len() && ts[i] == Token::Operator(0x5e) {
        if i + 1 < ts.len() {
            match ts[i + 1] {
                Token::Number(v) => if 0 <= v <= u32::MAX {
                    Some((v as u32, i + 2))
                } else {
                    Option::None
                },
                _ => Option::None,
            }
        } else {
            Option::None
        }
    } else {
        Some((1u32, i))
    }
}

/// The coefficient mapping accumulated from the tokens at position `i`
/// on, given the pending sign, whether an equals sign has been passed,
/// and the mapping built so far; nothing on a malformed exponent or an
/// accumulation that leaves 64-bit range.
pub open spec fn spec_parse(
    ts: Seq<Token>,
    i: int,
    sign: int,
    eq_seen: bool,
    m: Map<u32, Frac>,
) -> Result<Map<u32, Frac>, MathError>
    decreases ts.len() - i,
    when 0 <= i
    via spec_parse_decreases
{
    if i >= ts.len() {
        Ok(m)
    } else {
        match ts[i] {
            Token::Number(v) => {
                let coeff = Frac {
                    num: v * sign * (if eq_seen {
                        -1int
                    } else {
                        1int
                    }),
                    den: 1,
                };
                if i + 1 < ts.len() && ts[i + 1] == Token::Symbol {
                    match spec_exponent(ts, i + 2) {
                        Option::None => Err(MathError::NonNegativeExponentRequired),
                        Option::Some((e, j)) => match spec_upsert(m, e, coeff) {
                            Option::None => Err(MathError::Overflow),
                            Option::Some(m2) => spec_parse(ts, j, 1, eq_seen, m2),
                        },
                    }
                } else {
                    match spec_upsert(m, 0, coeff) {
                        Option::None => Err(MathError::Overflow),
                        Option::Some(m2) => spec_parse(ts, i + 1, 1, eq_seen, m2),
                    }
                }
            },
            Token::Symbol => {
                let coeff = Frac {
                    num: sign * (if eq_seen {
                        -1int
                    } else {
                        1int
                    }),
                    den: 1,
                };
                match spec_exponent(ts, i + 1) {
                    Option::None => Err(MathError::NonNegativeExponentRequired),
                    Option::Some((e, j)) => match spec_upsert(m, e, coeff) {
                        Option::None => Err(MathError::Overflow),
                        Option::Some(m2) => spec_parse(ts, j, 1, eq_seen, m2),
                    },
                }
            },
            Token::Operator(b) => {
                if b == 0x2d {
                    spec_parse(ts, i + 1, -sign, eq_seen, m)
                } else if b == 0x3d {
                    spec_parse(ts, i + 1, sign, true, m)
                } else {
                    spec_parse(ts, i + 1, sign, eq_seen, m)
                }
            },
        }
    }
}

#[via_fn]
proof fn spec_parse_decreases(ts: Seq<Token>, i: int, sign: int, eq_seen: bool, m: Map<u32, Frac>) {
}

/// Add a term's coefficient onto the mapping: the new value at the
/// exponent is the checked sum of the present value (zero when absent)
/// and the coefficient.
pub open spec fn spec_upsert(m: Map<u32, Frac>, e: u32, c: Frac) -> Option<Map<u32, Frac>> {
    let cur = if m.dom().contains(e) {
        m[e]
    } else {
        frac_int(0)
    };
    match rat_add_checked(cur, c) {
        Option::None => Option::None,
        Option::Some(v) => Some(m.insert(e, v)),
    }
}

/// The pair list stores exactly the mapping: every pair is in the
/// mapping, and every mapped exponent has a pair.
pub open spec fn pairs_match_map(ps: Seq<(u32, Rational)>, m: Map<u32, Frac>) -> bool {
    &&& forall|j: int|
        0 <= j < ps.len() ==> m.dom().contains((#[trigger] ps[j]).0) && ps[j].1@ == m[ps[j].0]
    &&& forall|e: u32|
        m.dom().contains(e) ==> exists|j: int| 0 <= j < ps.len() && (#[trigger] ps[j]).0 == e
}

/// The parse result agrees with the accumulated mapping: a polynomial
/// storing exactly the mapping when it maps anything, and a failure when
/// it is empty.
pub open spec fn parse_result_matches(r: Result<Polynomial, MathError>, m: Map<u32, Frac>) -> bool {
    &&& (r is Ok <==> exists|e: u32| m.dom().contains(e))
    &&& (r matches Ok(p) ==> p.wf() && pairs_match_map(p.coeffs@, m))
    &&& (!(exists|e: u32| m.dom().contains(e)) ==> r == Err::<Polynomial, MathError>(
        MathError::UnsupportedDegree,
    ))
}

/// Parse an equation into a polynomial: tokenize, accumulate every
/// distinct power of the variable into one coefficient (right-hand-side
/// terms sign-flipped across `=`), and build the polynomial from the
/// finalized mapping. An input with no terms has no polynomial.
#[verifier::rlimit(30)]
pub fn parse_polynomial_expr(input: &str) -> (r: Result<Polynomial, MathError>)
    ensures
        spec_tokenize(input.spec_bytes(), 0) is None ==> r == Err::<Polynomial, MathError>(
            MathError::Overflow,
        ),
        spec_tokenize(input.spec_bytes(), 0) is Some && spec_parse(
            spec_tokenize(input.spec_bytes(), 0)->Some_0,
            0,
            1,
            false,
            Map::empty(),
        ) is Err ==> r == Err::<Polynomial, MathError>(
            spec_parse(
                spec_tokenize(input.spec_bytes(), 0)->Some_0,
                0,
                1,
                false,
                Map::empty(),
            )->Err_0,
        ),
        spec_tokenize(input.spec_bytes(), 0) is Some && spec_parse(
            spec_tokenize(input.spec_bytes(), 0)->Some_0,
            0,
            1,
            false,
            Map::empty(),
        ) is Ok ==> parse_result_matches(
            r,
            spec_parse(spec_tokenize(input.spec_bytes(), 0)->Some_0, 0, 1, false, Map::empty())->Ok_0,
        ),
{
    let tokens = match tokenize(input) {
        Ok(ts) => ts,
        Err(e) => {
            return Err(e);
        },
    };
    let ghost ts = tokens@;
    proof {
        lemma_tokens_nonneg(input.spec_bytes(), 0);
    }
    let mut coeffs: Vec<(u32, Rational)> = Vec::new();
    let mut gm: Ghost<Map<u32, Frac>> = Ghost(Map::empty());
    let mut i: usize = 0;
    let mut sign: i64 = 1;
    let mut equals_seen: bool = false;
    while i < tokens.len()
        invariant
            ts == tokens@,
            spec_tokenize(input.spec_bytes(), 0) == Some(ts),
            i <= ts.len(),
            sign == 1 || sign == -1,
            forall|j: int| 0 <= j < ts.len() ==> #[trigger] token_nonneg(ts[j]),
            keys_distinct(coeffs@),
            coeffs_wf(coeffs@),
            pairs_match_map(coeffs@, gm@),
            spec_parse(ts, 0, 1, false, Map::empty()) == spec_parse(
                ts,
                i as int,
                sign as int,
                equals_seen,
                gm@,
            ),
        decreases ts.len() - i,
    {
        let ghost iold = i as int;
        let ghost sgn = sign as int;
        let ghost m_old = gm@;
        let ghost eq_old = equals_seen;
        match tokens[i] {
            Token::Number(v) => {
                proof {
                    assert(token_nonneg(ts[iold]));
                }
                let fl: i64 = if equals_seen {
                    -1
                } else {
                    1
                };
                let sf: i64 = sign * fl;
                let cv: i64 = if sf < 0 {
                    -v
                } else {
                    v
                };
                proof {
                    assert(cv as int == (v as int) * (sign as int) * (fl as int))
                        by (nonlinear_arith)
                        requires
                            sign == 1 || sign == -1,
                            fl == 1 || fl == -1,
                            sf == sign * fl,
                            v >= 0,
                            (sf < 0 ==> cv == -(v as int)) && (sf >= 0 ==> cv == v as int),
                    ;
                }
                let coeff = Rational::from_int(cv);
                let ghost cfrac = Frac {
                    num: (v as int) * sgn * (if equals_seen {
                        -1int
                    } else {
                        1int
                    }),
                    den: 1,
                };
                proof {
                    assert(coeff@ == cfrac);
                    assert(coeff.wf());
                }
                if i + 1 < tokens.len() && tokens[i + 1] == Token::Symbol {
                    let (e, j) = match parse_exponent(&tokens, i + 2) {
                        Ok(p) => p,
                        Err(er) => {
                            proof {
                                assert(spec_parse(ts, iold, sgn, equals_seen, m_old) == Err::<
                                    Map<u32, Frac>,
                                    MathError,
                                >(er));
                            }
                            return Err(er);
                        },
                    };
                    match upsert_coeff(&mut coeffs, e, coeff, gm) {
                        Ok(g2) => {
                            gm = g2;
                        },
                        Err(er) => {
                            proof {
                                assert(spec_upsert(m_old, e, cfrac) is None);
                                assert(spec_parse(ts, iold, sgn, equals_seen, m_old) == Err::<
                                    Map<u32, Frac>,
                                    MathError,
                                >(er));
                            }
                            return Err(er);
                        },
                    }
                    i = j;
                    sign = 1;
                    proof {
                        assert(spec_parse(ts, iold, sgn, equals_seen, m_old) == spec_parse(
                            ts,
                            i as int,
                            1,
                            equals_seen,
                            gm@,
                        ));
                    }
                } else {
                    match upsert_coeff(&mut coeffs, 0, coeff, gm) {
                        Ok(g2) => {
                            gm = g2;
                        },
                        Err(er) => {
                            proof {
                                assert(spec_upsert(m_old, 0, cfrac) is None);
                                assert(spec_parse(ts, iold, sgn, equals_seen, m_old) == Err::<
                                    Map<u32, Frac>,
                                    MathError,
                                >(er));
                            }
                            return Err(er);
                        },
                    }
                    i = i + 1;
                    sign = 1;
                    proof {
                        assert(spec_parse(ts, iold, sgn, equals_seen, m_old) == spec_parse(
                            ts,
                            i as int,
                            1,
                            equals_seen,
                            gm@,
                        ));
                    }
                }
            },
            Token::Symbol => {
                let fl: i64 = if equals_seen {
                    -1
                } else {
                    1
                };
                let cv: i64 = sign * fl;
                proof {
                    assert(cv as int == sgn * (if equals_seen {
                        -1int
                    } else {
                        1int
                    }));
                }
                let coeff = Rational::from_int(cv);
                let ghost cfrac = Frac {
                    num: sgn * (if equals_seen {
                        -1int
                    } else {
                        1int
                    }),
                    den: 1,
                };
                proof {
                    assert(coeff@ == cfrac);
                    assert(coeff.wf());
                }
                let (e, j) = match parse_exponent(&tokens, i + 1) {
                    Ok(p) => p,
                    Err(er) => {
                        proof {
                            assert(spec_parse(ts, iold, sgn, equals_seen, m_old) == Err::<
                                Map<u32, Frac>,
                                MathError,
                            >(er));
                        }
                        return Err(er);
                    },
                };
                match upsert_coeff(&mut coeffs, e, coeff, gm) {
                    Ok(g2) => {
                        gm = g2;
                    },
                    Err(er) => {
                        proof {
                            assert(spec_upsert(m_old, e, cfrac) is None);
                            assert(spec_parse(ts, iold, sgn, equals_seen, m_old) == Err::<
                                Map<u32, Frac>,
                                MathError,
                            >(er));
                        }
                        return Err(er);
                    },
                }
                i = j;
                sign = 1;
                proof {
                    assert(spec_parse(ts, iold, sgn, equals_seen, m_old) == spec_parse(
                        ts,
                        i as int,
                        1,
                        equals_seen,
                        gm@,
                    ));
                }
            },
            Token::Operator(b) => {
                if b == 0x2d {
                    sign = -sign;
                } else if b == 0x3d {
                    equals_seen = true;
                }
                i = i + 1;
                proof {
                    assert(spec_parse(ts, iold, sgn, eq_old, m_old) == spec_parse(
                        ts,
                        i as int,
                        sign as int,
                        equals_seen,
                        gm@,
                    ));
                }
            },
        }
    }
    proof {
        assert(spec_parse(ts, i as int, sign as int, equals_seen, gm@) == Ok::<Map<u32, Frac>, MathError>(gm@));
    }
    if coeffs.len() == 0 {
        // an input without terms yields no polynomial
        proof {
            assert(spec_tokenize(input.spec_bytes(), 0) == Some(ts));
            assert(spec_parse(ts, 0, 1, false, Map::empty()) == Ok::<Map<u32, Frac>, MathError>(gm@));
            assert forall|e: u32| !gm@.dom().contains(e) by {
                if gm@.dom().contains(e) {
                    let j = choose|j: int|
                        0 <= j < coeffs@.len() && (#[trigger] coeffs@[j]).0 == e;
                }
            }
            assert(!(exists|e: u32| gm@.dom().contains(e)));
            assert(parse_result_matches(
                Err::<Polynomial, MathError>(MathError::UnsupportedDegree),
                gm@,
            ));
        }
        return Err(MathError::UnsupportedDegree);
    }
    proof {
        assert(spec_tokenize(input.spec_bytes(), 0) == Some(ts));
        assert(spec_parse(ts, 0, 1, false, Map::empty()) == Ok::<Map<u32, Frac>, MathError>(gm@));
        assert(gm@.dom().contains(coeffs@[0].0));
        assert(exists|e: u32| gm@.dom().contains(e));
    }
    let result = Polynomial::new(coeffs);
    proof {
        assert(parse_result_matches(Ok(result), gm@));
    }
    Ok(result)
}


/// Read the exponent of a term: a caret must be followed by an integer
/// that is non-negative and fits 32 bits; with no caret the exponent is
/// one.
fn parse_exponent(tokens: &Vec<Token>, i: usize) -> (r: Result<(u32, usize), MathError>)
    requires
        i <= tokens@.len(),
    ensures
        r matches Ok(p) ==> spec_exponent(tokens@, i as int) == Some((p.0, p.1 as int)) && i
            <= p.1 <= tokens@.len(),
        r is Err <==> spec_exponent(tokens@, i as int) is None,
        r is Err ==> r == Err::<(u32, usize), MathError>(MathError::NonNegativeExponentRequired),
{
    if i < tokens.len() && tokens[i] == Token::Operator(0x5e) {
        if i + 1 < tokens.len() {
            match tokens[i + 1] {
                Token::Number(v) => {
                    if 0 <= v && v <= u32::MAX as i64 {
                        Ok((v as u32, i + 2))
                    } else {
                        Err(MathError::NonNegativeExponentRequired)
                    }
                },
                _ => Err(MathError::NonNegativeExponentRequired),
            }
        } else {
            Err(MathError::NonNegativeExponentRequired)
        }
    } else {
        Ok((1, i))
    }
}

/// Accumulate a coefficient onto the exponent's entry, creating it from
/// zero where absent; the stored pair list keeps matching the mapping.
fn upsert_coeff(
    coeffs: &mut Vec<(u32, Rational)>,
    e: u32,
    c: Rational,
    gm: Ghost<Map<u32, Frac>>,
) -> (r: Result<Ghost<Map<u32, Frac>>, MathError>)
    requires
        keys_distinct(old(coeffs)@),
        coeffs_wf(old(coeffs)@),
        pairs_match_map(old(coeffs)@, gm@),
        c.wf(),
    ensures
        r matches Ok(g2) ==> spec_upsert(gm@, e, c@) == Some(g2@) && keys_distinct(
            final(coeffs)@,
        ) && coeffs_wf(final(coeffs)@) && pairs_match_map(final(coeffs)@, g2@),
        r is Err <==> spec_upsert(gm@, e, c@) is None,
        r is Err ==> r == Err::<Ghost<Map<u32, Frac>>, MathError>(MathError::Overflow),
{
    let ghost m = gm@;
    let mut idx: usize = 0;
    while idx < coeffs.len()
        invariant
            coeffs@ == old(coeffs)@,
            m == gm@,
            idx <= coeffs@.len(),
            keys_distinct(coeffs@),
            coeffs_wf(coeffs@),
            pairs_match_map(coeffs@, m),
            c.wf(),
            forall|j: int| 0 <= j < idx ==> (#[trigger] coeffs@[j].0) != e,
        decreases coeffs@.len() - idx,
    {
        if coeffs[idx].0 == e {
            let cur = coeffs[idx].1;
            proof {
                lemma_poly_coeff_found(coeffs@, e as int, idx as int);
                assert(m.dom().contains(e) && cur@ == m[e]);
            }
            let nv = match cur.add(&c) {
                Ok(nv) => nv,
                Err(_) => {
                    proof {
                        assert(spec_upsert(m, e, c@) is None);
                    }
                    return Err(MathError::Overflow);
                },
            };
            let ghost m2 = m.insert(e, nv@);
            proof {
                assert(spec_upsert(m, e, c@) == Some(m2));
            }
            coeffs.set(idx, (e, nv));
            proof {
                assert forall|j: int|
                    0 <= j < coeffs@.len() implies m2.dom().contains((#[trigger] coeffs@[j]).0)
                    && coeffs@[j].1@ == m2[coeffs@[j].0] by {
                    if j != idx {
                        assert(coeffs@[j] == old(coeffs)@[j]);
                        assert(coeffs@[j].0 != e);
                    }
                }
                assert forall|e2: u32| m2.dom().contains(e2) implies exists|j: int|
                    0 <= j < coeffs@.len() && (#[trigger] coeffs@[j]).0 == e2 by {
                    if e2 == e {
                        assert(coeffs@[idx as int].0 == e2);
                    } else {
                        let j = choose|j: int|
                            0 <= j < old(coeffs)@.len() && (#[trigger] old(coeffs)@[j]).0 == e2;
                        assert(coeffs@[j].0 == e2);
                    }
                }
            }
            proof {
                assert forall|j: int| 0 <= j < coeffs@.len() implies (#[trigger] coeffs@[j]).0
                    == old(coeffs)@[j].0 by {
                    if j != idx {
                        assert(coeffs@[j] == old(coeffs)@[j]);
                    }
                }
                assert(keys_distinct(coeffs@));
                assert forall|j: int| 0 <= j < coeffs@.len() implies (#[trigger] coeffs@[j].1).wf()
                    by {
                    if j != idx {
                        assert(coeffs@[j] == old(coeffs)@[j]);
                        assert(old(coeffs)@[j].1.wf());
                    } else {
                        assert(coeffs@[j].1 == nv);
                    }
                }
                assert(coeffs_wf(coeffs@));
            }
            return Ok(Ghost(m2));
        }
        idx = idx + 1;
    }
    // the exponent is absent: its present value is zero, and zero plus the
    // coefficient is the coefficient itself
    proof {
        if m.dom().contains(e) {
            let j = choose|j: int| 0 <= j < coeffs@.len() && (#[trigger] coeffs@[j]).0 == e;
            assert(false);
        }
        assert(frac_add(frac_int(0), c@).num == c@.num) by {
            assert(0int * c@.den + 1 * c@.num == c@.num) by (nonlinear_arith);
        }
        assert(frac_add(frac_int(0), c@).den == c@.den) by {
            assert(1int * c@.den == c@.den) by (nonlinear_arith);
        }
        assert(frac_add(frac_int(0), c@) == c@);
        lemma_canon_identity(c@);
        crate::rational::lemma_view_bounds(c);
        assert(rat_add_checked(frac_int(0), c@) == Some(c@));
    }
    let ghost m2 = m.insert(e, c@);
    coeffs.push((e, c));
    proof {
        assert forall|e2: u32| m2.dom().contains(e2) implies exists|j: int|
            0 <= j < coeffs@.len() && (#[trigger] coeffs@[j]).0 == e2 by {
            if e2 == e {
                assert(coeffs@[coeffs@.len() - 1].0 == e2);
            } else {
                let j = choose|j: int|
                    0 <= j < old(coeffs)@.len() && (#[trigger] old(coeffs)@[j]).0 == e2;
                assert(coeffs@[j].0 == e2);
            }
        }
    }
    Ok(Ghost(m2))
}

} // verus!
