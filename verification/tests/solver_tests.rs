use polysolve::error::MathError;
use polysolve::polynomial::Polynomial;
use polysolve::rational::Rational;
use polysolve::solver::{integer_factors, solve_univariate_polynomial};

fn count_of(roots: &[Rational], value: Rational) -> usize {
    roots.iter().filter(|r| **r == value).count()
}

#[test]
fn linear_equation_has_single_root() {
    // 5x = 0
    let p = Polynomial::new(vec![(1, Rational::from(5))]);
    let roots = solve_univariate_polynomial(&p).unwrap();
    assert_eq!(roots.len(), 1);
    assert_eq!(roots[0], Rational::from(0));
}

#[test]
fn quadratic_with_two_roots() {
    // x^2 + 5x + 6 = 0 has roots -2 and -3
    let p = Polynomial::new(vec![
        (0, Rational::from(6)),
        (1, Rational::from(5)),
        (2, Rational::from(1)),
    ]);
    let roots = solve_univariate_polynomial(&p).unwrap();
    assert_eq!(roots.len(), 2);
    assert_eq!(count_of(&roots, Rational::from(-2)), 1);
    assert_eq!(count_of(&roots, Rational::from(-3)), 1);
}

#[test]
fn quadratic_with_negative_discriminant() {
    // x^2 + 5 = 0 has no real roots
    let p = Polynomial::new(vec![(0, Rational::from(5)), (2, Rational::from(1))]);
    let roots = solve_univariate_polynomial(&p).unwrap();
    assert_eq!(roots.len(), 0);
}

#[test]
fn cubic_with_multiplicities() {
    // x^3 + 5x^2 - 25x - 125 = (x + 5)^2 (x - 5)
    let p = Polynomial::new(vec![
        (0, Rational::from(-125)),
        (1, Rational::from(-25)),
        (2, Rational::from(5)),
        (3, Rational::from(1)),
    ]);
    let roots = solve_univariate_polynomial(&p).unwrap();
    assert_eq!(roots.len(), 3);
    assert_eq!(count_of(&roots, Rational::from(-5)), 2);
    assert_eq!(count_of(&roots, Rational::from(5)), 1);
}

#[test]
fn exact_root_extraction_scenarios() {
    assert_eq!(
        Rational::new(16, 4).unwrap().sqrt().unwrap(),
        Rational::new(2, 1).unwrap()
    );
    assert_eq!(
        Rational::new(8, 1).unwrap().cbrt().unwrap(),
        Rational::new(2, 1).unwrap()
    );
}

#[test]
fn quadratic_with_double_root() {
    // x^2 - 2x + 1 = (x - 1)^2: the zero-discriminant branch returns the
    // root once
    let p = Polynomial::new(vec![
        (0, Rational::from(1)),
        (1, Rational::from(-2)),
        (2, Rational::from(1)),
    ]);
    let roots = solve_univariate_polynomial(&p).unwrap();
    assert_eq!(roots.len(), 1);
    assert_eq!(roots[0], Rational::from(1));
}

#[test]
fn quadratic_with_irrational_roots() {
    // x^2 - 2 = 0: the real roots are irrational, which the exact model
    // cannot represent
    let p = Polynomial::new(vec![(0, Rational::from(-2)), (2, Rational::from(1))]);
    assert_eq!(
        solve_univariate_polynomial(&p),
        Err(MathError::IrrationalResult)
    );
}

#[test]
fn triple_root_cubic() {
    // x^3 - 9x^2 + 27x - 27 = (x - 3)^3
    let p = Polynomial::new(vec![
        (0, Rational::from(-27)),
        (1, Rational::from(27)),
        (2, Rational::from(-9)),
        (3, Rational::from(1)),
    ]);
    let roots = solve_univariate_polynomial(&p).unwrap();
    assert_eq!(roots.len(), 3);
    assert_eq!(count_of(&roots, Rational::from(3)), 3);
}

#[test]
fn quartic_with_quadruple_root() {
    // x^4 - 16x^3 + 96x^2 - 256x + 256 = (x - 4)^4
    let p = Polynomial::new(vec![
        (0, Rational::from(256)),
        (1, Rational::from(-256)),
        (2, Rational::from(96)),
        (3, Rational::from(-16)),
        (4, Rational::from(1)),
    ]);
    let roots = solve_univariate_polynomial(&p).unwrap();
    assert_eq!(roots.len(), 4);
    assert_eq!(count_of(&roots, Rational::from(4)), 4);
}

#[test]
fn fractional_roots_found_by_search() {
    // 2x^3 - 3x^2 - 3x + 2 = (x - 2)(2x - 1)(x + 1)
    let p = Polynomial::new(vec![
        (0, Rational::from(2)),
        (1, Rational::from(-3)),
        (2, Rational::from(-3)),
        (3, Rational::from(2)),
    ]);
    let roots = solve_univariate_polynomial(&p).unwrap();
    assert_eq!(roots.len(), 3);
    assert_eq!(count_of(&roots, Rational::from(2)), 1);
    assert_eq!(count_of(&roots, Rational::new(1, 2).unwrap()), 1);
    assert_eq!(count_of(&roots, Rational::from(-1)), 1);
}

#[test]
fn degree_zero_is_unsupported() {
    let p = Polynomial::new(vec![(0, Rational::from(7))]);
    assert_eq!(
        solve_univariate_polynomial(&p),
        Err(MathError::UnsupportedDegree)
    );
}

#[test]
fn non_integer_extremes_are_not_normalized() {
    let p = Polynomial::new(vec![
        (0, Rational::from(1)),
        (3, Rational::new(1, 2).unwrap()),
    ]);
    assert_eq!(
        solve_univariate_polynomial(&p),
        Err(MathError::NotNormalized)
    );
}

#[test]
fn degenerate_linear_equation_divides_by_zero() {
    // the exponent-one term is present with a zero coefficient
    let p = Polynomial::new(vec![(0, Rational::from(3)), (1, Rational::from(0))]);
    assert_eq!(
        solve_univariate_polynomial(&p),
        Err(MathError::DivisionByZero)
    );
}

#[test]
fn factor_enumeration() {
    let f = integer_factors(10);
    assert_eq!(f.len(), 8);
    for d in [1i64, -1, 2, -2, 5, -5, 10, -10] {
        assert!(f.contains(&d));
    }
    assert_eq!(integer_factors(0).len(), 0);
    let f = integer_factors(-7);
    assert_eq!(f.len(), 4);
    for d in [1i64, -1, 7, -7] {
        assert!(f.contains(&d));
    }
}

#[test]
fn factors_are_ordered_and_distinct() {
    let f = integer_factors(12);
    for i in 0..f.len() {
        for j in (i + 1)..f.len() {
            assert_ne!(f[i], f[j]);
            assert!(f[i].abs() <= f[j].abs());
        }
    }
}
