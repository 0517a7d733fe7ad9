use polysolve::error::MathError;
use polysolve::parser::parse_polynomial_expr;
use polysolve::polynomial::Polynomial;
use polysolve::rational::Rational;
use polysolve::solver::solve_univariate_polynomial;

#[test]
fn parses_quadratic_equation() {
    let p = parse_polynomial_expr("x^2 + 5x + 6 = 0").unwrap();
    assert_eq!(
        p,
        Polynomial::new(vec![
            (0, Rational::from(6)),
            (1, Rational::from(5)),
            (2, Rational::from(1)),
        ])
    );
}

#[test]
fn parses_linear_equation() {
    let p = parse_polynomial_expr("5x = 0").unwrap();
    assert_eq!(p.degree(), 1);
    assert_eq!(p.get(1), Rational::from(5));
    assert_eq!(p.get(0), Rational::from(0));
}

#[test]
fn accumulates_and_moves_terms_across_equals() {
    // x^2 - 3x - 5x = x^2 + 2x + 3 collapses to -10x - 3 = 0
    let p = parse_polynomial_expr("x^2 - 3x - 5x = x^2 + 2x + 3").unwrap();
    assert_eq!(p.get(2), Rational::from(0));
    assert_eq!(p.get(1), Rational::from(-10));
    assert_eq!(p.get(0), Rational::from(-3));
}

#[test]
fn parsed_cubic_solves_end_to_end() {
    let p = parse_polynomial_expr("x^3 + 5x^2 - 25x - 125 = 0").unwrap();
    let roots = solve_univariate_polynomial(&p).unwrap();
    assert_eq!(roots.len(), 3);
    assert_eq!(
        roots.iter().filter(|r| **r == Rational::from(-5)).count(),
        2
    );
    assert_eq!(roots.iter().filter(|r| **r == Rational::from(5)).count(), 1);
}

#[test]
fn empty_input_has_no_polynomial() {
    assert_eq!(
        parse_polynomial_expr(""),
        Err(MathError::UnsupportedDegree)
    );
}

#[test]
fn malformed_exponent_is_rejected() {
    assert_eq!(
        parse_polynomial_expr("x^ - 2"),
        Err(MathError::NonNegativeExponentRequired)
    );
    assert_eq!(
        parse_polynomial_expr("x^"),
        Err(MathError::NonNegativeExponentRequired)
    );
}

#[test]
fn oversized_literal_is_rejected() {
    assert_eq!(
        parse_polynomial_expr("99999999999999999999x = 0"),
        Err(MathError::Overflow)
    );
}
