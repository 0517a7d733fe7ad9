use polysolve::polynomial::Polynomial;
use polysolve::rational::Rational;

#[test]
fn degree() {
    assert_eq!(
        Polynomial::new(vec![
            (0, Rational::from(1)),
            (1, Rational::from(2)),
            (2, Rational::from(3)),
        ])
        .degree(),
        2
    );

    assert_eq!(Polynomial::new(vec![(4, Rational::from(5))]).degree(), 4);
}

#[test]
fn eval() {
    assert_eq!(
        Polynomial::new(vec![
            (0, Rational::from(1)),
            (1, Rational::from(2)),
            (2, Rational::from(3)),
        ])
        .eval(Rational::from(2))
        .unwrap(),
        Rational::from(17)
    );

    assert_eq!(
        Polynomial::new(vec![
            (0, Rational::from(1)),
            (1, Rational::from(2)),
            (4, Rational::from(5)),
        ])
        .eval(Rational::from(0))
        .unwrap(),
        Rational::from(1)
    );
}

#[test]
fn diff() {
    assert_eq!(
        Polynomial::new(vec![
            (0, Rational::from(1)),
            (1, Rational::from(2)),
            (2, Rational::from(3)),
        ])
        .diff()
        .unwrap(),
        Polynomial::new(vec![(0, Rational::from(2)), (1, Rational::from(6))])
    );

    assert_eq!(
        Polynomial::new(vec![
            (0, Rational::from(1)),
            (2, Rational::from(-5)),
            (3, Rational::from(69)),
        ])
        .diff()
        .unwrap(),
        Polynomial::new(vec![
            (1, Rational::from(-5 * 2)),
            (2, Rational::from(69 * 3)),
        ])
    );
}

#[test]
fn absent_exponents_read_as_zero() {
    let p = Polynomial::new(vec![(0, Rational::from(1)), (3, Rational::from(4))]);
    assert_eq!(p.get(1), Rational::from(0));
    assert_eq!(p.get(7), Rational::from(0));
    assert_eq!(p.get(3), Rational::from(4));
}

#[test]
fn constant_derives_to_zero_polynomial() {
    let p = Polynomial::new(vec![(0, Rational::from(9))]);
    let d = p.diff().unwrap();
    assert_eq!(d.degree(), 0);
    assert_eq!(d.get(0), Rational::from(0));
}

#[test]
fn derivative_of_monomial() {
    // the derivative of c * x^n carries c * n at exponent n - 1
    let c = Rational::new(5, 2).unwrap();
    let p = Polynomial::new(vec![(3, c)]);
    let d = p.diff().unwrap();
    assert_eq!(d.degree(), 2);
    assert_eq!(d.get(2), Rational::new(15, 2).unwrap());
}

#[test]
fn derivative_is_linear_coefficient_wise() {
    let p = Polynomial::new(vec![
        (1, Rational::new(1, 2).unwrap()),
        (2, Rational::new(1, 3).unwrap()),
    ]);
    let q = Polynomial::new(vec![
        (1, Rational::new(1, 3).unwrap()),
        (2, Rational::new(1, 6).unwrap()),
    ]);
    // the coefficient-wise sum of p and q
    let sum = Polynomial::new(vec![
        (1, Rational::new(5, 6).unwrap()),
        (2, Rational::new(1, 2).unwrap()),
    ]);
    let dp = p.diff().unwrap();
    let dq = q.diff().unwrap();
    let dsum = sum.diff().unwrap();
    for e in 0..=1u32 {
        assert_eq!(dsum.get(e), dp.get(e).add(&dq.get(e)).unwrap());
    }
}

#[test]
fn evaluation_at_fractional_point() {
    // 4x^2 - 1 at x = 1/2 is exactly zero
    let p = Polynomial::new(vec![(0, Rational::from(-1)), (2, Rational::from(4))]);
    assert_eq!(
        p.eval(Rational::new(1, 2).unwrap()).unwrap(),
        Rational::from(0)
    );
}
