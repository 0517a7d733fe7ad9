use polysolve::error::MathError;
use polysolve::rational::Rational;

#[test]
fn new_rationals_are_canonicalized() {
    assert_eq!(Rational::new(16, 4).unwrap(), Rational::from(4));
    assert_eq!(Rational::new(8, -2).unwrap(), Rational::from(-4));
    assert_eq!(Rational::new(-32, 8).unwrap(), Rational::from(-4));
    assert_eq!(Rational::new(-8, -3).unwrap(), Rational::new(8, 3).unwrap());
}

#[test]
fn sqrt() {
    assert_eq!(
        Rational::new(16, 1).unwrap().sqrt().unwrap(),
        Rational::new(4, 1).unwrap()
    );
    assert_eq!(
        Rational::new(1, 4).unwrap().sqrt().unwrap(),
        Rational::new(1, 2).unwrap()
    );
    assert_eq!(
        Rational::new(16, 4).unwrap().sqrt().unwrap(),
        Rational::from(2)
    );
}

#[test]
fn cbrt() {
    assert_eq!(
        Rational::new(8, 1).unwrap().cbrt().unwrap(),
        Rational::new(2, 1).unwrap()
    );
    assert_eq!(
        Rational::new(27, 8).unwrap().cbrt().unwrap(),
        Rational::new(3, 2).unwrap()
    );
    assert_eq!(
        Rational::new(-27, 8).unwrap().cbrt().unwrap(),
        Rational::new(-3, 2).unwrap()
    );
    assert_eq!(
        Rational::new(1, 1).unwrap().cbrt().unwrap(),
        Rational::new(1, 1).unwrap()
    );
    assert_eq!(
        Rational::new(0, 1).unwrap().cbrt().unwrap(),
        Rational::new(0, 1).unwrap()
    );
}

#[test]
fn addition() {
    let half = Rational::new(1, 2).unwrap();
    assert_eq!(
        half.add(&Rational::new(1, 2).unwrap()).unwrap(),
        Rational::from(1)
    );
    assert_eq!(
        half.add(&Rational::new(1, 3).unwrap()).unwrap(),
        Rational::new(5, 6).unwrap()
    );
    assert_eq!(
        half.add(&Rational::new(-1, 3).unwrap()).unwrap(),
        Rational::new(1, 6).unwrap()
    );
    assert_eq!(
        half.add(&Rational::from(5)).unwrap(),
        Rational::new(11, 2).unwrap()
    );
}

#[test]
fn subtraction() {
    let half = Rational::new(1, 2).unwrap();
    assert_eq!(
        half.sub(&Rational::new(1, 2).unwrap()).unwrap(),
        Rational::from(0)
    );
    assert_eq!(
        half.sub(&Rational::new(1, 3).unwrap()).unwrap(),
        Rational::new(1, 6).unwrap()
    );
    assert_eq!(
        half.sub(&Rational::new(-1, 3).unwrap()).unwrap(),
        Rational::new(5, 6).unwrap()
    );
}

#[test]
fn rational_multiplication() {
    let half = Rational::new(1, 2).unwrap();
    assert_eq!(
        half.mul(&Rational::new(1, 2).unwrap()).unwrap(),
        Rational::new(1, 4).unwrap()
    );
    assert_eq!(
        half.mul(&Rational::new(1, 3).unwrap()).unwrap(),
        Rational::new(1, 6).unwrap()
    );
    assert_eq!(
        half.mul(&Rational::new(-1, 3).unwrap()).unwrap(),
        Rational::new(-1, 6).unwrap()
    );
    assert_eq!(
        half.mul(&Rational::from(5)).unwrap(),
        Rational::new(5, 2).unwrap()
    );
}

#[test]
fn division() {
    let half = Rational::new(1, 2).unwrap();
    assert_eq!(
        half.div(&Rational::new(1, 2).unwrap()).unwrap(),
        Rational::from(1)
    );
    assert_eq!(
        half.div(&Rational::new(1, 3).unwrap()).unwrap(),
        Rational::new(3, 2).unwrap()
    );
    assert_eq!(
        half.div(&Rational::new(-1, 3).unwrap()).unwrap(),
        Rational::new(-3, 2).unwrap()
    );
}

#[test]
fn equality() {
    assert_eq!(Rational::new(1, 2).unwrap(), Rational::new(1, 2).unwrap());
    assert_eq!(Rational::new(1, 2).unwrap(), Rational::new(2, 4).unwrap());
    assert_eq!(Rational::new(1, 2).unwrap(), Rational::new(-2, -4).unwrap());
    assert_ne!(Rational::new(1, 2).unwrap(), Rational::new(-2, 4).unwrap());
    assert_ne!(Rational::new(1, 2).unwrap(), Rational::new(2, -4).unwrap());
    assert_ne!(Rational::new(6, 2).unwrap(), Rational::new(7, 2).unwrap());
}

#[test]
fn rational_ordering() {
    assert!(Rational::new(1, 4).unwrap() < Rational::new(1, 2).unwrap());
    assert!(Rational::new(2, 3).unwrap() > Rational::new(1, 2).unwrap());
    assert!(Rational::new(-2, 3).unwrap() < Rational::new(1, 2).unwrap());
}

#[test]
fn canonical_form_of_reduce() {
    // numerator magnitude and denominator end up coprime, denominator positive
    let r = Rational::new(6, 4).unwrap().reduce();
    assert_eq!(r.numer(), 3);
    assert_eq!(r.denom(), 2);
    let r = Rational::new(5, -10).unwrap().reduce();
    assert_eq!(r.numer(), -1);
    assert_eq!(r.denom(), 2);
    let r = Rational::new(0, -7).unwrap().reduce();
    assert_eq!(r.numer(), 0);
    assert_eq!(r.denom(), 1);
}

#[test]
fn field_laws_on_values() {
    let a = Rational::new(1, 2).unwrap();
    let b = Rational::new(1, 3).unwrap();
    let c = Rational::new(-2, 5).unwrap();
    // commutativity
    assert_eq!(a.add(&b).unwrap(), b.add(&a).unwrap());
    // associativity
    assert_eq!(
        a.add(&b).unwrap().add(&c).unwrap(),
        a.add(&b.add(&c).unwrap()).unwrap()
    );
    // distributivity
    assert_eq!(
        a.mul(&b.add(&c).unwrap()).unwrap(),
        a.mul(&b).unwrap().add(&a.mul(&c).unwrap()).unwrap()
    );
    // a - a == 0
    assert_eq!(a.sub(&a).unwrap(), Rational::from(0));
    // a / a == 1 for nonzero a
    assert_eq!(c.div(&c).unwrap(), Rational::from(1));
}

#[test]
fn comparison_consistent_with_equality() {
    let a = Rational::new(2, 4).unwrap();
    let b = Rational::new(1, 2).unwrap();
    assert_eq!(a.cmp(&b), std::cmp::Ordering::Equal);
    assert_eq!(a, b);
    let c = Rational::new(1, 3).unwrap();
    assert_eq!(c.cmp(&b), std::cmp::Ordering::Less);
    assert_ne!(c, b);
    assert_eq!(b.cmp(&c), std::cmp::Ordering::Greater);
}

#[test]
fn zero_denominator_is_division_by_zero() {
    assert_eq!(Rational::new(1, 0), Err(MathError::DivisionByZero));
    let a = Rational::new(1, 2).unwrap();
    let zero = Rational::from(0);
    assert_eq!(a.div(&zero), Err(MathError::DivisionByZero));
    assert_eq!(zero.reciprocal(), Err(MathError::DivisionByZero));
}

#[test]
fn inexact_roots_are_irrational_results() {
    assert_eq!(
        Rational::new(2, 1).unwrap().sqrt(),
        Err(MathError::IrrationalResult)
    );
    assert_eq!(
        Rational::new(-4, 1).unwrap().sqrt(),
        Err(MathError::IrrationalResult)
    );
    assert_eq!(
        Rational::new(9, 1).unwrap().cbrt(),
        Err(MathError::IrrationalResult)
    );
}

#[test]
fn pow_raises_both_parts() {
    let r = Rational::new(2, 3).unwrap();
    assert_eq!(r.pow(0).unwrap(), Rational::from(1));
    assert_eq!(r.pow(3).unwrap(), Rational::new(8, 27).unwrap());
    assert_eq!(
        Rational::new(-2, 1).unwrap().pow(3).unwrap(),
        Rational::from(-8)
    );
    // 3^50 does not fit the 64-bit representation
    assert_eq!(Rational::new(3, 1).unwrap().pow(50), Err(MathError::Overflow));
}

#[test]
fn overflowing_products_are_reported() {
    let big = Rational::new(i64::MAX, 1).unwrap();
    assert_eq!(big.mul(&big), Err(MathError::Overflow));
    assert_eq!(big.add(&big), Err(MathError::Overflow));
}

#[test]
fn as_integer_requires_unit_denominator() {
    assert_eq!(Rational::new(14, 7).unwrap().as_integer(), Some(2));
    assert_eq!(Rational::new(1, 2).unwrap().as_integer(), None);
}

#[test]
fn reciprocal_swaps_and_keeps_sign_in_numerator() {
    assert_eq!(
        Rational::new(-2, 3).unwrap().reciprocal().unwrap(),
        Rational::new(-3, 2).unwrap()
    );
    assert_eq!(
        Rational::new(5, 1).unwrap().reciprocal().unwrap(),
        Rational::new(1, 5).unwrap()
    );
}
