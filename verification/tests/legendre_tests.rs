use legendre::batch::batch_associated_legendre_polynomials;
use legendre::polynomial::{AssociatedPolynomial, Phase, Polynomial};
use legendre::Rational;
use num_bigint::BigInt;
use num_rational::BigRational;
use num_traits::ToPrimitive;

fn ratio(n: i64, d: i64) -> Rational {
    Rational::new(n, d)
}

fn to_big(r: &Rational) -> BigRational {
    BigRational::new(
        BigInt::from_signed_bytes_le(&r.numer_bytes()),
        BigInt::from_signed_bytes_le(&r.denom_bytes()),
    )
}

fn from_big(r: &BigRational) -> Rational {
    Rational::from_bytes(r.numer().to_signed_bytes_le(), r.denom().to_signed_bytes_le()).unwrap()
}

fn to_f64(r: &Rational) -> f64 {
    to_big(r).to_f64().unwrap()
}

/// Evaluates a Legendre polynomial at a float, as the float interface does.
fn eval(p: &Polynomial, x: f64) -> Option<Rational> {
    if x > 1.0 || x < -1.0 {
        return None;
    }
    let x = from_big(&BigRational::from_float(x)?);
    p.evaluate(&x)
}

/// Evaluates an associated Legendre polynomial at a float, as the float
/// interface does.
fn eval_assoc(p: &AssociatedPolynomial, x: f64) -> Option<Rational> {
    let term1 = BigRational::from_float((1.0 - x.powi(2)).powf(p.m() as f64 / 2.0))?;
    if x > 1.0 || x < -1.0 {
        return None;
    }
    let xr = from_big(&BigRational::from_float(x)?);
    p.evaluate(&xr, &from_big(&term1))
}

#[test]
fn test_p0() {
    let poly = Polynomial::new(0);
    assert_eq!(poly.order(), 0);
    assert_eq!(poly.coefficent(0), ratio(1, 1));

    assert_eq!(to_f64(&eval(&poly, 1.0).unwrap()), 1.0);
    assert_eq!(to_f64(&eval(&poly, 0.5).unwrap()), 1.0);
    assert_eq!(to_f64(&eval(&poly, 0.0).unwrap()), 1.0);
    assert_eq!(to_f64(&eval(&poly, -0.5).unwrap()), 1.0);
    assert_eq!(to_f64(&eval(&poly, -1.0).unwrap()), 1.0);
}

#[test]
fn test_p1() {
    let poly = Polynomial::new(1);
    assert_eq!(poly.order(), 1);
    assert_eq!(poly.coefficent(1), ratio(1, 1));
    assert_eq!(poly.coefficent(0), ratio(0, 1));

    assert_eq!(eval(&poly, 1.0).unwrap(), ratio(1, 1));
    assert_eq!(eval(&poly, 0.5).unwrap(), ratio(1, 2));
    assert_eq!(eval(&poly, 0.0).unwrap(), ratio(0, 1));
    assert_eq!(eval(&poly, -0.5).unwrap(), ratio(-1, 2));
    assert_eq!(eval(&poly, -1.0).unwrap(), ratio(-1, 1));
}

#[test]
fn test_p2() {
    let poly = Polynomial::new(2);
    assert_eq!(poly.order(), 2);
    assert_eq!(poly.coefficent(2), ratio(3, 2));
    assert_eq!(poly.coefficent(1), ratio(0, 1));
    assert_eq!(poly.coefficent(0), ratio(-1, 2));

    assert_eq!(eval(&poly, 1.0).unwrap(), ratio(1, 1));
    assert_eq!(eval(&poly, 0.5).unwrap(), ratio(-1, 8));
    assert_eq!(eval(&poly, 0.0).unwrap(), ratio(-1, 2));
    assert_eq!(eval(&poly, -0.5).unwrap(), ratio(-1, 8));
    assert_eq!(eval(&poly, -1.0).unwrap(), ratio(1, 1));
}

#[test]
fn test_p3() {
    let poly = Polynomial::new(3);
    assert_eq!(poly.order(), 3);
    assert_eq!(poly.coefficent(3), ratio(5, 2));
    assert_eq!(poly.coefficent(2), ratio(0, 1));
    assert_eq!(poly.coefficent(1), ratio(-3, 2));
    assert_eq!(poly.coefficent(0), ratio(0, 1));
}

#[test]
fn test_p4() {
    let poly = Polynomial::new(4);
    assert_eq!(poly.order(), 4);
    assert_eq!(poly.coefficent(4), ratio(35, 8));
    assert_eq!(poly.coefficent(3), ratio(0, 1));
    assert_eq!(poly.coefficent(2), ratio(-30, 8));
    assert_eq!(poly.coefficent(1), ratio(0, 1));
    assert_eq!(poly.coefficent(0), ratio(3, 8));
}

#[test]
fn test_p00() {
    let poly = AssociatedPolynomial::new(0, 0, &Phase::CondonShortley).unwrap();

    assert_eq!(eval_assoc(&poly, 1.0).unwrap(), ratio(1, 1));
    assert_eq!(eval_assoc(&poly, 0.5).unwrap(), ratio(1, 1));
    assert_eq!(eval_assoc(&poly, 0.0).unwrap(), ratio(1, 1));
    assert_eq!(eval_assoc(&poly, -0.5).unwrap(), ratio(1, 1));
    assert_eq!(eval_assoc(&poly, -1.0).unwrap(), ratio(1, 1));
}

#[test]
fn test_p10() {
    let poly = AssociatedPolynomial::new(1, 0, &Phase::CondonShortley).unwrap();

    assert_eq!(eval_assoc(&poly, 1.0).unwrap(), ratio(1, 1));
    assert_eq!(eval_assoc(&poly, 0.5).unwrap(), ratio(1, 2));
    assert_eq!(eval_assoc(&poly, 0.0).unwrap(), ratio(0, 1));
    assert_eq!(eval_assoc(&poly, -0.5).unwrap(), ratio(-1, 2));
    assert_eq!(eval_assoc(&poly, -1.0).unwrap(), ratio(-1, 1));
}

#[test]
fn test_p11() {
    let poly = AssociatedPolynomial::new(1, 1, &Phase::CondonShortley).unwrap();

    assert_eq!(eval_assoc(&poly, 1.0).unwrap(), ratio(0, 1));
    assert_eq!(eval_assoc(&poly, 0.0).unwrap(), ratio(-1, 1));
    assert_eq!(eval_assoc(&poly, -1.0).unwrap(), ratio(0, 1));
}

#[test]
fn test_p20() {
    let poly = AssociatedPolynomial::new(2, 0, &Phase::CondonShortley).unwrap();

    assert_eq!(eval_assoc(&poly, 1.0).unwrap(), ratio(1, 1));
    assert_eq!(to_f64(&eval_assoc(&poly, 1.0).unwrap()), 1.0);
    assert_eq!(eval_assoc(&poly, 0.5).unwrap(), ratio(-1, 8));
    assert_eq!(to_f64(&eval_assoc(&poly, 0.5).unwrap()), -0.125);
    assert_eq!(eval_assoc(&poly, 0.0).unwrap(), ratio(-1, 2));
    assert_eq!(eval_assoc(&poly, -0.5).unwrap(), ratio(-1, 8));
    assert_eq!(eval_assoc(&poly, -1.0).unwrap(), ratio(1, 1));

    let poly = AssociatedPolynomial::new(2, 0, &Phase::NoPhase).unwrap();
    assert_eq!(eval_assoc(&poly, 1.0).unwrap(), ratio(1, 1));
    assert_eq!(to_f64(&eval_assoc(&poly, 1.0).unwrap()), 1.0);
    assert_eq!(eval_assoc(&poly, 0.5).unwrap(), ratio(-1, 8));
    assert_eq!(to_f64(&eval_assoc(&poly, 0.5).unwrap()), -0.125);
    assert_eq!(eval_assoc(&poly, 0.0).unwrap(), ratio(-1, 2));
    assert_eq!(eval_assoc(&poly, -0.5).unwrap(), ratio(-1, 8));
    assert_eq!(eval_assoc(&poly, -1.0).unwrap(), ratio(1, 1));
}

#[test]
fn test_p21() {
    let poly = AssociatedPolynomial::new(2, 1, &Phase::CondonShortley).unwrap();

    assert_eq!(eval_assoc(&poly, 1.0).unwrap(), ratio(0, 1));
    assert_eq!(eval_assoc(&poly, 0.0).unwrap(), ratio(0, 1));
    assert_eq!(eval_assoc(&poly, -1.0).unwrap(), ratio(0, 1));
}

#[test]
fn test_p22() {
    let poly = AssociatedPolynomial::new(2, 2, &Phase::CondonShortley).unwrap();

    assert_eq!(to_f64(&eval_assoc(&poly, 1.0).unwrap()), 0.0);
    assert_eq!(to_f64(&eval_assoc(&poly, 0.5).unwrap()), 9.0 / 4.0);
    assert_eq!(to_f64(&eval_assoc(&poly, 0.0).unwrap()), 3.0);
    assert_eq!(to_f64(&eval_assoc(&poly, -0.5).unwrap()), 9.0 / 4.0);
    assert_eq!(to_f64(&eval_assoc(&poly, -1.0).unwrap()), 0.0);
}

#[test]
fn test_associated_error() {
    assert!(AssociatedPolynomial::new(2, 3, &Phase::CondonShortley).is_err());
}

#[test]
fn test_batch_legendre() {
    let lmax: u16 = 4;
    let x = 0.5_f64;
    let xr = from_big(&BigRational::from_float(x).unwrap());
    let scalar = from_big(&BigRational::from_float((1.0 - x * x).sqrt()).unwrap());
    let result = batch_associated_legendre_polynomials(lmax, &xr, &scalar, &Phase::CondonShortley).unwrap();

    for l in 0..=lmax as usize {
        for m in 0..=l {
            let p = AssociatedPolynomial::new(l as u16, m as u16, &Phase::CondonShortley).unwrap();
            let expected = to_f64(&eval_assoc(&p, x).unwrap());
            let computed = to_f64(&result[l][m]);
            assert!((expected - computed).abs() < 1e-10);
        }
    }
}
