use legendre::batch::batch_associated_legendre_polynomials;
use legendre::polynomial::{AssociatedPolynomial, Phase, Polynomial};
use legendre::Rational;
use num_bigint::BigInt;
use num_rational::BigRational;

fn big(r: &Rational) -> BigRational {
    BigRational::new(
        BigInt::from_signed_bytes_le(&r.numer_bytes()),
        BigInt::from_signed_bytes_le(&r.denom_bytes()),
    )
}

fn q(n: i64, d: i64) -> Rational {
    Rational::new(n, d)
}

#[test]
fn rational_equality_is_by_value() {
    assert_eq!(q(2, 4), q(1, 2));
    assert_eq!(q(1, -2), q(-1, 2));
    assert_eq!(Rational::zero(), q(0, 7));
    assert_ne!(q(1, 3), q(1, 2));
}

#[test]
fn rational_from_bytes_needs_a_positive_denominator() {
    assert!(Rational::from_bytes(vec![3], vec![]).is_none());
    assert!(Rational::from_bytes(vec![3], vec![0, 0]).is_none());
    assert!(Rational::from_bytes(vec![3], vec![0xff]).is_none());
    let r = Rational::from_bytes(vec![3], vec![4]).unwrap();
    assert_eq!(r, q(3, 4));
    let big = Rational::from_bytes(vec![0xfe], vec![0x00, 0x01]).unwrap();
    assert_eq!(big, q(-2, 256));
}

#[test]
fn rational_bytes_round_trip() {
    let r = q(-1125, 7);
    assert_eq!(r.numer_bytes(), vec![155, 251]);
    assert_eq!(r.denom_bytes(), vec![7]);
    let back = Rational::from_bytes(r.numer_bytes(), r.denom_bytes()).unwrap();
    assert_eq!(back, r);
    assert_eq!(r.clone(), r);
}

#[test]
fn legendre_higher_coefficients() {
    // P_5 = (63x^5 - 70x^3 + 15x) / 8
    let p5 = Polynomial::new(5);
    assert_eq!(p5.order(), 5);
    assert_eq!(p5.coefficent(5), q(63, 8));
    assert_eq!(p5.coefficent(3), q(-70, 8));
    assert_eq!(p5.coefficent(1), q(15, 8));
    assert_eq!(p5.coefficent(4), q(0, 1));
    assert_eq!(p5.coefficent(0), q(0, 1));
    // P_6 = (231x^6 - 315x^4 + 105x^2 - 5) / 16
    let p6 = Polynomial::new(6);
    assert_eq!(p6.coefficent(6), q(231, 16));
    assert_eq!(p6.coefficent(4), q(-315, 16));
    assert_eq!(p6.coefficent(2), q(105, 16));
    assert_eq!(p6.coefficent(0), q(-5, 16));
}

#[test]
fn legendre_order_is_the_degree() {
    for n in [0u16, 1, 2, 7, 10, 25] {
        assert_eq!(Polynomial::new(n).order(), n);
    }
}

#[test]
fn legendre_has_terms_of_one_parity() {
    let terms = Polynomial::new(7).into_terms();
    assert_eq!(terms.len(), 4);
    for (k, _) in terms {
        assert_eq!(k % 2, 1);
    }
}

#[test]
fn legendre_values_at_one_are_one() {
    for n in 0u16..12 {
        assert_eq!(Polynomial::new(n).evaluate(&q(1, 1)).unwrap(), q(1, 1));
    }
}

#[test]
fn legendre_symmetry() {
    let x = q(1, 3);
    let minus_x = q(-1, 3);
    let p3 = Polynomial::new(3);
    let a = p3.evaluate(&x).unwrap();
    let b = p3.evaluate(&minus_x).unwrap();
    assert_eq!(a, q(-11, 27));
    assert_eq!(b, q(11, 27));
    let p4 = Polynomial::new(4);
    assert_eq!(p4.evaluate(&x).unwrap(), p4.evaluate(&minus_x).unwrap());
}

#[test]
fn evaluate_outside_the_interval_is_none() {
    let p = Polynomial::new(2);
    assert!(p.evaluate(&q(3, 2)).is_none());
    assert!(p.evaluate(&q(-3, 2)).is_none());
    assert!(p.evaluate(&q(-1, 1)).is_some());
}

#[test]
fn negate_and_negate_twice() {
    let p = Polynomial::new(2);
    let n = p.negate();
    assert_eq!(n.coefficent(2), q(-3, 2));
    assert_eq!(n.coefficent(0), q(1, 2));
    let back = n.negate();
    assert_eq!(back.coefficent(2), q(3, 2));
    assert_eq!(back.coefficent(0), q(-1, 2));
    let neg = -Polynomial::new(1);
    assert_eq!(neg.coefficent(1), q(-1, 1));
}

#[test]
fn differentiate_lowers_the_order() {
    let d = Polynomial::new(3).differentiate();
    // d/dx (5x^3 - 3x) / 2 = (15x^2 - 3) / 2
    assert_eq!(d.order(), 2);
    assert_eq!(d.coefficent(2), q(15, 2));
    assert_eq!(d.coefficent(0), q(-3, 2));
    assert_eq!(d.coefficent(1), q(0, 1));
    let constant = Polynomial::new(0).differentiate();
    assert_eq!(constant.order(), 0);
    assert!(constant.into_terms().is_empty());
}

#[test]
fn associated_order_and_phase() {
    let p = AssociatedPolynomial::new(3, 2, &Phase::CondonShortley).unwrap();
    assert_eq!(p.m(), 2);
    assert_eq!(p.poly().order(), 1);
    assert_eq!(p.poly().coefficent(1), q(15, 1));
    let top = AssociatedPolynomial::new(3, 3, &Phase::NoPhase).unwrap();
    assert_eq!(top.poly().order(), 0);
    assert_eq!(top.poly().coefficent(0), q(15, 1));
    let cs = AssociatedPolynomial::new(2, 1, &Phase::CondonShortley).unwrap();
    let plain = AssociatedPolynomial::new(2, 1, &Phase::NoPhase).unwrap();
    assert_eq!(cs.poly().coefficent(1), q(-3, 1));
    assert_eq!(plain.poly().coefficent(1), q(3, 1));
    let zero = AssociatedPolynomial::new(4, 0, &Phase::CondonShortley).unwrap();
    assert_eq!(zero.poly().coefficent(4), q(35, 8));
}

#[test]
fn associated_evaluate_scales() {
    let p = AssociatedPolynomial::new(2, 2, &Phase::CondonShortley).unwrap();
    let v = p.evaluate(&q(1, 2), &q(3, 4)).unwrap();
    assert_eq!(v, q(9, 4));
    assert!(p.evaluate(&q(2, 1), &q(1, 1)).is_none());
}

#[test]
fn batch_recurrence_values() {
    let x = q(1, 2);
    let s = q(3, 5);
    let t = batch_associated_legendre_polynomials(2, &x, &s, &Phase::CondonShortley).unwrap();
    assert_eq!(t.len(), 3);
    assert_eq!(t[0], vec![q(1, 1)]);
    // P_1^0 = x, P_1^1 = -s
    assert_eq!(t[1], vec![q(1, 2), q(-3, 5)]);
    // P_2^0 = (3x^2 - 1)/2, P_2^1 = -3xs, P_2^2 = 3s^2
    assert_eq!(t[2], vec![q(-1, 8), q(-9, 10), q(27, 25)]);
    let plain = batch_associated_legendre_polynomials(2, &x, &s, &Phase::NoPhase).unwrap();
    assert_eq!(plain[2], vec![q(-1, 8), q(9, 10), q(27, 25)]);
    assert!(batch_associated_legendre_polynomials(2, &q(5, 4), &s, &Phase::NoPhase).is_none());
}

#[test]
fn legendre_values_at_minus_one_alternate() {
    for n in 0u16..12 {
        let expected = if n % 2 == 0 { q(1, 1) } else { q(-1, 1) };
        assert_eq!(Polynomial::new(n).evaluate(&q(-1, 1)).unwrap(), expected);
    }
}

#[test]
fn batch_agrees_with_associated_polynomials() {
    let x = q(1, 3);
    for phase in [Phase::CondonShortley, Phase::NoPhase] {
        let t = batch_associated_legendre_polynomials(6, &x, &q(3, 5), &phase).unwrap();
        assert_eq!(t.len(), 7);
        for l in 0u16..=6 {
            assert_eq!(t[l as usize].len(), l as usize + 1);
            for m in 0u16..=l {
                let p = AssociatedPolynomial::new(l, m, &phase).unwrap();
                let scale = q(3i64.pow(m as u32), 5i64.pow(m as u32));
                assert_eq!(t[l as usize][m as usize], p.evaluate(&x, &scale).unwrap());
            }
        }
    }
}

#[test]
fn batch_of_degree_zero_is_one() {
    let t = batch_associated_legendre_polynomials(0, &q(1, 2), &q(3, 5), &Phase::NoPhase).unwrap();
    assert_eq!(t.len(), 1);
    assert_eq!(t[0], vec![q(1, 1)]);
    assert!(batch_associated_legendre_polynomials(0, &q(3, 2), &q(3, 5), &Phase::NoPhase).is_none());
}

#[test]
fn batch_reflection_changes_sign_by_parity() {
    let s = q(3, 5);
    for phase in [Phase::CondonShortley, Phase::NoPhase] {
        let a = batch_associated_legendre_polynomials(5, &q(2, 7), &s, &phase).unwrap();
        let b = batch_associated_legendre_polynomials(5, &q(-2, 7), &s, &phase).unwrap();
        for l in 0..=5usize {
            for m in 0..=l {
                let sign = if (l + m) % 2 == 0 { 1 } else { -1 };
                assert_eq!(big(&b[l][m]), big(&a[l][m]) * BigRational::from_integer(BigInt::from(sign)));
            }
        }
    }
}

#[test]
fn clones_keep_the_coefficients() {
    let p = Polynomial::new(4);
    let c = p.clone();
    assert_eq!(c.coefficent(4), q(35, 8));
    assert_eq!(c.coefficent(2), q(-30, 8));
    assert_eq!(c.order(), 4);
    let a = AssociatedPolynomial::new(3, 1, &Phase::CondonShortley).unwrap();
    let b = a.clone();
    assert_eq!(b.m(), 1);
    assert_eq!(b.poly().coefficent(2), a.poly().coefficent(2));
}
