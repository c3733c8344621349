//! Exact rationals backed by `num_rational::BigRational`.
//!
//! A [`Rational`] keeps its numerator and denominator as two's-complement
//! little-endian bytes; every operation hands them to `num_rational`, which
//! does the arithmetic. The mathematical model of a value is a pair
//! `(numerator, denominator)` of integers with a positive denominator, and two
//! pairs stand for the same number when they are `q_equiv`.

use crate::integer::{int_value, is_positive_bytes, lemma_int_value_one};
use num_bigint::BigInt;
use num_rational::BigRational;
use num_traits::Pow;
use vstd::arithmetic::mul::*;
use vstd::arithmetic::power::*;
use vstd::prelude::*;

verus! {

// ---------------------------------------------------------------------------
// The rationals as pairs of integers
// ---------------------------------------------------------------------------

/// A pair stands for a number when its denominator is positive.
pub open spec fn q_wf(a: (int, int)) -> bool {
    a.1 > 0
}

/// Two pairs stand for the same number.
pub open spec fn q_equiv(a: (int, int), b: (int, int)) -> bool {
    a.0 * b.1 == b.0 * a.1
}

/// The integer `n` as a fraction.
pub open spec fn q_int(n: int) -> (int, int) {
    (n, 1)
}

pub open spec fn q_add(a: (int, int), b: (int, int)) -> (int, int) {
    (a.0 * b.1 + b.0 * a.1, a.1 * b.1)
}

pub open spec fn q_sub(a: (int, int), b: (int, int)) -> (int, int) {
    (a.0 * b.1 - b.0 * a.1, a.1 * b.1)
}

pub open spec fn q_mul(a: (int, int), b: (int, int)) -> (int, int) {
    (a.0 * b.0, a.1 * b.1)
}

pub open spec fn q_neg(a: (int, int)) -> (int, int) {
    (-a.0, a.1)
}

/// `a / b` for a nonzero `b`, with the sign kept in the numerator.
pub open spec fn q_div(a: (int, int), b: (int, int)) -> (int, int) {
    if b.0 > 0 {
        (a.0 * b.1, a.1 * b.0)
    } else {
        (-(a.0 * b.1), -(a.1 * b.0))
    }
}

pub open spec fn q_pow(a: (int, int), k: nat) -> (int, int) {
    (pow(a.0, k), pow(a.1, k))
}

/// `a < b` for pairs with positive denominators.
pub open spec fn q_lt(a: (int, int), b: (int, int)) -> bool {
    a.0 * b.1 < b.0 * a.1
}

// ---------------------------------------------------------------------------
// Facts about the pairs
// ---------------------------------------------------------------------------

pub proof fn lemma_equiv_refl(a: (int, int))
    ensures
        q_equiv(a, a),
{
}

pub proof fn lemma_equiv_symm(a: (int, int), b: (int, int))
    requires
        q_equiv(a, b),
    ensures
        q_equiv(b, a),
{
}

pub proof fn lemma_equiv_trans(a: (int, int), b: (int, int), c: (int, int))
    requires
        q_equiv(a, b),
        q_equiv(b, c),
        b.1 != 0,
    ensures
        q_equiv(a, c),
{
    let (a0, a1, b0, b1, c0, c1) = (a.0, a.1, b.0, b.1, c.0, c.1);
    assert(b1 * (a0 * c1 - c0 * a1) == 0) by (nonlinear_arith)
        requires
            a0 * b1 == b0 * a1,
            b0 * c1 == c0 * b1,
    ;
    assert(a0 * c1 - c0 * a1 == 0) by (nonlinear_arith)
        requires
            b1 * (a0 * c1 - c0 * a1) == 0,
            b1 != 0,
    ;
}

pub proof fn lemma_wf_add(a: (int, int), b: (int, int))
    requires
        q_wf(a),
        q_wf(b),
    ensures
        q_wf(q_add(a, b)),
        q_wf(q_sub(a, b)),
        q_wf(q_mul(a, b)),
{
    assert(a.1 * b.1 > 0) by (nonlinear_arith)
        requires
            a.1 > 0,
            b.1 > 0,
    ;
}

pub proof fn lemma_wf_div(a: (int, int), b: (int, int))
    requires
        q_wf(a),
        b.0 != 0,
    ensures
        q_wf(q_div(a, b)),
{
    if b.0 > 0 {
        assert(a.1 * b.0 > 0) by (nonlinear_arith)
            requires
                a.1 > 0,
                b.0 > 0,
        ;
    } else {
        assert(a.1 * b.0 < 0) by (nonlinear_arith)
            requires
                a.1 > 0,
                b.0 < 0,
        ;
    }
}

pub proof fn lemma_wf_pow(a: (int, int), k: nat)
    requires
        q_wf(a),
    ensures
        q_wf(q_pow(a, k)),
{
    lemma_pow_positive(a.1, k);
}

pub proof fn lemma_mul_congruence(a: (int, int), b: (int, int), c: (int, int), d: (int, int))
    requires
        q_equiv(a, c),
        q_equiv(b, d),
    ensures
        q_equiv(q_mul(a, b), q_mul(c, d)),
{
    let (a0, a1, b0, b1, c0, c1, d0, d1) = (a.0, a.1, b.0, b.1, c.0, c.1, d.0, d.1);
    assert((a0 * b0) * (c1 * d1) == (c0 * d0) * (a1 * b1)) by (nonlinear_arith)
        requires
            a0 * c1 == c0 * a1,
            b0 * d1 == d0 * b1,
    ;
}

/// `(p q)(r s) = (p r)(q s)`.
pub proof fn lemma_mul_swap_middle(p: int, q: int, r: int, s: int)
    ensures
        (p * q) * (r * s) == (p * r) * (q * s),
{
    lemma_mul_is_associative(p * q, r, s);
    lemma_mul_is_associative(p, q, r);
    lemma_mul_is_commutative(q, r);
    lemma_mul_is_associative(p, r, q);
    lemma_mul_is_associative(p * r, q, s);
}

/// Cross-multiplied, the sums and differences of equal fractions agree:
/// `(a0 b1 ± b0 a1) c1 d1 = (c0 d1 ± d0 c1) a1 b1`.
pub proof fn lemma_cross_products(a: (int, int), b: (int, int), c: (int, int), d: (int, int))
    requires
        q_equiv(a, c),
        q_equiv(b, d),
    ensures
        (a.0 * b.1 + b.0 * a.1) * (c.1 * d.1) == (c.0 * d.1 + d.0 * c.1) * (a.1 * b.1),
        (a.0 * b.1 - b.0 * a.1) * (c.1 * d.1) == (c.0 * d.1 - d.0 * c.1) * (a.1 * b.1),
{
    let (a0, a1, b0, b1, c0, c1, d0, d1) = (a.0, a.1, b.0, b.1, c.0, c.1, d.0, d.1);
    lemma_mul_is_distributive_add_other_way(c1 * d1, a0 * b1, b0 * a1);
    lemma_mul_is_distributive_sub_other_way(c1 * d1, a0 * b1, b0 * a1);
    lemma_mul_is_distributive_add_other_way(a1 * b1, c0 * d1, d0 * c1);
    lemma_mul_is_distributive_sub_other_way(a1 * b1, c0 * d1, d0 * c1);
    lemma_mul_swap_middle(a0, b1, c1, d1);
    lemma_mul_is_commutative(c1, d1);
    lemma_mul_swap_middle(b0, a1, d1, c1);
    lemma_mul_swap_middle(c0, d1, a1, b1);
    lemma_mul_is_commutative(a1, b1);
    lemma_mul_swap_middle(d0, c1, b1, a1);
    lemma_mul_is_commutative(b1, d1);
    lemma_mul_is_commutative(a1, c1);
}

pub proof fn lemma_add_congruence(a: (int, int), b: (int, int), c: (int, int), d: (int, int))
    requires
        q_equiv(a, c),
        q_equiv(b, d),
    ensures
        q_equiv(q_add(a, b), q_add(c, d)),
        q_equiv(q_sub(a, b), q_sub(c, d)),
{
    lemma_cross_products(a, b, c, d);
}

pub proof fn lemma_neg_congruence(a: (int, int), c: (int, int))
    requires
        q_equiv(a, c),
    ensures
        q_equiv(q_neg(a), q_neg(c)),
{
    assert((-a.0) * c.1 == (-c.0) * a.1) by (nonlinear_arith)
        requires
            a.0 * c.1 == c.0 * a.1,
    ;
}

pub proof fn lemma_div_congruence(a: (int, int), b: (int, int), c: (int, int), d: (int, int))
    requires
        q_equiv(a, c),
        q_equiv(b, d),
        b.0 != 0,
        d.0 != 0,
    ensures
        q_equiv(q_div(a, b), q_div(c, d)),
{
    let (a0, a1, b0, b1, c0, c1, d0, d1) = (a.0, a.1, b.0, b.1, c.0, c.1, d.0, d.1);
    let (x, y, u, v) = (a0 * b1, a1 * b0, c0 * d1, c1 * d0);
    assert(x * v == u * y) by (nonlinear_arith)
        requires
            a0 * c1 == c0 * a1,
            b0 * d1 == d0 * b1,
            x == a0 * b1,
            y == a1 * b0,
            u == c0 * d1,
            v == c1 * d0,
    ;
    assert((-x) * v == u * (-y) && x * (-v) == (-u) * y && (-x) * (-v) == (-u) * (-y))
        by (nonlinear_arith)
        requires
            x * v == u * y,
    ;
}

pub proof fn lemma_pow_congruence(a: (int, int), c: (int, int), k: nat)
    requires
        q_equiv(a, c),
    ensures
        q_equiv(q_pow(a, k), q_pow(c, k)),
    decreases k,
{
    reveal(pow);
    if k > 0 {
        lemma_pow_congruence(a, c, (k - 1) as nat);
        lemma_mul_congruence(a, q_pow(a, (k - 1) as nat), c, q_pow(c, (k - 1) as nat));
    }
}

pub proof fn lemma_lt_congruence(a: (int, int), b: (int, int), c: (int, int), d: (int, int))
    requires
        q_equiv(a, c),
        q_equiv(b, d),
        q_wf(a),
        q_wf(b),
        q_wf(c),
        q_wf(d),
    ensures
        q_lt(a, b) == q_lt(c, d),
{
    let (a0, a1, b0, b1, c0, c1, d0, d1) = (a.0, a.1, b.0, b.1, c.0, c.1, d.0, d.1);
    let x = a0 * b1 - b0 * a1;
    let y = c0 * d1 - d0 * c1;
    lemma_cross_products(a, b, c, d);
    assert(x * (c1 * d1) == y * (a1 * b1));
    lemma_mul_strictly_positive(c1, d1);
    lemma_mul_strictly_positive(a1, b1);
    assert(x < 0 <==> y < 0) by (nonlinear_arith)
        requires
            x * (c1 * d1) == y * (a1 * b1),
            c1 * d1 > 0,
            a1 * b1 > 0,
    ;
}

// ---------------------------------------------------------------------------
// The executable type
// ---------------------------------------------------------------------------

/// An exact rational number.
#[derive(Debug)]
pub struct Rational {
    numer: Vec<u8>,
    denom: Vec<u8>,
}

impl View for Rational {
    type V = (int, int);

    closed spec fn view(&self) -> (int, int) {
        (int_value(self.numer@), int_value(self.denom@))
    }
}

impl Rational {
    /// Every rational has a positive denominator.
    #[verifier::type_invariant]
    pub open spec fn inv(self) -> bool {
        q_wf(self@)
    }
}

impl Rational {
    /// The rational `numer / denom`, as `BigRational::new` builds it.
    pub fn new(numer: i64, denom: i64) -> (r: Rational)
        requires
            denom != 0,
        ensures
            q_equiv(r@, (numer as int, denom as int)),
    {
        rat_from_i64(numer, denom)
    }

    /// The rational zero, `0 / 1`.
    pub fn zero() -> (r: Rational)
        ensures
            r@ == (0int, 1int),
    {
        proof {
            lemma_int_value_one();
        }
        let numer: Vec<u8> = Vec::new();
        let denom: Vec<u8> = vec![1u8];
        assert(numer@ =~= Seq::<u8>::empty());
        assert(int_value(numer@) == 0);
        assert(denom@ =~= seq![1u8]);
        Rational { numer, denom }
    }

    /// The numerator, as two's-complement little-endian bytes.
    pub fn numer_bytes(&self) -> (r: Vec<u8>)
        ensures
            int_value(r@) == self@.0,
    {
        let r = self.numer.clone();
        assert(r@ =~= self.numer@);
        r
    }

    /// The denominator, as two's-complement little-endian bytes.
    pub fn denom_bytes(&self) -> (r: Vec<u8>)
        ensures
            int_value(r@) == self@.1,
            self@.1 > 0,
    {
        proof {
            use_type_invariant(self);
        }
        let r = self.denom.clone();
        assert(r@ =~= self.denom@);
        r
    }

    /// The rational `numer / denom` from two's-complement little-endian bytes;
    /// `None` unless the denominator is positive.
    pub fn from_bytes(numer: Vec<u8>, denom: Vec<u8>) -> (r: Option<Rational>)
        ensures
            r is Some <==> int_value(denom@) > 0,
            r matches Some(q) ==> q@ == (int_value(numer@), int_value(denom@)),
    {
        if is_positive_bytes(&denom) {
            Some(Rational { numer, denom })
        } else {
            None
        }
    }
}

impl Clone for Rational {
    fn clone(&self) -> (r: Self)
        ensures
            r@ == self@,
    {
        proof {
            use_type_invariant(self);
        }
        let numer = self.numer.clone();
        let denom = self.denom.clone();
        assert(numer@ =~= self.numer@);
        assert(denom@ =~= self.denom@);
        Rational { numer, denom }
    }
}

impl PartialEq for Rational {
    fn eq(&self, other: &Self) -> (r: bool) {
        rat_eq(self, other)
    }
}

impl vstd::std_specs::cmp::PartialEqSpecImpl for Rational {
    open spec fn obeys_eq_spec() -> bool {
        true
    }

    open spec fn eq_spec(&self, other: &Self) -> bool {
        q_equiv(self@, other@)
    }
}

impl Eq for Rational {
}

// ---------------------------------------------------------------------------
// Trusted calls into num_rational. Each one rebuilds the `BigRational`s from
// the bytes with `BigRational::new_raw`, makes one call, and reads the
// numerator and denominator back with `to_signed_bytes_le`. Every `Rational`
// has a positive denominator (its type invariant), so no call below divides
// by zero.
// ---------------------------------------------------------------------------

/// `BigRational::new(BigInt::from(n), BigInt::from(d))`: a fraction with a
/// positive denominator, equal to `n / d`.
#[verifier::external_body]
pub(crate) fn rat_from_i64(n: i64, d: i64) -> (r: Rational)
    requires
        d != 0,
    ensures
        q_wf(r@),
        q_equiv(r@, (n as int, d as int)),
{
    let q = BigRational::new(BigInt::from(n), BigInt::from(d));
    Rational { numer: q.numer().to_signed_bytes_le(), denom: q.denom().to_signed_bytes_le() }
}

/// `BigRational::new` on two integers given as bytes: a fraction with a
/// positive denominator, equal to `n / d`.
#[verifier::external_body]
pub(crate) fn rat_from_ints(n: &[u8], d: &[u8]) -> (r: Rational)
    requires
        int_value(d@) != 0,
    ensures
        q_wf(r@),
        q_equiv(r@, (int_value(n@), int_value(d@))),
{
    let q = BigRational::new(BigInt::from_signed_bytes_le(n), BigInt::from_signed_bytes_le(d));
    Rational { numer: q.numer().to_signed_bytes_le(), denom: q.denom().to_signed_bytes_le() }
}

/// `Mul` of `BigRational`: the product.
#[verifier::external_body]
pub(crate) fn rat_mul(a: &Rational, b: &Rational) -> (r: Rational)
    ensures
        q_wf(r@),
        q_equiv(r@, q_mul(a@, b@)),
{
    let x = BigRational::new_raw(BigInt::from_signed_bytes_le(&a.numer), BigInt::from_signed_bytes_le(&a.denom));
    let y = BigRational::new_raw(BigInt::from_signed_bytes_le(&b.numer), BigInt::from_signed_bytes_le(&b.denom));
    let q = x * y;
    Rational { numer: q.numer().to_signed_bytes_le(), denom: q.denom().to_signed_bytes_le() }
}

/// `Add` of `BigRational`: the sum.
#[verifier::external_body]
pub(crate) fn rat_add(a: &Rational, b: &Rational) -> (r: Rational)
    ensures
        q_wf(r@),
        q_equiv(r@, q_add(a@, b@)),
{
    let x = BigRational::new_raw(BigInt::from_signed_bytes_le(&a.numer), BigInt::from_signed_bytes_le(&a.denom));
    let y = BigRational::new_raw(BigInt::from_signed_bytes_le(&b.numer), BigInt::from_signed_bytes_le(&b.denom));
    let q = x + y;
    Rational { numer: q.numer().to_signed_bytes_le(), denom: q.denom().to_signed_bytes_le() }
}

/// `Sub` of `BigRational`: the difference.
#[verifier::external_body]
pub(crate) fn rat_sub(a: &Rational, b: &Rational) -> (r: Rational)
    ensures
        q_wf(r@),
        q_equiv(r@, q_sub(a@, b@)),
{
    let x = BigRational::new_raw(BigInt::from_signed_bytes_le(&a.numer), BigInt::from_signed_bytes_le(&a.denom));
    let y = BigRational::new_raw(BigInt::from_signed_bytes_le(&b.numer), BigInt::from_signed_bytes_le(&b.denom));
    let q = x - y;
    Rational { numer: q.numer().to_signed_bytes_le(), denom: q.denom().to_signed_bytes_le() }
}

/// `Div` of `BigRational` by a nonzero divisor: the quotient.
#[verifier::external_body]
pub(crate) fn rat_div(a: &Rational, b: &Rational) -> (r: Rational)
    requires
        b@.0 != 0,
    ensures
        q_wf(r@),
        q_equiv(r@, q_div(a@, b@)),
{
    let x = BigRational::new_raw(BigInt::from_signed_bytes_le(&a.numer), BigInt::from_signed_bytes_le(&a.denom));
    let y = BigRational::new_raw(BigInt::from_signed_bytes_le(&b.numer), BigInt::from_signed_bytes_le(&b.denom));
    let q = x / y;
    Rational { numer: q.numer().to_signed_bytes_le(), denom: q.denom().to_signed_bytes_le() }
}

/// `Neg` of `BigRational`: the negation.
#[verifier::external_body]
pub(crate) fn rat_neg(a: &Rational) -> (r: Rational)
    ensures
        q_wf(r@),
        q_equiv(r@, q_neg(a@)),
{
    let x = BigRational::new_raw(BigInt::from_signed_bytes_le(&a.numer), BigInt::from_signed_bytes_le(&a.denom));
    let q = -x;
    Rational { numer: q.numer().to_signed_bytes_le(), denom: q.denom().to_signed_bytes_le() }
}

/// `BigRational::pow` with a nonnegative exponent: `a` raised to `k`.
#[verifier::external_body]
pub(crate) fn rat_pow(a: &Rational, k: u16) -> (r: Rational)
    ensures
        q_wf(r@),
        q_equiv(r@, q_pow(a@, k as nat)),
{
    let x = BigRational::new_raw(BigInt::from_signed_bytes_le(&a.numer), BigInt::from_signed_bytes_le(&a.denom));
    let q = x.pow(k as i32);
    Rational { numer: q.numer().to_signed_bytes_le(), denom: q.denom().to_signed_bytes_le() }
}

/// `PartialEq` of `BigRational`: whether the two stand for the same number.
#[verifier::external_body]
pub(crate) fn rat_eq(a: &Rational, b: &Rational) -> (r: bool)
    ensures
        r == q_equiv(a@, b@),
{
    let x = BigRational::new_raw(BigInt::from_signed_bytes_le(&a.numer), BigInt::from_signed_bytes_le(&a.denom));
    let y = BigRational::new_raw(BigInt::from_signed_bytes_le(&b.numer), BigInt::from_signed_bytes_le(&b.denom));
    x == y
}

/// `PartialOrd` of `BigRational`: whether `a` is less than `b`.
#[verifier::external_body]
pub(crate) fn rat_lt(a: &Rational, b: &Rational) -> (r: bool)
    ensures
        r == q_lt(a@, b@),
{
    let x = BigRational::new_raw(BigInt::from_signed_bytes_le(&a.numer), BigInt::from_signed_bytes_le(&a.denom));
    let y = BigRational::new_raw(BigInt::from_signed_bytes_le(&b.numer), BigInt::from_signed_bytes_le(&b.denom));
    x < y
}

} // verus!
