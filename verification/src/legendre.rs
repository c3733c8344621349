//! The Legendre polynomial in closed form.
//!
//! `P_n(x) = 2^-n * sum_j (-1)^j (2n-2j)! / (j! (n-j)! (n-2j)!) * x^(n-2j)`,
//! the sum running over `0 <= 2j <= n`.

use crate::integer::factorial;
use crate::poly_model::poly_wf;
use crate::rational::{lemma_mul_swap_middle, q_equiv, q_mul, q_neg, q_wf};
use vstd::arithmetic::mul::*;
use vstd::arithmetic::power::*;
use vstd::prelude::*;

verus! {

/// `(-1)^j`.
pub open spec fn sign_pow(j: nat) -> int {
    if j % 2 == 0 { 1 } else { -1 }
}

/// The coefficient of `x^(n-2j)` in `P_n`, as a fraction.
pub open spec fn legendre_term(n: nat, j: nat) -> (int, int) {
    (
        sign_pow(j) * factorial((2 * n - 2 * j) as nat),
        pow(2, n) * factorial(j) * factorial((n - j) as nat) * factorial((n - 2 * j) as nat),
    )
}

/// The ratio of consecutive coefficients: the coefficient of `x^(k-2)` is
/// the coefficient of `x^k` times `-k(k-1) / ((n-k+2)(n+k-1))`.
pub proof fn lemma_legendre_term_step(n: nat, j: nat)
    requires
        2 * j + 2 <= n,
    ensures
        ({
            let k: int = n - 2 * j;
            q_equiv(
                q_mul(legendre_term(n, j), q_neg((k * (k - 1), (n - k + 2) * (n + k - 1)))),
                legendre_term(n, j + 1),
            )
        }),
{
    let k: int = n - 2 * j;
    let v: int = n - j;
    let u: int = n - 2 * j;
    let w: int = 2 * v - 1;
    let t: int = j + 1int;
    let a: int = factorial((2 * v - 2) as nat) as int;
    let b: int = factorial(j) as int;
    let c: int = factorial((v - 1) as nat) as int;
    let d: int = factorial((u - 2) as nat) as int;
    let p: int = pow(2, n);
    let s: int = sign_pow(j);
    let uu: int = u * (u - 1);
    // unfold the factorials
    assert(factorial((2 * n - 2 * j) as nat) == 2 * v * (w * a)) by {
        assert(factorial((2 * v) as nat) == (2 * v) * factorial((2 * v - 1) as nat));
        assert(factorial((2 * v - 1) as nat) == w * factorial((2 * v - 2) as nat));
    }
    assert(factorial((n - j) as nat) == v * c);
    assert(factorial((n - 2 * j) as nat) == u * ((u - 1) * d)) by {
        assert(factorial(u as nat) == u * factorial((u - 1) as nat));
        assert(factorial((u - 1) as nat) == (u - 1) * factorial((u - 2) as nat));
    }
    assert(factorial(j + 1) == t * b);
    assert(sign_pow(j + 1) == -s);
    assert(factorial((2 * n - 2 * (j + 1)) as nat) == a);
    assert(factorial((n - (j + 1)) as nat) == c);
    assert(factorial((n - 2 * (j + 1)) as nat) == d);
    let g: int = s * a;
    let h: int = ((p * b) * c) * d;
    let x: int = 2 * v * w;
    // numerator of the product
    let num1: int = (s * (2 * v * (w * a))) * (-(k * (k - 1)));
    assert(s * (2 * v * (w * a)) == x * g) by (nonlinear_arith)
        requires x == 2 * v * w, g == s * a;
    assert(num1 == -((x * uu) * g)) by (nonlinear_arith)
        requires num1 == (x * g) * (-uu);
    // denominator of the next term
    let den2: int = ((p * (t * b)) * c) * d;
    assert(p * (t * b) == t * (p * b)) by (nonlinear_arith);
    assert(((t * (p * b)) * c) * d == t * h) by (nonlinear_arith)
        requires h == ((p * b) * c) * d;
    // denominator of the product
    let y: int = (p * b) * c;
    let den1: int = (((p * b) * (v * c)) * (u * ((u - 1) * d))) * ((n - k + 2) * (n + k - 1));
    assert((p * b) * (v * c) == v * y) by (nonlinear_arith)
        requires y == (p * b) * c;
    assert(u * ((u - 1) * d) == uu * d) by (nonlinear_arith)
        requires uu == u * (u - 1);
    lemma_mul_swap_middle(v, y, uu, d);
    assert(den1 == ((v * uu) * h) * ((2 * t) * w));
    // the two cross products
    lemma_mul_swap_middle(x * uu, g, t, h);
    assert(num1 * den2 == -(((x * uu) * t) * (g * h))) by (nonlinear_arith)
        requires num1 == -((x * uu) * g), den2 == t * h, ((x * uu) * g) * (t * h) == ((x * uu) * t) * (g * h);
    let z: int = (v * uu) * ((2 * t) * w);
    assert(((v * uu) * h) * ((2 * t) * w) == z * h) by (nonlinear_arith)
        requires z == (v * uu) * ((2 * t) * w);
    assert((-g) * (z * h) == -(z * (g * h))) by (nonlinear_arith);
    assert((x * uu) * t == z) by (nonlinear_arith)
        requires x == 2 * v * w, z == (v * uu) * ((2 * t) * w);
    assert((-s) * a == -g) by (nonlinear_arith)
        requires g == s * a;
    let lhs = q_mul(legendre_term(n, j), q_neg((k * (k - 1), (n - k + 2) * (n + k - 1))));
    let rhs = legendre_term(n, j + 1);
    assert(lhs.0 == num1);
    assert(lhs.1 == den1);
    assert(rhs.0 == -g);
    assert(rhs.1 == den2);
    assert(den1 == z * h);
    assert(lhs.0 * rhs.1 == rhs.0 * lhs.1);
}

/// The coefficient of `x^k` in `P_n`, for `k <= n` of the parity of `n`.
pub open spec fn legendre_coefficient(n: nat, k: nat) -> (int, int) {
    legendre_term(n, ((n - k) / 2) as nat)
}

/// The coefficients of `P_n`, keyed by power.
pub open spec fn legendre_map(n: nat) -> Map<u16, (int, int)> {
    Map::new(
        |k: u16| k <= n && (n - k) % 2 == 0,
        |k: u16| legendre_coefficient(n, k as nat),
    )
}

pub proof fn lemma_factorial_positive(n: nat)
    ensures
        factorial(n) > 0,
    decreases n,
{
    if n > 0 {
        lemma_factorial_positive((n - 1) as nat);
        lemma_mul_strictly_positive(n as int, factorial((n - 1) as nat) as int);
    }
}

/// Every coefficient has a positive denominator.
pub proof fn lemma_legendre_term_wf(n: nat, j: nat)
    ensures
        q_wf(legendre_term(n, j)),
{
    lemma_pow_positive(2, n);
    lemma_factorial_positive(j);
    lemma_factorial_positive((n - j) as nat);
    lemma_factorial_positive((n - 2 * j) as nat);
    let p = pow(2, n);
    let a = factorial(j) as int;
    let b = factorial((n - j) as nat) as int;
    let c = factorial((n - 2 * j) as nat) as int;
    lemma_mul_strictly_positive(p, a);
    lemma_mul_strictly_positive(p * a, b);
    lemma_mul_strictly_positive(p * a * b, c);
}

/// Every coefficient of `P_n` has a positive denominator.
pub proof fn lemma_legendre_map_wf(n: nat)
    ensures
        poly_wf(legendre_map(n)),
{
    assert forall|k: u16| legendre_map(n).contains_key(k) implies q_wf(#[trigger] legendre_map(n)[k]) by {
        lemma_legendre_term_wf(n, ((n - k) / 2) as nat);
    }
}

} // verus!
