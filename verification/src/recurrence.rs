//! The batch recurrence computes the associated Legendre polynomials: the
//! value that the recurrence gives at `(l, m)` is `s^m` times the value at
//! `x` of the polynomial part of `P_l^m`, with its phase.

use crate::batch::{alp, holds_alp, lemma_alp_wf, table_holds};
use crate::polynomial::{associated_map, Phase};
use crate::at_one::{
    lemma_bonnet_term, lemma_scale_congruence, lemma_sum_linear, lemma_sum_wf, legendre_or_zero,
    q_scale, q_sum,
};
use crate::integer::factorial;
use crate::legendre::{
    legendre_map, legendre_term, lemma_legendre_map_wf, lemma_legendre_term_wf, sign_pow,
};
use crate::poly_model::{
    lemma_eval_below_neg, lemma_eval_below_parity, lemma_eval_below_wf, lemma_poly_wf_neg, lemma_eval_congruence, lemma_poly_deriv_congruence, lemma_poly_wf_deriv_n, lemma_poly_equiv_trans, lemma_poly_wf_deriv,
    poly_deriv, poly_deriv_n, poly_equiv, poly_eval, poly_eval_below, poly_wf,
};
use crate::rational::{
    lemma_add_congruence, lemma_div_congruence, lemma_equiv_refl, lemma_equiv_symm, lemma_equiv_trans, lemma_mul_congruence, lemma_mul_swap_middle, lemma_neg_congruence, lemma_wf_add, lemma_wf_div,
    lemma_wf_pow, q_add, q_div, q_equiv, q_int, q_mul, q_neg, q_pow, q_sub, q_wf, Rational,
};
use vstd::arithmetic::mul::*;
use vstd::arithmetic::power::*;
use vstd::prelude::*;

verus! {

/// `(k+1)(k+2)...(k+m)`: the factor that `m` derivatives put on `x^(k+m)`.
pub open spec fn rising(k: int, m: nat) -> int
    decreases m,
{
    if m == 0 {
        1
    } else {
        (k + 1) * rising(k + 1, (m - 1) as nat)
    }
}

/// The coefficient of `x^k` in the `m`-th derivative of `P_l`.
pub open spec fn deriv_coefficient(l: int, m: nat, k: int) -> (int, int) {
    q_scale(rising(k, m), legendre_or_zero(l, k + m))
}

/// The `m`-th derivative of `P_l`, coefficient by coefficient.
pub open spec fn deriv_model(l: nat, m: nat) -> Map<u16, (int, int)> {
    Map::new(
        |k: u16| k + m <= l && (l - k - m) % 2 == 0,
        |k: u16| deriv_coefficient(l as int, m, k as int),
    )
}

pub proof fn lemma_deriv_model_wf(l: nat, m: nat)
    ensures
        poly_wf(deriv_model(l, m)),
{
    assert forall|k: u16| deriv_model(l, m).contains_key(k) implies q_wf(#[trigger] deriv_model(l, m)[k]) by {
        lemma_legendre_term_wf(l, ((l - k - m) / 2) as nat);
    }
}

/// The `m`-th derivative of `P_l` has the coefficients of [`deriv_model`].
pub proof fn lemma_deriv_closed_form(l: nat, m: nat)
    requires
        l <= u16::MAX,
    ensures
        poly_equiv(poly_deriv_n(legendre_map(l), m), deriv_model(l, m)),
    decreases m,
{
    if m == 0 {
        assert forall|k: u16| legendre_map(l).contains_key(k) implies q_equiv(
            #[trigger] legendre_map(l)[k],
            deriv_model(l, 0)[k],
        ) by {
            let c = legendre_map(l)[k];
            assert(c == legendre_or_zero(l as int, k as int));
            assert(1 * c.0 == c.0);
        }
        assert(legendre_map(l).dom() =~= deriv_model(l, 0).dom());
    } else {
        let prev = deriv_model(l, (m - 1) as nat);
        lemma_deriv_closed_form(l, (m - 1) as nat);
        lemma_poly_deriv_congruence(poly_deriv_n(legendre_map(l), (m - 1) as nat), prev);
        lemma_deriv_model_wf(l, (m - 1) as nat);
        lemma_poly_wf_deriv(prev);
        assert(poly_deriv(prev).dom() =~= deriv_model(l, m).dom());
        assert forall|k: u16| poly_deriv(prev).contains_key(k) implies q_equiv(
            #[trigger] poly_deriv(prev)[k],
            deriv_model(l, m)[k],
        ) by {
            let j = (k + 1) as u16;
            let c = legendre_or_zero(l as int, k + m);
            let r = rising(k + 1, (m - 1) as nat);
            assert(prev[j] == q_scale(r, c));
            assert(rising(k as int, m) == (k + 1) * r);
            assert((r * c.0) * (k + 1) * c.1 == ((k + 1) * r) * c.0 * (c.1 * 1)) by (nonlinear_arith);
        }
        lemma_poly_equiv_trans(
            poly_deriv_n(legendre_map(l), m),
            poly_deriv(prev),
            deriv_model(l, m),
        );
    }
}

/// `(k+1)...(k+m) = (k+1)...(k+m-1) * (k+m)`.
pub proof fn lemma_rising_top(k: int, m: nat)
    requires
        m >= 1,
    ensures
        rising(k, m) == rising(k, (m - 1) as nat) * (k + m),
    decreases m,
{
    if m > 1 {
        lemma_rising_top(k + 1, (m - 1) as nat);
        let r = rising(k + 1, (m - 2) as nat);
        assert(rising(k, m) == (k + 1) * rising(k + 1, (m - 1) as nat));
        assert(rising(k + 1, (m - 1) as nat) == r * (k + 1 + (m - 1)));
        assert(rising(k, (m - 1) as nat) == (k + 1) * r);
        assert((k + 1) * (r * (k + 1 + (m - 1))) == ((k + 1) * r) * (k + m)) by (nonlinear_arith);
    } else {
        assert(rising(k, 1) == (k + 1) * rising(k + 1, 0));
        assert(rising(k + 1, 0) == 1);
        assert(rising(k, 0) == 1);
        assert((k + 1) * 1 == 1 * (k + 1));
    }
}

/// The three-term recurrence between the coefficients of `P_l`, `P_(l-1)`
/// and `P_(l-2)`, weighted as the `m`-th derivatives weight them:
/// `(l-m) K c_l(K) = (2l-1) (K-m) c_(l-1)(K-1) - (l-1+m) K c_(l-2)(K)`.
proof fn lemma_recurrence_base(l: int, m: int, kk: int)
    requires
        m >= 1,
        l >= m + 2,
        kk >= m,
    ensures
        q_equiv(
            q_scale((l - m) * kk, legendre_or_zero(l, kk)),
            q_sub(
                q_scale((2 * l - 1) * (kk - m), legendre_or_zero(l - 1, kk - 1)),
                q_scale((l - 1 + m) * kk, legendre_or_zero(l - 2, kk)),
            ),
        ),
{
    let a = (l - m) * kk;
    let b = (2 * l - 1) * (kk - m);
    let c = (l - 1 + m) * kk;
    if !(kk <= l && (l - kk) % 2 == 0) {
        assert(legendre_or_zero(l, kk) == (0int, 1int));
        assert(legendre_or_zero(l - 1, kk - 1) == (0int, 1int));
        assert(legendre_or_zero(l - 2, kk) == (0int, 1int));
        assert(a * 0 == 0 && b * 0 == 0 && c * 0 == 0) by (nonlinear_arith);
    } else {
        let j: int = (l - kk) / 2;
        if j == 0 {
            recurrence_top(l, m);
        } else {
            recurrence_middle(l, m, j);
        }
    }
}

proof fn recurrence_top(l: int, m: int)
    requires
        m >= 1,
        l >= m + 2,
    ensures
        q_equiv(
            q_scale((l - m) * l, legendre_or_zero(l, l)),
            q_sub(
                q_scale((2 * l - 1) * (l - m), legendre_or_zero(l - 1, l - 1)),
                q_scale((l - 1 + m) * l, legendre_or_zero(l - 2, l)),
            ),
        ),
{
    let t1 = legendre_term(l as nat, 0);
    let t2 = legendre_term((l - 1) as nat, 0);
    assert(legendre_or_zero(l, l) == t1);
    assert(legendre_or_zero(l - 1, l - 1) == t2);
    assert(legendre_or_zero(l - 2, l) == (0int, 1int));
    let aa: int = factorial((2 * l - 2) as nat) as int;
    let g: int = factorial((l - 1) as nat) as int;
    let p: int = pow(2, (l - 1) as nat);
    reveal(pow);
    assert(pow(2, l as nat) == 2 * p);
    assert(factorial((2 * l) as nat) == (2 * l) * ((2 * l - 1) * aa)) by {
        assert(factorial((2 * l) as nat) == (2 * l) * factorial((2 * l - 1) as nat));
        assert(factorial((2 * l - 1) as nat) == (2 * l - 1) * factorial((2 * l - 2) as nat));
    }
    assert(factorial(l as nat) == l * g);
    assert(factorial(0) == 1);
    assert(sign_pow(0) == 1);
    assert(t1.0 == 1 * factorial((2 * l - 0) as nat));
    assert(t1.1 == pow(2, l as nat) * 1 * factorial((l - 0) as nat) * factorial((l - 2 * 0) as nat));
    assert(t2.0 == 1 * factorial((2 * (l - 1) - 0) as nat));
    assert(t2.1 == pow(2, (l - 1) as nat) * 1 * factorial((l - 1 - 0) as nat) * factorial((l - 1 - 2 * 0) as nat));
    let a: int = (l - m) * l;
    let b: int = (2 * l - 1) * (l - m);
    let c: int = (l - 1 + m) * l;
    let l0: int = a * t1.0;
    let l1: int = t1.1;
    let r0: int = (b * t2.0) * 1 - (c * 0) * t2.1;
    let r1: int = t2.1 * 1;
    assert(l0 == (l - m) * (2 * l - 1) * (2 * (l * l) * aa)) by (nonlinear_arith)
        requires
            l0 == a * t1.0,
            a == (l - m) * l,
            t1.0 == 1 * ((2 * l) * ((2 * l - 1) * aa)),
    ;
    assert(l1 == (2 * (l * l)) * (p * (g * g))) by (nonlinear_arith)
        requires
            l1 == (2 * p) * 1 * (l * g) * (l * g),
    ;
    assert(r0 == (2 * l - 1) * (l - m) * aa) by (nonlinear_arith)
        requires
            r0 == (b * t2.0) * 1 - (c * 0) * t2.1,
            b == (2 * l - 1) * (l - m),
            t2.0 == 1 * aa,
    ;
    assert(r1 == p * (g * g)) by (nonlinear_arith)
        requires
            r1 == (p * 1 * g * g) * 1,
    ;
    let z: int = (l - m) * (2 * l - 1);
    let q: int = 2 * (l * l);
    let y: int = p * (g * g);
    assert(l0 == z * (q * aa)) by (nonlinear_arith)
        requires
            l0 == (l - m) * (2 * l - 1) * (2 * (l * l) * aa),
            z == (l - m) * (2 * l - 1),
            q == 2 * (l * l),
    ;
    assert(r0 == z * aa) by (nonlinear_arith)
        requires
            r0 == (2 * l - 1) * (l - m) * aa,
            z == (l - m) * (2 * l - 1),
    ;
    assert(l0 * r1 == r0 * l1) by (nonlinear_arith)
        requires
            l0 == z * (q * aa),
            r0 == z * aa,
            l1 == q * y,
            r1 == y,
    ;
    let lhs = q_scale(a, t1);
    let rhs = q_sub(q_scale(b, t2), q_scale(c, (0, 1)));
    assert(lhs.0 == l0 && lhs.1 == l1 && rhs.0 == r0 && rhs.1 == r1);
}

proof fn recurrence_middle(l: int, m: int, j: int)
    requires
        m >= 1,
        l >= m + 2,
        j >= 1,
        l - 2 * j >= m,
    ensures
        ({
            let kk = l - 2 * j;
            q_equiv(
                q_scale((l - m) * kk, legendre_or_zero(l, kk)),
                q_sub(
                    q_scale((2 * l - 1) * (kk - m), legendre_or_zero(l - 1, kk - 1)),
                    q_scale((l - 1 + m) * kk, legendre_or_zero(l - 2, kk)),
                ),
            )
        }),
{
    let kk: int = l - 2 * j;
    let t1 = legendre_term(l as nat, j as nat);
    let t2 = legendre_term((l - 1) as nat, j as nat);
    let t3 = legendre_term((l - 2) as nat, (j - 1) as nat);
    assert(legendre_or_zero(l, kk) == t1);
    assert(legendre_or_zero(l - 1, kk - 1) == t2);
    assert(legendre_or_zero(l - 2, kk) == t3);
    let s: int = sign_pow(j as nat);
    assert(sign_pow((j - 1) as nat) == -s);
    let v: int = l - j;
    let w: int = 2 * l - 2 * j - 1;
    let aa: int = factorial((2 * l - 2 * j - 2) as nat) as int;
    let bb: int = factorial((j - 1) as nat) as int;
    let cc: int = factorial((l - j - 1) as nat) as int;
    let e: int = factorial((kk - 1) as nat) as int;
    let p: int = pow(2, (l - 2) as nat);
    reveal(pow);
    assert(pow(2, (l - 1) as nat) == 2 * p);
    assert(pow(2, l as nat) == 2 * (2 * p));
    assert(factorial((2 * l - 2 * j) as nat) == (2 * v) * (w * aa)) by {
        assert(factorial((2 * v) as nat) == (2 * v) * factorial((2 * v - 1) as nat));
        assert(factorial((2 * v - 1) as nat) == w * factorial((2 * v - 2) as nat));
    }
    assert(factorial(j as nat) == j * bb);
    assert(factorial((l - j) as nat) == v * cc);
    assert(factorial(kk as nat) == kk * e);
    assert(2 * (l - 1) - 2 * j == 2 * l - 2 * j - 2);
    assert(2 * (l - 2) - 2 * (j - 1) == 2 * l - 2 * j - 2);
    assert(l - 2 - (j - 1) == l - j - 1);
    assert(l - 2 - 2 * (j - 1) == kk);
    let k0: int = s * aa;
    let mm: int = ((p * bb) * cc) * e;
    // t1 = (2 v w k0, 4 j v kk mm)
    assert(t1.0 == s * ((2 * v) * (w * aa)));
    assert(t1.0 == (2 * v * w) * k0) by (nonlinear_arith)
        requires
            t1.0 == s * ((2 * v) * (w * aa)),
            k0 == s * aa,
    ;
    assert(t1.1 == (2 * (2 * p)) * (j * bb) * (v * cc) * (kk * e));
    assert((2 * (2 * p)) * (j * bb) == (4 * j) * (p * bb)) by (nonlinear_arith);
    assert(((4 * j) * (p * bb)) * (v * cc) == (4 * j * v) * ((p * bb) * cc)) by (nonlinear_arith);
    assert(((4 * j * v) * ((p * bb) * cc)) * (kk * e) == (4 * j * v * kk) * mm) by (nonlinear_arith)
        requires
            mm == ((p * bb) * cc) * e,
    ;
    // t2 = (k0, 2 j mm)
    assert(t2.0 == k0);
    assert(t2.1 == (2 * p) * (j * bb) * cc * e);
    assert((2 * p) * (j * bb) == (2 * j) * (p * bb)) by (nonlinear_arith);
    assert(((2 * j) * (p * bb)) * cc == (2 * j) * ((p * bb) * cc)) by (nonlinear_arith);
    assert(((2 * j) * ((p * bb) * cc)) * e == (2 * j) * mm) by (nonlinear_arith)
        requires
            mm == ((p * bb) * cc) * e,
    ;
    // t3 = (-k0, kk mm)
    assert(t3.0 == (-s) * aa);
    assert((-s) * aa == -k0) by (nonlinear_arith)
        requires
            k0 == s * aa,
    ;
    assert(t3.1 == p * bb * cc * (kk * e));
    assert(((p * bb) * cc) * (kk * e) == kk * mm) by (nonlinear_arith)
        requires
            mm == ((p * bb) * cc) * e,
    ;
    let a: int = (l - m) * kk;
    let b: int = (2 * l - 1) * (kk - m);
    let c: int = (l - 1 + m) * kk;
    let t1_1: int = (4 * j * v * kk) * mm;
    let t2_1: int = (2 * j) * mm;
    let t3_1: int = kk * mm;
    let l0: int = a * ((2 * v * w) * k0);
    let r0: int = (b * k0) * t3_1 - (c * (-k0)) * t2_1;
    let r1: int = t2_1 * t3_1;
    let g: int = kk * k0 * mm;
    let x: int = (2 * v * kk) * k0;
    let y: int = (2 * j * kk) * (mm * mm);
    assert(l0 == ((l - m) * w) * x) by (nonlinear_arith)
        requires
            l0 == a * ((2 * v * w) * k0),
            a == (l - m) * kk,
            x == (2 * v * kk) * k0,
    ;
    assert(r1 == y) by (nonlinear_arith)
        requires
            r1 == t2_1 * t3_1,
            t2_1 == (2 * j) * mm,
            t3_1 == kk * mm,
            y == (2 * j * kk) * (mm * mm),
    ;
    assert((b * k0) * t3_1 == ((2 * l - 1) * (kk - m)) * g) by (nonlinear_arith)
        requires
            b == (2 * l - 1) * (kk - m),
            t3_1 == kk * mm,
            g == kk * k0 * mm,
    ;
    assert((c * (-k0)) * t2_1 == -((2 * (l - 1 + m) * j) * g)) by (nonlinear_arith)
        requires
            c == (l - 1 + m) * kk,
            t2_1 == (2 * j) * mm,
            g == kk * k0 * mm,
    ;
    assert(r0 == ((2 * l - 1) * (kk - m) + 2 * (l - 1 + m) * j) * g) by (nonlinear_arith)
        requires
            r0 == ((2 * l - 1) * (kk - m)) * g + (2 * (l - 1 + m) * j) * g,
    ;
    assert((2 * l - 1) * (kk - m) + 2 * (l - 1 + m) * j == (l - m) * w) by (nonlinear_arith)
        requires
            kk == l - 2 * j,
            w == 2 * l - 2 * j - 1,
    ;
    assert(g * t1_1 == x * y) by (nonlinear_arith)
        requires
            g == kk * k0 * mm,
            t1_1 == (4 * j * v * kk) * mm,
            x == (2 * v * kk) * k0,
            y == (2 * j * kk) * (mm * mm),
    ;
    assert(l0 * r1 == r0 * t1_1) by (nonlinear_arith)
        requires
            l0 == ((l - m) * w) * x,
            r1 == y,
            r0 == ((l - m) * w) * g,
            g * t1_1 == x * y,
    ;
    let lhs = q_scale(a, t1);
    let rhs = q_sub(q_scale(b, t2), q_scale(c, t3));
    assert(lhs.0 == l0 && lhs.1 == t1_1 && rhs.0 == r0 && rhs.1 == r1);
}

/// A linear relation stays true when every weight is multiplied by `r`.
proof fn lemma_scale_relation(
    a: int,
    b: int,
    c: int,
    r: int,
    x: (int, int),
    y: (int, int),
    z: (int, int),
)
    requires
        q_equiv(q_scale(a, x), q_sub(q_scale(b, y), q_scale(c, z))),
    ensures
        q_equiv(q_scale(a * r, x), q_sub(q_scale(b * r, y), q_scale(c * r, z))),
{
    let lhs = (a * x.0) * (y.1 * z.1);
    let rhs = ((b * y.0) * z.1 - (c * z.0) * y.1) * x.1;
    assert(lhs == rhs);
    assert(((a * r) * x.0) * (y.1 * z.1) == r * lhs) by (nonlinear_arith)
        requires
            lhs == (a * x.0) * (y.1 * z.1),
    ;
    let (p1, p2) = ((b * y.0) * z.1, (c * z.0) * y.1);
    assert(((b * r) * y.0) * z.1 == r * p1) by (nonlinear_arith)
        requires
            p1 == (b * y.0) * z.1,
    ;
    assert(((c * r) * z.0) * y.1 == r * p2) by (nonlinear_arith)
        requires
            p2 == (c * z.0) * y.1,
    ;
    assert((r * p1 - r * p2) * x.1 == r * ((p1 - p2) * x.1)) by (nonlinear_arith);
}

/// The three-term recurrence between the coefficients of the `m`-th
/// derivatives of `P_l`, `P_(l-1)` and `P_(l-2)`:
/// `(l-m) d_l(k) = (2l-1) d_(l-1)(k-1) - (l-1+m) d_(l-2)(k)`.
pub proof fn lemma_deriv_recurrence(l: int, m: nat, k: int)
    requires
        l >= m + 2,
        k >= 0,
    ensures
        q_equiv(
            q_scale(l - m, deriv_coefficient(l, m, k)),
            q_sub(
                q_scale(2 * l - 1, deriv_coefficient(l - 1, m, k - 1)),
                q_scale(l - 1 + m, deriv_coefficient(l - 2, m, k)),
            ),
        ),
{
    let l1 = legendre_or_zero(l, k + m);
    let l2 = legendre_or_zero(l - 1, k - 1 + m);
    let l3 = legendre_or_zero(l - 2, k + m);
    if m == 0 {
        lemma_bonnet_term(l - 1, k);
        assert(l - 1 + 1 == l);
        assert(2 * (l - 1) + 1 == 2 * l - 1);
        assert(rising(k, 0) == 1 && rising(k - 1, 0) == 1);
        assert(1 * l1.0 == l1.0 && 1 * l2.0 == l2.0 && 1 * l3.0 == l3.0);
    } else {
        let kk: int = k + m;
        let rho = rising(k, (m - 1) as nat);
        lemma_rising_top(k, m);
        assert(rising(k - 1, m) == k * rho);
        lemma_recurrence_base(l, m as int, kk);
        let a0 = (l - m) * kk;
        let b0 = (2 * l - 1) * (kk - m);
        let c0 = (l - 1 + m) * kk;
        lemma_scale_relation(a0, b0, c0, rho, l1, l2, l3);
        assert((l - m) * ((rho * kk) * l1.0) == (a0 * rho) * l1.0) by (nonlinear_arith)
            requires
                a0 == (l - m) * kk,
        ;
        assert((2 * l - 1) * ((k * rho) * l2.0) == (b0 * rho) * l2.0) by (nonlinear_arith)
            requires
                b0 == (2 * l - 1) * (kk - m),
                kk - m == k,
        ;
        assert((l - 1 + m) * ((rho * kk) * l3.0) == (c0 * rho) * l3.0) by (nonlinear_arith)
            requires
                c0 == (l - 1 + m) * kk,
        ;
        assert(q_scale(l - m, deriv_coefficient(l, m, k)) == q_scale(a0 * rho, l1));
        assert(q_scale(2 * l - 1, deriv_coefficient(l - 1, m, k - 1)) == q_scale(b0 * rho, l2));
        assert(q_scale(l - 1 + m, deriv_coefficient(l - 2, m, k)) == q_scale(c0 * rho, l3));
    }
}

// ---------------------------------------------------------------------------
// Sums
// ---------------------------------------------------------------------------

/// Adding a zero changes a sum only by an equal fraction.
proof fn lemma_add_zero(a: (int, int), z: (int, int))
    requires
        z.0 == 0,
        z.1 != 0,
    ensures
        q_equiv(q_add(a, z), a),
        q_equiv(q_add(z, a), a),
{
    assert((a.0 * z.1 + 0 * a.1) * a.1 == a.0 * (a.1 * z.1)) by (nonlinear_arith);
    assert((0 * a.1 + a.0 * z.1) * a.1 == a.0 * (z.1 * a.1)) by (nonlinear_arith);
}

/// Terms with a zero numerator at the end change a sum only by an equal
/// fraction.
proof fn lemma_sum_zero_end(f: spec_fn(int) -> (int, int), i: nat, j: nat)
    requires
        i <= j,
        forall|k: int| 0 <= k < j ==> q_wf(#[trigger] f(k)),
        forall|k: int| i <= k < j ==> (#[trigger] f(k)).0 == 0,
    ensures
        q_equiv(q_sum(f, j), q_sum(f, i)),
    decreases j,
{
    if j > i {
        lemma_sum_zero_end(f, i, (j - 1) as nat);
        lemma_sum_wf(f, (j - 1) as nat);
        let prev = q_sum(f, (j - 1) as nat);
        assert(f(j - 1).0 == 0);
        lemma_add_zero(prev, f(j - 1));
        lemma_equiv_trans(q_sum(f, j), prev, q_sum(f, i));
    } else {
        lemma_equiv_refl(q_sum(f, i));
    }
}

/// A sum of terms with zero numerators has a zero numerator.
proof fn lemma_sum_all_zero(f: spec_fn(int) -> (int, int), i: nat)
    requires
        forall|k: int| 0 <= k < i ==> (#[trigger] f(k)).0 == 0,
    ensures
        q_sum(f, i).0 == 0,
    decreases i,
{
    if i > 0 {
        lemma_sum_all_zero(f, (i - 1) as nat);
        let prev = q_sum(f, (i - 1) as nat);
        assert(prev.0 * f(i - 1).1 + f(i - 1).0 * prev.1 == 0) by (nonlinear_arith)
            requires
                prev.0 == 0,
                f(i - 1).0 == 0,
        ;
    }
}

/// A sum whose only term with a nonzero numerator is at `k0` is that term.
proof fn lemma_sum_single(f: spec_fn(int) -> (int, int), k0: nat, n: nat)
    requires
        k0 < n,
        forall|k: int| 0 <= k < n ==> q_wf(#[trigger] f(k)),
        forall|k: int| 0 <= k < n && k != k0 ==> (#[trigger] f(k)).0 == 0,
    ensures
        q_equiv(q_sum(f, n), f(k0 as int)),
{
    lemma_sum_zero_end(f, k0 + 1, n);
    lemma_sum_all_zero(f, k0);
    lemma_sum_wf(f, k0);
    lemma_sum_wf(f, k0 + 1);
    let before = q_sum(f, k0);
    assert(q_sum(f, k0 + 1) == q_add(before, f(k0 as int)));
    lemma_add_zero(f(k0 as int), before);
    lemma_equiv_trans(q_sum(f, n), q_sum(f, k0 + 1), f(k0 as int));
}

/// `x a + x b = x (a + b)`.
proof fn lemma_mul_distributes(x: (int, int), a: (int, int), b: (int, int))
    ensures
        q_equiv(q_add(q_mul(x, a), q_mul(x, b)), q_mul(x, q_add(a, b))),
{
    let (x0, x1, a0, a1, b0, b1) = (x.0, x.1, a.0, a.1, b.0, b.1);
    let u = a0 * b1 + b0 * a1;
    let xx = x0 * x1;
    let pp = a1 * b1;
    lemma_mul_swap_middle(x0, a0, x1, b1);
    lemma_mul_swap_middle(x0, b0, x1, a1);
    lemma_mul_is_distributive_add(xx, a0 * b1, b0 * a1);
    lemma_mul_swap_middle(x1, a1, x1, b1);
    let lp = (x0 * a0) * (x1 * b1) + (x0 * b0) * (x1 * a1);
    assert(lp == xx * u);
    assert((xx * u) * (x1 * pp) == (x0 * u) * ((x1 * x1) * pp)) by (nonlinear_arith)
        requires
            xx == x0 * x1,
    ;
}

/// `x` times the terms of `f`, each moved up one power.
pub open spec fn shifted_times(f: spec_fn(int) -> (int, int), x: (int, int)) -> spec_fn(
    int,
) -> (int, int) {
    |k: int| q_mul(x, f(k - 1))
}

/// The terms of `x f`, shifted by one power, sum to `x` times the sum of
/// `f`.
proof fn lemma_sum_times_x(f: spec_fn(int) -> (int, int), x: (int, int), i: nat)
    requires
        q_wf(x),
        f(-1) == (0int, 1int),
        forall|k: int| 0 <= k < i ==> q_wf(#[trigger] f(k)),
    ensures
        q_equiv(q_sum(shifted_times(f, x), i + 1), q_mul(x, q_sum(f, i))),
    decreases i,
{
    let g = shifted_times(f, x);
    if i == 0 {
        assert(g(0) == q_mul(x, (0int, 1int)));
        assert(q_sum(g, 0) == (0int, 1int));
        assert(q_sum(g, 1) == q_add(q_sum(g, 0), g(0)));
        assert(x.0 * 0 == 0) by (nonlinear_arith);
        assert(0 * (x.1 * 1) + (x.0 * 0) * 1 == 0) by (nonlinear_arith);
    } else {
        lemma_sum_times_x(f, x, (i - 1) as nat);
        let prev_g = q_sum(g, i);
        let prev_f = q_sum(f, (i - 1) as nat);
        let t = f(i - 1);
        assert(g(i as int) == q_mul(x, t));
        assert(q_sum(g, i + 1) == q_add(prev_g, q_mul(x, t)));
        assert(q_sum(f, i) == q_add(prev_f, t));
        lemma_equiv_refl(q_mul(x, t));
        lemma_add_congruence(prev_g, q_mul(x, t), q_mul(x, prev_f), q_mul(x, t));
        lemma_mul_distributes(x, prev_f, t);
        lemma_sum_wf(f, (i - 1) as nat);
        lemma_wf_add(x, prev_f);
        lemma_wf_add(x, t);
        lemma_wf_add(q_mul(x, prev_f), q_mul(x, t));
        lemma_equiv_trans(
            q_sum(g, i + 1),
            q_add(q_mul(x, prev_f), q_mul(x, t)),
            q_mul(x, q_add(prev_f, t)),
        );
    }
}

// ---------------------------------------------------------------------------
// The derivatives of `P_l` at a point
// ---------------------------------------------------------------------------

/// The term of power `k` of the `m`-th derivative of `P_l` taken at `x`;
/// nothing below power 0.
pub open spec fn deriv_terms(l: int, m: nat, x: (int, int)) -> spec_fn(int) -> (int, int) {
    |k: int|
        if k < 0 {
            (0int, 1int)
        } else {
            q_mul(deriv_coefficient(l, m, k), q_pow(x, k as nat))
        }
}

pub proof fn lemma_deriv_coefficient_wf(l: int, m: nat, k: int)
    ensures
        q_wf(deriv_coefficient(l, m, k)),
{
    if 0 <= k + m <= l && (l - (k + m)) % 2 == 0 {
        lemma_legendre_term_wf(l as nat, ((l - (k + m)) / 2) as nat);
    }
}

pub proof fn lemma_deriv_terms_wf(l: int, m: nat, x: (int, int), k: int)
    requires
        q_wf(x),
    ensures
        q_wf(deriv_terms(l, m, x)(k)),
{
    if k >= 0 {
        lemma_deriv_coefficient_wf(l, m, k);
        lemma_wf_pow(x, k as nat);
        lemma_wf_add(deriv_coefficient(l, m, k), q_pow(x, k as nat));
    }
}

/// Where `P_l` has no term of power `k + m`, the term of power `k` of its
/// `m`-th derivative is zero.
pub proof fn lemma_deriv_terms_zero(l: int, m: nat, x: (int, int), k: int)
    requires
        !(0 <= k + m <= l && (l - (k + m)) % 2 == 0),
    ensures
        deriv_terms(l, m, x)(k).0 == 0,
{
    if k >= 0 {
        let c = deriv_coefficient(l, m, k);
        assert(c.0 == 0);
        assert(c.0 * q_pow(x, k as nat).0 == 0);
    }
}

/// The value of [`deriv_model`] below power `i` is the sum of its terms.
proof fn lemma_eval_deriv_model(l: nat, m: nat, x: (int, int), i: nat)
    requires
        i <= 0x10000,
        q_wf(x),
    ensures
        q_equiv(poly_eval_below(deriv_model(l, m), x, i), q_sum(deriv_terms(l as int, m, x), i)),
        q_wf(poly_eval_below(deriv_model(l, m), x, i)),
        q_wf(q_sum(deriv_terms(l as int, m, x), i)),
    decreases i,
{
    let t = deriv_terms(l as int, m, x);
    let dm = deriv_model(l, m);
    lemma_deriv_model_wf(l, m);
    lemma_eval_below_wf(dm, x, i);
    assert forall|k: int| 0 <= k < i implies q_wf(#[trigger] t(k)) by {
        lemma_deriv_terms_wf(l as int, m, x, k);
    }
    lemma_sum_wf(t, i);
    if i > 0 {
        let j = (i - 1) as nat;
        lemma_eval_deriv_model(l, m, x, j);
        let k = j as u16;
        assert(k as int == j);
        let e_prev = poly_eval_below(dm, x, j);
        let s_prev = q_sum(t, j);
        let term = t(j as int);
        assert(q_sum(t, i) == q_add(s_prev, term));
        if dm.contains_key(k) {
            assert(dm[k] == deriv_coefficient(l as int, m, j as int));
            assert(poly_eval_below(dm, x, i) == q_add(e_prev, term));
            lemma_equiv_refl(term);
            lemma_add_congruence(e_prev, term, s_prev, term);
        } else {
            assert(poly_eval_below(dm, x, i) == e_prev);
            lemma_deriv_terms_zero(l as int, m, x, j as int);
            lemma_deriv_terms_wf(l as int, m, x, j as int);
            lemma_add_zero(s_prev, term);
            lemma_equiv_trans(e_prev, s_prev, q_sum(t, i));
        }
    }
}

/// A relation `a X = b Y - c Z` stays true when `X`, `Y` and `Z` are each
/// replaced by an equal fraction.
pub proof fn lemma_relation_congruence(
    a: int,
    b: int,
    c: int,
    x: (int, int),
    y: (int, int),
    z: (int, int),
    x2: (int, int),
    y2: (int, int),
    z2: (int, int),
)
    requires
        q_equiv(q_scale(a, x), q_sub(q_scale(b, y), q_scale(c, z))),
        q_equiv(x, x2),
        q_equiv(y, y2),
        q_equiv(z, z2),
        q_wf(x),
        q_wf(y),
        q_wf(z),
    ensures
        q_equiv(q_scale(a, x2), q_sub(q_scale(b, y2), q_scale(c, z2))),
{
    lemma_scale_congruence(a, x, x2);
    lemma_scale_congruence(b, y, y2);
    lemma_scale_congruence(c, z, z2);
    lemma_add_congruence(q_scale(b, y), q_scale(c, z), q_scale(b, y2), q_scale(c, z2));
    lemma_equiv_symm(q_scale(a, x), q_scale(a, x2));
    let mid = q_sub(q_scale(b, y), q_scale(c, z));
    lemma_equiv_trans(q_scale(a, x2), q_scale(a, x), mid);
    lemma_wf_add(y, z);
    lemma_equiv_trans(q_scale(a, x2), mid, q_sub(q_scale(b, y2), q_scale(c, z2)));
}

/// A relation `a X = b Y - c Z` stays true when `X`, `Y` and `Z` are each
/// multiplied by the same `p`.
proof fn lemma_relation_times(
    a: int,
    b: int,
    c: int,
    x: (int, int),
    y: (int, int),
    z: (int, int),
    p: (int, int),
)
    requires
        q_equiv(q_scale(a, x), q_sub(q_scale(b, y), q_scale(c, z))),
    ensures
        q_equiv(
            q_scale(a, q_mul(x, p)),
            q_sub(q_scale(b, q_mul(y, p)), q_scale(c, q_mul(z, p))),
        ),
{
    let (x0, x1, y0, y1, z0, z1, p0, p1) = (x.0, x.1, y.0, y.1, z.0, z.1, p.0, p.1);
    let h = (a * x0) * (y1 * z1);
    let u = (b * y0) * z1;
    let v = (c * z0) * y1;
    let r = u - v;
    let w = p0 * p1;
    assert(h == r * x1);
    let pp = p1 * p1;
    lemma_mul_is_associative(a, x0, p0);
    lemma_mul_swap_middle(y1, p1, z1, p1);
    lemma_mul_swap_middle(a * x0, p0, y1 * z1, pp);
    lemma_mul_is_associative(p0, p1, p1);
    assert((a * (x0 * p0)) * ((y1 * p1) * (z1 * p1)) == h * (w * p1));
    assert((b * (y0 * p0)) * (z1 * p1) == u * w) by (nonlinear_arith)
        requires
            u == (b * y0) * z1,
            w == p0 * p1,
    ;
    assert((c * (z0 * p0)) * (y1 * p1) == v * w) by (nonlinear_arith)
        requires
            v == (c * z0) * y1,
            w == p0 * p1,
    ;
    assert((u * w - v * w) * (x1 * p1) == (r * x1) * (w * p1)) by (nonlinear_arith)
        requires
            r == u - v,
    ;
}

/// The terms of the `m`-th derivatives of `P_l`, `P_(l-1)` and `P_(l-2)` at
/// `x` follow the three-term recurrence, the middle one multiplied by `x`.
proof fn lemma_terms_recurrence(l: int, m: nat, x: (int, int), k: int)
    requires
        l >= m + 2,
        k >= 0,
        q_wf(x),
    ensures
        q_equiv(
            q_scale(l - m, deriv_terms(l, m, x)(k)),
            q_sub(
                q_scale(2 * l - 1, shifted_times(deriv_terms(l - 1, m, x), x)(k)),
                q_scale(l - 1 + m, deriv_terms(l - 2, m, x)(k)),
            ),
        ),
{
    let p = q_pow(x, k as nat);
    let d1 = deriv_coefficient(l, m, k);
    let d2 = deriv_coefficient(l - 1, m, k - 1);
    let d3 = deriv_coefficient(l - 2, m, k);
    lemma_deriv_recurrence(l, m, k);
    lemma_relation_times(l - m, 2 * l - 1, l - 1 + m, d1, d2, d3, p);
    let g = shifted_times(deriv_terms(l - 1, m, x), x)(k);
    assert(g == q_mul(x, deriv_terms(l - 1, m, x)(k - 1)));
    reveal(pow);
    if k == 0 {
        assert(p == (1int, 1int));
        assert(g == q_mul(x, (0int, 1int)));
        let lz = legendre_or_zero(l - 1, -1 + m);
        assert(d2 == q_scale(rising(-1, m), lz));
        if m == 0 {
            assert(lz == (0int, 1int));
            assert(d2.0 == rising(-1, m) * 0);
        } else {
            assert(rising(-1, m) == 0 * rising(0, (m - 1) as nat));
            assert(rising(-1, m) == 0);
            assert(d2.0 == 0 * lz.0);
        }
        assert(d2.0 == 0);
        assert((d2.0 * 1) * (x.1 * 1) == (x.0 * 0) * (d2.1 * 1)) by (nonlinear_arith)
            requires
                d2.0 == 0,
        ;
    } else {
        let pk = q_pow(x, (k - 1) as nat);
        assert(p == (x.0 * pk.0, x.1 * pk.1));
        assert(g == q_mul(x, q_mul(d2, pk)));
        assert(d2.0 * (x.0 * pk.0) == x.0 * (d2.0 * pk.0)) by (nonlinear_arith);
        assert(d2.1 * (x.1 * pk.1) == x.1 * (d2.1 * pk.1)) by (nonlinear_arith);
    }
    lemma_deriv_coefficient_wf(l, m, k);
    lemma_deriv_coefficient_wf(l - 1, m, k - 1);
    lemma_deriv_coefficient_wf(l - 2, m, k);
    lemma_wf_pow(x, k as nat);
    lemma_wf_add(d1, p);
    lemma_wf_add(d2, p);
    lemma_wf_add(d3, p);
    lemma_equiv_refl(q_mul(d1, p));
    lemma_equiv_refl(q_mul(d3, p));
    lemma_relation_congruence(
        l - m,
        2 * l - 1,
        l - 1 + m,
        q_mul(d1, p),
        q_mul(d2, p),
        q_mul(d3, p),
        deriv_terms(l, m, x)(k),
        g,
        deriv_terms(l - 2, m, x)(k),
    );
}

/// The value at `x` of the `m`-th derivative of `P_l`.
pub open spec fn deriv_value(l: nat, m: nat, x: (int, int)) -> (int, int) {
    poly_eval(poly_deriv_n(legendre_map(l), m), x)
}

/// The value of the `m`-th derivative of `P_l` is the sum of its terms.
proof fn lemma_deriv_value_sum(l: nat, m: nat, x: (int, int))
    requires
        l <= u16::MAX,
        q_wf(x),
    ensures
        q_equiv(deriv_value(l, m, x), q_sum(deriv_terms(l as int, m, x), 0x10000)),
        q_wf(deriv_value(l, m, x)),
        q_wf(q_sum(deriv_terms(l as int, m, x), 0x10000)),
{
    let d = poly_deriv_n(legendre_map(l), m);
    lemma_deriv_closed_form(l, m);
    lemma_equiv_refl(x);
    lemma_eval_congruence(d, deriv_model(l, m), x, x);
    lemma_eval_deriv_model(l, m, x, 0x10000);
    lemma_legendre_map_wf(l);
    lemma_poly_wf_deriv_n(legendre_map(l), m);
    lemma_eval_below_wf(d, x, 0x10000);
    lemma_equiv_trans(
        deriv_value(l, m, x),
        poly_eval(deriv_model(l, m), x),
        q_sum(deriv_terms(l as int, m, x), 0x10000),
    );
}

/// The three-term recurrence, summed over the powers.
proof fn lemma_summed_recurrence(l: nat, m: nat, x: (int, int))
    requires
        m + 2 <= l,
        q_wf(x),
    ensures
        q_equiv(
            q_scale(l - m, q_sum(deriv_terms(l as int, m, x), 0x10000)),
            q_sub(
                q_scale(2 * l - 1, q_sum(shifted_times(deriv_terms(l - 1, m, x), x), 0x10000)),
                q_scale(l - 1 + m, q_sum(deriv_terms(l - 2, m, x), 0x10000)),
            ),
        ),
        q_wf(q_sum(deriv_terms(l as int, m, x), 0x10000)),
        q_wf(q_sum(shifted_times(deriv_terms(l - 1, m, x), x), 0x10000)),
        q_wf(q_sum(deriv_terms(l - 2, m, x), 0x10000)),
{
    let n: nat = 0x10000;
    let t0 = deriv_terms(l as int, m, x);
    let t1 = deriv_terms(l - 1, m, x);
    let t2 = deriv_terms(l - 2, m, x);
    let g = shifted_times(t1, x);
    let (a, b, c) = (l - m, 2 * l - 1, l - 1 + m);
    assert forall|k: int| 0 <= k < n implies q_equiv(
        #[trigger] q_scale(a, t0(k)),
        q_sub(q_scale(b, g(k)), q_scale(c, t2(k))),
    ) by {
        lemma_terms_recurrence(l as int, m, x, k);
    }
    lemma_sum_linear(t0, g, t2, a, b, c, n);
    assert forall|k: int| 0 <= k < n implies q_wf(#[trigger] t0(k)) by {
        lemma_deriv_terms_wf(l as int, m, x, k);
    }
    assert forall|k: int| 0 <= k < n implies q_wf(#[trigger] t2(k)) by {
        lemma_deriv_terms_wf(l - 2, m, x, k);
    }
    assert forall|k: int| 0 <= k < n implies q_wf(#[trigger] g(k)) by {
        lemma_deriv_terms_wf(l - 1, m, x, k - 1);
        lemma_wf_add(x, t1(k - 1));
    }
    lemma_sum_wf(t0, n);
    lemma_sum_wf(g, n);
    lemma_sum_wf(t2, n);
}

/// The shifted terms of the `m`-th derivative of `P_(l-1)` sum to `x`
/// times its value.
proof fn lemma_shifted_sum(l: nat, m: nat, x: (int, int))
    requires
        1 <= l <= u16::MAX,
        q_wf(x),
    ensures
        q_equiv(
            q_sum(shifted_times(deriv_terms(l - 1, m, x), x), 0x10000),
            q_mul(x, deriv_value((l - 1) as nat, m, x)),
        ),
{
    let n: nat = 0x10000;
    let t1 = deriv_terms(l - 1, m, x);
    let g = shifted_times(t1, x);
    assert forall|k: int| 0 <= k < n implies q_wf(#[trigger] t1(k)) by {
        lemma_deriv_terms_wf(l - 1, m, x, k);
    }
    assert(t1(-1) == (0int, 1int));
    lemma_sum_times_x(t1, x, (n - 1) as nat);
    lemma_deriv_terms_zero(l - 1, m, x, n - 1);
    assert forall|k: int| n - 1 <= k < n implies (#[trigger] t1(k)).0 == 0 by {}
    lemma_sum_zero_end(t1, (n - 1) as nat, n);
    lemma_deriv_value_sum((l - 1) as nat, m, x);
    let s1 = q_sum(t1, n);
    let s1p = q_sum(t1, (n - 1) as nat);
    let v1 = deriv_value((l - 1) as nat, m, x);
    lemma_sum_wf(t1, (n - 1) as nat);
    lemma_equiv_symm(v1, s1);
    lemma_equiv_symm(s1, s1p);
    lemma_equiv_trans(s1p, s1, v1);
    lemma_equiv_refl(x);
    lemma_mul_congruence(x, s1p, x, v1);
    lemma_wf_add(x, s1p);
    lemma_equiv_trans(q_sum(g, n), q_mul(x, s1p), q_mul(x, v1));
}

/// The three-term recurrence between the values of the `m`-th derivatives:
/// `(l-m) D_l(x) = (2l-1) x D_(l-1)(x) - (l-1+m) D_(l-2)(x)`.
pub proof fn lemma_eval_recurrence(l: nat, m: nat, x: (int, int))
    requires
        m + 2 <= l,
        l <= u16::MAX,
        q_wf(x),
    ensures
        q_equiv(
            q_scale(l - m, deriv_value(l, m, x)),
            q_sub(
                q_scale(2 * l - 1, q_mul(x, deriv_value((l - 1) as nat, m, x))),
                q_scale(l - 1 + m, deriv_value((l - 2) as nat, m, x)),
            ),
        ),
{
    let n: nat = 0x10000;
    lemma_summed_recurrence(l, m, x);
    lemma_shifted_sum(l, m, x);
    lemma_deriv_value_sum(l, m, x);
    lemma_deriv_value_sum((l - 2) as nat, m, x);
    let xs = q_sum(deriv_terms(l as int, m, x), n);
    let zs = q_sum(deriv_terms(l - 2, m, x), n);
    lemma_equiv_symm(deriv_value(l, m, x), xs);
    lemma_equiv_symm(deriv_value((l - 2) as nat, m, x), zs);
    lemma_relation_congruence(
        l - m,
        2 * l - 1,
        l - 1 + m,
        xs,
        q_sum(shifted_times(deriv_terms(l - 1, m, x), x), n),
        zs,
        deriv_value(l, m, x),
        q_mul(x, deriv_value((l - 1) as nat, m, x)),
        deriv_value((l - 2) as nat, m, x),
    );
}

// ---------------------------------------------------------------------------
// The top two orders
// ---------------------------------------------------------------------------

/// The `l`-th derivative of `P_l`, a constant: `(2l)! / (2^l l!)`.
pub open spec fn diag(l: nat) -> (int, int) {
    deriv_coefficient(l as int, l, 0)
}

/// `1 * 2 * ... * m = m!`.
proof fn lemma_rising_from_zero(m: nat)
    ensures
        rising(0, m) == factorial(m),
    decreases m,
{
    if m > 0 {
        lemma_rising_from_zero((m - 1) as nat);
        lemma_rising_top(0, m);
        lemma_mul_is_commutative(factorial((m - 1) as nat) as int, m as int);
    }
}

/// `diag(l) = (2l-1) diag(l-1)`.
proof fn lemma_diag_step(l: nat)
    requires
        l >= 1,
    ensures
        q_equiv(diag(l), q_scale(2 * l - 1, diag((l - 1) as nat))),
{
    let d = diag(l);
    let e = diag((l - 1) as nat);
    lemma_rising_from_zero(l);
    lemma_rising_from_zero((l - 1) as nat);
    assert(legendre_or_zero(l as int, l as int) == legendre_term(l, 0));
    assert(legendre_or_zero(l - 1, l - 1) == legendre_term((l - 1) as nat, 0));
    let g: int = factorial((l - 1) as nat) as int;
    let u: int = factorial(l) as int;
    let aa: int = factorial((2 * l - 2) as nat) as int;
    let p: int = pow(2, (l - 1) as nat);
    reveal(pow);
    assert(pow(2, l) == 2 * p);
    assert(u == l * g);
    assert(factorial((2 * l) as nat) == (2 * l) * ((2 * l - 1) * aa)) by {
        assert(factorial((2 * l) as nat) == (2 * l) * factorial((2 * l - 1) as nat));
        assert(factorial((2 * l - 1) as nat) == (2 * l - 1) * factorial((2 * l - 2) as nat));
    }
    assert(factorial(0) == 1);
    assert(sign_pow(0) == 1);
    let f2: int = (2 * l) * ((2 * l - 1) * aa);
    assert(d == (u * (1 * f2), (2 * p) * 1 * u * u));
    assert(e == (g * (1 * aa), p * 1 * g * g));
    let b: int = 2 * l - 1;
    // d.0 * e.1 == (b * e.0) * d.1
    let q: int = b * aa;
    assert(f2 == (2 * l) * q);
    assert(d.0 == u * ((2 * l) * q)) by (nonlinear_arith)
        requires
            d.0 == u * (1 * f2),
            f2 == (2 * l) * q,
    ;
    assert(e.1 == p * (g * g)) by (nonlinear_arith)
        requires
            e.1 == p * 1 * g * g,
    ;
    assert(d.1 == 2 * p * (u * u)) by (nonlinear_arith)
        requires
            d.1 == (2 * p) * 1 * u * u,
    ;
    assert(b * e.0 == q * g) by (nonlinear_arith)
        requires
            e.0 == g * (1 * aa),
            q == b * aa,
    ;
    assert((u * ((2 * l) * q)) * (p * (g * g)) == (q * g) * (2 * p * (u * u))) by (nonlinear_arith)
        requires
            u == l * g,
    ;
}

/// The value of the `l`-th derivative of `P_l` is [`diag`] at every point.
proof fn lemma_diag_value(l: nat, x: (int, int))
    requires
        l <= u16::MAX,
        q_wf(x),
    ensures
        q_equiv(deriv_value(l, l, x), diag(l)),
        q_wf(diag(l)),
{
    let n: nat = 0x10000;
    let t = deriv_terms(l as int, l, x);
    lemma_deriv_value_sum(l, l, x);
    assert forall|k: int| 0 <= k < n implies q_wf(#[trigger] t(k)) by {
        lemma_deriv_terms_wf(l as int, l, x, k);
    }
    assert forall|k: int| 0 <= k < n && k != 0 implies (#[trigger] t(k)).0 == 0 by {
        lemma_deriv_terms_zero(l as int, l, x, k);
    }
    lemma_sum_single(t, 0, n);
    reveal(pow);
    assert(q_pow(x, 0) == (1int, 1int));
    let d = diag(l);
    assert(t(0) == q_mul(d, (1int, 1int)));
    lemma_deriv_coefficient_wf(l as int, l, 0);
    lemma_equiv_trans(deriv_value(l, l, x), q_sum(t, n), t(0));
    lemma_equiv_trans(deriv_value(l, l, x), t(0), d);
}

/// The value of the `(l-1)`-th derivative of `P_l` is [`diag`]`(l)` times
/// `x`.
proof fn lemma_offdiag_value(l: nat, x: (int, int))
    requires
        1 <= l <= u16::MAX,
        q_wf(x),
    ensures
        q_equiv(deriv_value(l, (l - 1) as nat, x), q_mul(diag(l), x)),
{
    let n: nat = 0x10000;
    let m = (l - 1) as nat;
    let t = deriv_terms(l as int, m, x);
    lemma_deriv_value_sum(l, m, x);
    assert forall|k: int| 0 <= k < n implies q_wf(#[trigger] t(k)) by {
        lemma_deriv_terms_wf(l as int, m, x, k);
    }
    assert forall|k: int| 0 <= k < n && k != 1 implies (#[trigger] t(k)).0 == 0 by {
        lemma_deriv_terms_zero(l as int, m, x, k);
    }
    lemma_sum_single(t, 1, n);
    reveal(pow);
    assert(pow(x.0, 1) == x.0 * pow(x.0, 0));
    assert(pow(x.1, 1) == x.1 * pow(x.1, 0));
    assert(q_pow(x, 1) == (x.0 * 1, x.1 * 1));
    let d = diag(l);
    assert(rising(0, l) == 1 * rising(1, m));
    assert(deriv_coefficient(l as int, m, 1) == d);
    assert(t(1) == q_mul(d, q_pow(x, 1)));
    lemma_deriv_coefficient_wf(l as int, m, 1);
    lemma_deriv_terms_wf(l as int, m, x, 1);
    lemma_equiv_trans(deriv_value(l, m, x), q_sum(t, n), t(1));
}

// ---------------------------------------------------------------------------
// The recurrence values
// ---------------------------------------------------------------------------

/// `(-1)^m` under the Condon-Shortley phase, 1 without it.
pub open spec fn phase_sign(cs: bool, m: nat) -> int {
    if cs && m % 2 == 1 {
        -1
    } else {
        1
    }
}

/// `s^m` times the phase times the `m`-th derivative of `P_l` at `x`.
pub open spec fn alp_target(l: nat, m: nat, x: (int, int), s: (int, int), cs: bool) -> (int, int) {
    q_mul(q_pow(s, m), q_scale(phase_sign(cs, m), deriv_value(l, m, x)))
}

proof fn lemma_diag_algebra(b: int, s: (int, int), pp: (int, int), g: int, dd: (int, int), cs: bool)
    ensures
        ({
            let v = q_mul(q_mul(q_int(b), s), q_mul(pp, q_scale(g, dd)));
            let gg = if cs {
                -g
            } else {
                g
            };
            (if cs {
                q_neg(v)
            } else {
                v
            }) == q_mul((s.0 * pp.0, s.1 * pp.1), q_scale(gg, q_scale(b, dd)))
        }),
{
    let (s0, s1, p0, p1, d0, d1) = (s.0, s.1, pp.0, pp.1, dd.0, dd.1);
    assert((b * s0) * (p0 * (g * d0)) == (s0 * p0) * (g * (b * d0))) by (nonlinear_arith);
    assert(-((b * s0) * (p0 * (g * d0))) == (s0 * p0) * ((-g) * (b * d0))) by (nonlinear_arith);
    assert((1 * s1) * (p1 * d1) == (s1 * p1) * d1) by (nonlinear_arith);
}

proof fn lemma_offdiag_algebra(b: int, x: (int, int), pp: (int, int), g: int, dd: (int, int))
    ensures
        q_mul(q_mul(x, q_int(b)), q_mul(pp, q_scale(g, dd))) == q_mul(
            pp,
            q_scale(g, q_mul(q_scale(b, dd), x)),
        ),
{
    let (x0, x1, p0, p1, d0, d1) = (x.0, x.1, pp.0, pp.1, dd.0, dd.1);
    assert((x0 * b) * (p0 * (g * d0)) == p0 * (g * ((b * d0) * x0))) by (nonlinear_arith);
    assert((x1 * 1) * (p1 * d1) == p1 * (d1 * x1)) by (nonlinear_arith);
}

proof fn lemma_step_algebra(
    a: int,
    b: int,
    c: int,
    x: (int, int),
    pp: (int, int),
    g: int,
    e: (int, int),
    e1: (int, int),
    e2: (int, int),
)
    requires
        a > 0,
        q_equiv(q_scale(a, e), q_sub(q_scale(b, q_mul(x, e1)), q_scale(c, e2))),
    ensures
        q_equiv(
            q_div(
                q_sub(
                    q_mul(q_mul(q_int(b), x), q_mul(pp, q_scale(g, e1))),
                    q_mul(q_int(c), q_mul(pp, q_scale(g, e2))),
                ),
                q_int(a),
            ),
            q_mul(pp, q_scale(g, e)),
        ),
{
    let (x0, x1, p0, p1, e0, ed) = (x.0, x.1, pp.0, pp.1, e.0, e.1);
    let (f0, f1, h0, h1) = (e1.0, e1.1, e2.0, e2.1);
    let n1 = (b * x0) * (p0 * (g * f0));
    let d1 = (1 * x1) * (p1 * f1);
    let n2 = c * (p0 * (g * h0));
    let d2 = 1 * (p1 * h1);
    let k = (p0 * p1) * g;
    let bb = b * (x0 * f0);
    let cc = (c * h0) * (x1 * f1);
    let rn = bb * h1 - cc;
    let rd = (x1 * f1) * h1;
    assert((a * e0) * rd == rn * ed);
    assert(n1 == (p0 * g) * bb) by (nonlinear_arith)
        requires
            n1 == (b * x0) * (p0 * (g * f0)),
            bb == b * (x0 * f0),
    ;
    assert(n1 * d2 == k * (bb * h1)) by (nonlinear_arith)
        requires
            n1 == (p0 * g) * bb,
            d2 == 1 * (p1 * h1),
            k == (p0 * p1) * g,
    ;
    assert(n2 == (p0 * g) * (c * h0)) by (nonlinear_arith)
        requires
            n2 == c * (p0 * (g * h0)),
    ;
    assert(d1 == p1 * (x1 * f1)) by (nonlinear_arith)
        requires
            d1 == (1 * x1) * (p1 * f1),
    ;
    assert(n2 * d1 == k * cc) by (nonlinear_arith)
        requires
            n2 == (p0 * g) * (c * h0),
            d1 == p1 * (x1 * f1),
            k == (p0 * p1) * g,
            cc == (c * h0) * (x1 * f1),
    ;
    let num = n1 * d2 - n2 * d1;
    let den = d1 * d2;
    assert(num == k * rn) by (nonlinear_arith)
        requires
            num == n1 * d2 - n2 * d1,
            n1 * d2 == k * (bb * h1),
            n2 * d1 == k * cc,
            rn == bb * h1 - cc,
    ;
    assert(den == (p1 * p1) * rd) by (nonlinear_arith)
        requires
            den == d1 * d2,
            d1 == p1 * (x1 * f1),
            d2 == 1 * (p1 * h1),
            rd == (x1 * f1) * h1,
    ;
    let qq = (a * e0) * rd;
    assert((num * 1) * (p1 * ed) == (k * p1) * qq) by (nonlinear_arith)
        requires
            num == k * rn,
            qq == rn * ed,
    ;
    let uu = p0 * g;
    let vv = p1 * p1;
    lemma_mul_is_associative(p0, g, e0);
    assert(k * p1 == uu * vv) by (nonlinear_arith)
        requires
            k == (p0 * p1) * g,
            uu == p0 * g,
            vv == p1 * p1,
    ;
    assert((uu * e0) * ((vv * rd) * a) == (uu * vv) * ((a * e0) * rd)) by (nonlinear_arith);
    assert((p0 * (g * e0)) * (den * a) == (k * p1) * qq);
    let sub = q_sub(
        q_mul(q_mul(q_int(b), x), q_mul(pp, q_scale(g, e1))),
        q_mul(q_int(c), q_mul(pp, q_scale(g, e2))),
    );
    assert(sub == (num, den));
    assert(q_div(sub, q_int(a)) == (num * 1, den * a));
}

proof fn lemma_target_wf(l: nat, m: nat, x: (int, int), s: (int, int), cs: bool)
    requires
        l <= u16::MAX,
        q_wf(x),
        q_wf(s),
    ensures
        q_wf(alp_target(l, m, x, s, cs)),
        q_wf(deriv_value(l, m, x)),
        q_wf(q_pow(s, m)),
{
    lemma_deriv_value_sum(l, m, x);
    lemma_wf_pow(s, m);
    lemma_wf_add(q_pow(s, m), q_scale(phase_sign(cs, m), deriv_value(l, m, x)));
}

proof fn lemma_alp_base(x: (int, int), s: (int, int), cs: bool)
    requires
        q_wf(x),
        q_wf(s),
    ensures
        q_equiv(alp(0, 0, x, s, cs), alp_target(0, 0, x, s, cs)),
{
    let dv = deriv_value(0, 0, x);
    lemma_diag_value(0, x);
    lemma_target_wf(0, 0, x, s, cs);
    reveal(pow);
    assert(q_pow(s, 0) == (1int, 1int));
    assert(factorial(0) == 1);
    assert(sign_pow(0) == 1);
    assert(legendre_or_zero(0, 0) == legendre_term(0, 0));
    assert(rising(0, 0) == 1);
    assert(diag(0) == (1int, 1int));
    assert(phase_sign(cs, 0) == 1);
    lemma_scale_congruence(1, dv, diag(0));
    lemma_equiv_refl((1int, 1int));
    lemma_mul_congruence((1int, 1int), q_scale(1, dv), (1int, 1int), q_scale(1, diag(0)));
    assert(q_mul((1int, 1int), q_scale(1, diag(0))) == (1int, 1int));
    assert(alp(0, 0, x, s, cs) == (1int, 1int));
}

proof fn lemma_alp_diag_case(l: nat, x: (int, int), s: (int, int), cs: bool)
    requires
        1 <= l <= u16::MAX,
        q_wf(x),
        q_wf(s),
        q_equiv(
            alp((l - 1) as nat, (l - 1) as nat, x, s, cs),
            alp_target((l - 1) as nat, (l - 1) as nat, x, s, cs),
        ),
    ensures
        q_equiv(alp(l, l, x, s, cs), alp_target(l, l, x, s, cs)),
{
    let lm = (l - 1) as nat;
    let b: int = 2 * l - 1;
    let a_prev = alp(lm, lm, x, s, cs);
    let pp = q_pow(s, lm);
    let g = phase_sign(cs, lm);
    let dd = deriv_value(lm, lm, x);
    let v_prev = q_mul(pp, q_scale(g, dd));
    let bs = q_mul(q_int(b), s);
    let gg = phase_sign(cs, l);
    let pl = q_pow(s, l);
    let dl = deriv_value(l, l, x);
    lemma_target_wf(lm, lm, x, s, cs);
    lemma_target_wf(l, l, x, s, cs);
    // the recurrence, with the value at (l-1, l-1) in place
    lemma_equiv_refl(bs);
    lemma_mul_congruence(bs, a_prev, bs, v_prev);
    if cs {
        lemma_neg_congruence(q_mul(bs, a_prev), q_mul(bs, v_prev));
    }
    lemma_diag_algebra(b, s, pp, g, dd, cs);
    reveal(pow);
    assert(pow(s.0, l) == s.0 * pow(s.0, lm));
    assert(pow(s.1, l) == s.1 * pow(s.1, lm));
    assert(gg == if cs {
        -g
    } else {
        g
    });
    let mid = q_mul(pl, q_scale(gg, q_scale(b, dd)));
    assert(q_equiv(alp(l, l, x, s, cs), mid));
    // the value of the l-th derivative of P_l is (2l-1) times that of P_(l-1)'s
    lemma_diag_value(l, x);
    lemma_diag_value(lm, x);
    lemma_diag_step(l);
    lemma_equiv_symm(dd, diag(lm));
    lemma_scale_congruence(b, diag(lm), dd);
    lemma_equiv_trans(dl, diag(l), q_scale(b, diag(lm)));
    lemma_equiv_trans(dl, q_scale(b, diag(lm)), q_scale(b, dd));
    lemma_equiv_symm(dl, q_scale(b, dd));
    lemma_scale_congruence(gg, q_scale(b, dd), dl);
    lemma_equiv_refl(pl);
    lemma_mul_congruence(pl, q_scale(gg, q_scale(b, dd)), pl, q_scale(gg, dl));
    lemma_wf_add(pl, q_scale(gg, q_scale(b, dd)));
    lemma_equiv_trans(alp(l, l, x, s, cs), mid, alp_target(l, l, x, s, cs));
}

proof fn lemma_alp_offdiag_case(l: nat, x: (int, int), s: (int, int), cs: bool)
    requires
        1 <= l <= u16::MAX,
        q_wf(x),
        q_wf(s),
        q_equiv(
            alp((l - 1) as nat, (l - 1) as nat, x, s, cs),
            alp_target((l - 1) as nat, (l - 1) as nat, x, s, cs),
        ),
    ensures
        q_equiv(alp(l, (l - 1) as nat, x, s, cs), alp_target(l, (l - 1) as nat, x, s, cs)),
{
    let lm = (l - 1) as nat;
    let b: int = 2 * l - 1;
    let a_prev = alp(lm, lm, x, s, cs);
    let pp = q_pow(s, lm);
    let g = phase_sign(cs, lm);
    let dd = deriv_value(lm, lm, x);
    let v_prev = q_mul(pp, q_scale(g, dd));
    let xb = q_mul(x, q_int(b));
    let dl = deriv_value(l, lm, x);
    lemma_target_wf(lm, lm, x, s, cs);
    lemma_target_wf(l, lm, x, s, cs);
    assert(alp(l, lm, x, s, cs) == q_mul(xb, a_prev));
    lemma_equiv_refl(xb);
    lemma_mul_congruence(xb, a_prev, xb, v_prev);
    lemma_offdiag_algebra(b, x, pp, g, dd);
    let inner = q_mul(q_scale(b, dd), x);
    let mid = q_mul(pp, q_scale(g, inner));
    // the value of the (l-1)-th derivative of P_l is (2l-1) x times that of P_(l-1)'s
    lemma_offdiag_value(l, x);
    lemma_diag_value(lm, x);
    lemma_diag_step(l);
    lemma_equiv_symm(dd, diag(lm));
    lemma_scale_congruence(b, diag(lm), dd);
    lemma_equiv_trans(diag(l), q_scale(b, diag(lm)), q_scale(b, dd));
    lemma_equiv_refl(x);
    lemma_mul_congruence(diag(l), x, q_scale(b, dd), x);
    lemma_diag_value(l, x);
    lemma_wf_add(diag(l), x);
    lemma_equiv_trans(dl, q_mul(diag(l), x), inner);
    lemma_equiv_symm(dl, inner);
    lemma_scale_congruence(g, inner, dl);
    lemma_equiv_refl(pp);
    lemma_mul_congruence(pp, q_scale(g, inner), pp, q_scale(g, dl));
    lemma_wf_add(q_scale(b, dd), x);
    lemma_wf_add(pp, q_scale(g, inner));
    lemma_equiv_trans(alp(l, lm, x, s, cs), mid, alp_target(l, lm, x, s, cs));
}

proof fn lemma_alp_general_case(l: nat, m: nat, x: (int, int), s: (int, int), cs: bool)
    requires
        m + 2 <= l <= u16::MAX,
        q_wf(x),
        q_wf(s),
        q_equiv(alp((l - 1) as nat, m, x, s, cs), alp_target((l - 1) as nat, m, x, s, cs)),
        q_equiv(alp((l - 2) as nat, m, x, s, cs), alp_target((l - 2) as nat, m, x, s, cs)),
    ensures
        q_equiv(alp(l, m, x, s, cs), alp_target(l, m, x, s, cs)),
{
    let (a, b, c) = (l - m, 2 * l - 1, l - 1 + m);
    let a1 = alp((l - 1) as nat, m, x, s, cs);
    let a2 = alp((l - 2) as nat, m, x, s, cs);
    let v1 = alp_target((l - 1) as nat, m, x, s, cs);
    let v2 = alp_target((l - 2) as nat, m, x, s, cs);
    let bx = q_mul(q_int(b), x);
    let t1 = q_mul(bx, a1);
    let t2 = q_mul(q_int(c), a2);
    let u1 = q_mul(bx, v1);
    let u2 = q_mul(q_int(c), v2);
    assert(alp(l, m, x, s, cs) == q_div(q_sub(t1, t2), q_int(a)));
    lemma_target_wf((l - 1) as nat, m, x, s, cs);
    lemma_target_wf((l - 2) as nat, m, x, s, cs);
    lemma_target_wf(l, m, x, s, cs);
    lemma_equiv_refl(bx);
    lemma_equiv_refl(q_int(c));
    lemma_equiv_refl(q_int(a));
    lemma_mul_congruence(bx, a1, bx, v1);
    lemma_mul_congruence(q_int(c), a2, q_int(c), v2);
    lemma_add_congruence(t1, t2, u1, u2);
    lemma_div_congruence(q_sub(t1, t2), q_int(a), q_sub(u1, u2), q_int(a));
    lemma_eval_recurrence(l, m, x);
    let pp = q_pow(s, m);
    let g = phase_sign(cs, m);
    lemma_step_algebra(
        a,
        b,
        c,
        x,
        pp,
        g,
        deriv_value(l, m, x),
        deriv_value((l - 1) as nat, m, x),
        deriv_value((l - 2) as nat, m, x),
    );
    lemma_wf_add(q_int(b), x);
    lemma_wf_add(bx, v1);
    lemma_wf_add(q_int(c), v2);
    lemma_wf_add(u1, u2);
    lemma_wf_div(q_sub(u1, u2), q_int(a));
    lemma_equiv_trans(
        alp(l, m, x, s, cs),
        q_div(q_sub(u1, u2), q_int(a)),
        alp_target(l, m, x, s, cs),
    );
}

/// The value of the recurrence at `(l, m)` is `s^m` times the phase times
/// the `m`-th derivative of `P_l` at `x`.
proof fn lemma_alp_value(l: nat, m: nat, x: (int, int), s: (int, int), cs: bool)
    requires
        m <= l <= u16::MAX,
        q_wf(x),
        q_wf(s),
    ensures
        q_equiv(alp(l, m, x, s, cs), alp_target(l, m, x, s, cs)),
    decreases l,
{
    if l == 0 {
        lemma_alp_base(x, s, cs);
    } else if m == l {
        lemma_alp_value((l - 1) as nat, (l - 1) as nat, x, s, cs);
        lemma_alp_diag_case(l, x, s, cs);
    } else if m + 1 == l {
        lemma_alp_value((l - 1) as nat, (l - 1) as nat, x, s, cs);
        lemma_alp_offdiag_case(l, x, s, cs);
    } else {
        lemma_alp_value((l - 1) as nat, m, x, s, cs);
        lemma_alp_value((l - 2) as nat, m, x, s, cs);
        lemma_alp_general_case(l, m, x, s, cs);
    }
}

/// The batch recurrence gives the associated Legendre polynomials: for
/// `m <= l`, its value at `(l, m)` is `s^m` times the value at `x` of the
/// polynomial part of `P_l^m` with the same phase, `s` standing for
/// `sqrt(1 - x^2)`.
pub proof fn law_recurrence_is_associated(
    l: u16,
    m: u16,
    x: (int, int),
    s: (int, int),
    phase: Phase,
)
    requires
        m <= l,
        q_wf(x),
        q_wf(s),
    ensures
        q_equiv(
            alp(l as nat, m as nat, x, s, phase == Phase::CondonShortley),
            q_mul(q_pow(s, m as nat), poly_eval(associated_map(l as nat, m as nat, phase), x)),
        ),
{
    let cs = phase == Phase::CondonShortley;
    lemma_alp_value(l as nat, m as nat, x, s, cs);
    let d = poly_deriv_n(legendre_map(l as nat), m as nat);
    let dv = deriv_value(l as nat, m as nat, x);
    if cs && m % 2 == 1 {
        lemma_eval_below_neg(d, x, 0x10000);
        assert(poly_eval(associated_map(l as nat, m as nat, phase), x) == q_scale(-1, dv));
    } else {
        assert(poly_eval(associated_map(l as nat, m as nat, phase), x) == q_scale(1, dv));
    }
}

// ---------------------------------------------------------------------------
// Reflection `x -> -x`
// ---------------------------------------------------------------------------

/// The `m`-th derivative of `P_l` has only powers of the parity of `l - m`,
/// so at `-x` it takes its value at `x` times `(-1)^(l+m)`.
pub proof fn lemma_deriv_value_reflect(l: nat, m: nat, x: (int, int))
    requires
        l <= u16::MAX,
        q_wf(x),
    ensures
        q_equiv(
            deriv_value(l, m, q_neg(x)),
            q_scale(sign_pow(l + m), deriv_value(l, m, x)),
        ),
{
    let dm = deriv_model(l, m);
    let d = poly_deriv_n(legendre_map(l), m);
    let e: nat = ((l + m) % 2) as nat;
    assert forall|k: u16| dm.contains_key(k) implies k % 2 == e by {}
    lemma_eval_below_parity(dm, x, e, 0x10000);
    lemma_deriv_closed_form(l, m);
    lemma_deriv_model_wf(l, m);
    lemma_legendre_map_wf(l);
    lemma_poly_wf_deriv_n(legendre_map(l), m);
    lemma_equiv_refl(x);
    lemma_equiv_refl(q_neg(x));
    lemma_eval_congruence(d, dm, x, x);
    lemma_eval_congruence(d, dm, q_neg(x), q_neg(x));
    let vx = poly_eval(dm, x);
    let dx = deriv_value(l, m, x);
    lemma_eval_below_wf(dm, x, 0x10000);
    lemma_eval_below_wf(d, x, 0x10000);
    lemma_equiv_symm(dx, vx);
    if e == 0 {
        assert(sign_pow(l + m) == 1);
        assert(q_scale(1, dx) == dx);
        lemma_equiv_trans(deriv_value(l, m, q_neg(x)), vx, dx);
    } else {
        assert(sign_pow(l + m) == -1);
        assert(q_scale(-1, dx) == q_neg(dx));
        lemma_neg_congruence(vx, dx);
        lemma_equiv_trans(deriv_value(l, m, q_neg(x)), q_neg(vx), q_neg(dx));
    }
}

/// The polynomial part of `P_l^m` is even or odd: at `-x` it takes its value
/// at `x` times `(-1)^(l+m)`, in either phase.
pub proof fn law_associated_reflect(l: u16, m: u16, phase: Phase, x: (int, int))
    requires
        q_wf(x),
    ensures
        q_equiv(
            poly_eval(associated_map(l as nat, m as nat, phase), q_neg(x)),
            q_scale(
                sign_pow((l + m) as nat),
                poly_eval(associated_map(l as nat, m as nat, phase), x),
            ),
        ),
{
    let sg = sign_pow((l + m) as nat);
    let d = poly_deriv_n(legendre_map(l as nat), m as nat);
    lemma_deriv_value_reflect(l as nat, m as nat, x);
    if phase == Phase::CondonShortley && m % 2 == 1 {
        lemma_eval_below_neg(d, x, 0x10000);
        lemma_eval_below_neg(d, q_neg(x), 0x10000);
        let dx = deriv_value(l as nat, m as nat, x);
        lemma_neg_congruence(deriv_value(l as nat, m as nat, q_neg(x)), q_scale(sg, dx));
        assert(sg * (-dx.0) == -(sg * dx.0)) by (nonlinear_arith);
        assert(q_neg(q_scale(sg, dx)) == q_scale(sg, q_neg(dx)));
    }
}

/// The polynomial part of `P_l^m` has positive denominators.
proof fn lemma_associated_wf(l: nat, m: nat, phase: Phase)
    ensures
        poly_wf(associated_map(l, m, phase)),
{
    lemma_legendre_map_wf(l);
    lemma_poly_wf_deriv_n(legendre_map(l), m);
    lemma_poly_wf_neg(poly_deriv_n(legendre_map(l), m));
}

/// Reflected, the recurrence value at `(l, m)` is multiplied by
/// `(-1)^(l+m)`: for `y = -x` and the same scalar,
/// `P_l^m(y) = (-1)^(l+m) P_l^m(x)`.
pub proof fn lemma_alp_reflect(
    l: u16,
    m: u16,
    x: (int, int),
    y: (int, int),
    s: (int, int),
    phase: Phase,
)
    requires
        m <= l,
        q_wf(x),
        q_wf(y),
        q_wf(s),
        q_equiv(y, q_neg(x)),
    ensures
        ({
            let cs = phase == Phase::CondonShortley;
            q_equiv(
                alp(l as nat, m as nat, y, s, cs),
                q_scale(sign_pow((l + m) as nat), alp(l as nat, m as nat, x, s, cs)),
            )
        }),
{
    let cs = phase == Phase::CondonShortley;
    let sg = sign_pow((l + m) as nat);
    let a = associated_map(l as nat, m as nat, phase);
    let p = q_pow(s, m as nat);
    let ax = poly_eval(a, x);
    let ay = poly_eval(a, y);
    let anx = poly_eval(a, q_neg(x));
    law_recurrence_is_associated(l, m, x, s, phase);
    law_recurrence_is_associated(l, m, y, s, phase);
    law_associated_reflect(l, m, phase, x);
    lemma_associated_wf(l as nat, m as nat, phase);
    lemma_eval_congruence(a, a, y, q_neg(x));
    lemma_eval_below_wf(a, x, 0x10000);
    lemma_eval_below_wf(a, q_neg(x), 0x10000);
    lemma_eval_below_wf(a, y, 0x10000);
    lemma_wf_pow(s, m as nat);
    // a(y) = a(-x) = sg a(x)
    lemma_equiv_trans(ay, anx, q_scale(sg, ax));
    lemma_equiv_refl(p);
    lemma_mul_congruence(p, ay, p, q_scale(sg, ax));
    assert(sg * (p.0 * ax.0) == p.0 * (sg * ax.0)) by (nonlinear_arith);
    assert(q_scale(sg, q_mul(p, ax)) == q_mul(p, q_scale(sg, ax)));
    // sg alp(x) = sg p a(x)
    lemma_alp_wf(l as nat, m as nat, x, s, cs);
    lemma_alp_wf(l as nat, m as nat, y, s, cs);
    lemma_equiv_symm(alp(l as nat, m as nat, x, s, cs), q_mul(p, ax));
    lemma_scale_congruence(sg, q_mul(p, ax), alp(l as nat, m as nat, x, s, cs));
    lemma_wf_add(p, ay);
    lemma_wf_add(p, ax);
    lemma_equiv_trans(alp(l as nat, m as nat, y, s, cs), q_mul(p, ay), q_mul(p, q_scale(sg, ax)));
    lemma_equiv_trans(
        alp(l as nat, m as nat, y, s, cs),
        q_scale(sg, q_mul(p, ax)),
        q_scale(sg, alp(l as nat, m as nat, x, s, cs)),
    );
}

/// Two batch tables at `x` and at `-x`, with the same scalar, differ at
/// `(l, m)` by the factor `(-1)^(l+m)`.
pub proof fn law_batch_reflect(
    t1: Seq<Vec<Rational>>,
    t2: Seq<Vec<Rational>>,
    rows: nat,
    x: (int, int),
    y: (int, int),
    s: (int, int),
    phase: Phase,
)
    requires
        rows <= 0x10000,
        q_wf(x),
        q_wf(y),
        q_wf(s),
        q_equiv(y, q_neg(x)),
        table_holds(t1, rows, x, s, phase == Phase::CondonShortley),
        table_holds(t2, rows, y, s, phase == Phase::CondonShortley),
    ensures
        forall|l: int, m: int|
            0 <= m <= l < rows ==> q_equiv(
                #[trigger] t2[l]@[m]@,
                q_scale(sign_pow((l + m) as nat), t1[l]@[m]@),
            ),
{
    let cs = phase == Phase::CondonShortley;
    assert forall|l: int, m: int| 0 <= m <= l < rows implies q_equiv(
        #[trigger] t2[l]@[m]@,
        q_scale(sign_pow((l + m) as nat), t1[l]@[m]@),
    ) by {
        let sg = sign_pow((l + m) as nat);
        let c1 = t1[l]@[m]@;
        let c2 = t2[l]@[m]@;
        let a1 = alp(l as nat, m as nat, x, s, cs);
        let a2 = alp(l as nat, m as nat, y, s, cs);
        assert(holds_alp(t1[l]@[m], l as nat, m as nat, x, s, cs));
        assert(holds_alp(t2[l]@[m], l as nat, m as nat, y, s, cs));
        lemma_alp_reflect(l as u16, m as u16, x, y, s, phase);
        lemma_alp_wf(l as nat, m as nat, x, s, cs);
        lemma_alp_wf(l as nat, m as nat, y, s, cs);
        lemma_equiv_symm(c1, a1);
        lemma_scale_congruence(sg, a1, c1);
        lemma_equiv_trans(c2, a2, q_scale(sg, a1));
        lemma_equiv_trans(c2, q_scale(sg, a1), q_scale(sg, c1));
    }
}

} // verus!
