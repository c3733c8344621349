//! `P_n(1) = 1`, by Bonnet's recursion
//! `(n+1) P_(n+1) = (2n+1) x P_n - n P_(n-1)` taken at `x = 1`.

use crate::integer::factorial;
use crate::legendre::{legendre_map, legendre_term, lemma_legendre_term_wf, sign_pow};
use crate::poly_model::{poly_eval, poly_eval_below};
use crate::rational::{
    lemma_add_congruence, lemma_equiv_trans, lemma_wf_add, q_add, q_equiv, q_int, q_pow, q_sub,
    q_wf,
};
use vstd::arithmetic::power::*;
use vstd::prelude::*;

verus! {

/// `a * x` for an integer `a`.
pub open spec fn q_scale(a: int, x: (int, int)) -> (int, int) {
    (a * x.0, x.1)
}

/// The coefficient of `x^k` in `P_m`, zero where `P_m` has no such term.
pub open spec fn legendre_or_zero(m: int, k: int) -> (int, int) {
    if 0 <= k <= m && (m - k) % 2 == 0 {
        legendre_term(m as nat, ((m - k) / 2) as nat)
    } else {
        (0, 1)
    }
}

/// Bonnet's recursion, coefficient by coefficient: for `n >= 1`,
/// `(n+1) c_(n+1)(k) = (2n+1) c_n(k-1) - n c_(n-1)(k)`.
pub proof fn lemma_bonnet_term(n: int, k: int)
    requires
        n >= 1,
    ensures
        q_equiv(
            q_scale(n + 1, legendre_or_zero(n + 1, k)),
            q_sub(
                q_scale(2 * n + 1, legendre_or_zero(n, k - 1)),
                q_scale(n, legendre_or_zero(n - 1, k)),
            ),
        ),
{
    let b = 2 * n + 1;
    let c = n;
    if !(0 <= k <= n + 1 && (n + 1 - k) % 2 == 0) {
        assert(legendre_or_zero(n + 1, k) == (0int, 1int));
        assert(legendre_or_zero(n, k - 1) == (0int, 1int));
        assert(legendre_or_zero(n - 1, k) == (0int, 1int));
        assert(b * 0 == 0 && c * 0 == 0 && (n + 1) * 0 == 0) by (nonlinear_arith);
    } else {
        let j: int = (n + 1 - k) / 2;
        assert(k == n + 1 - 2 * j);
        let t1 = legendre_term((n + 1) as nat, j as nat);
        assert(legendre_or_zero(n + 1, k) == t1);
        if j == 0 {
            bonnet_top(n);
        } else if k == 0 {
            bonnet_bottom(n, j);
        } else {
            bonnet_middle(n, j);
        }
    }
}

proof fn bonnet_top(n: int)
    requires
        n >= 1,
    ensures
        q_equiv(
            q_scale(n + 1, legendre_or_zero(n + 1, n + 1)),
            q_sub(
                q_scale(2 * n + 1, legendre_or_zero(n, n)),
                q_scale(n, legendre_or_zero(n - 1, n + 1)),
            ),
        ),
{
    let t1 = legendre_term((n + 1) as nat, 0);
    let t2 = legendre_term(n as nat, 0);
    assert(legendre_or_zero(n + 1, n + 1) == t1);
    assert(legendre_or_zero(n, n) == t2);
    assert(legendre_or_zero(n - 1, n + 1) == (0int, 1int));
    let a: int = factorial((2 * n) as nat) as int;
    let f: int = factorial(n as nat) as int;
    let p: int = pow(2, n as nat);
    reveal(pow);
    assert(pow(2, (n + 1) as nat) == 2 * p);
    assert(factorial((2 * (n + 1)) as nat) == (2 * n + 2) * ((2 * n + 1) * a)) by {
        assert(factorial((2 * n + 2) as nat) == (2 * n + 2) * factorial((2 * n + 1) as nat));
        assert(factorial((2 * n + 1) as nat) == (2 * n + 1) * factorial((2 * n) as nat));
    }
    assert(factorial((n + 1) as nat) == (n + 1) * f);
    assert(factorial(0) == 1);
    assert(sign_pow(0) == 1);
    assert(t1.0 == (2 * n + 2) * ((2 * n + 1) * a)) by (nonlinear_arith)
        requires
            t1.0 == 1 * factorial((2 * (n + 1) - 2 * 0) as nat),
            factorial((2 * (n + 1)) as nat) == (2 * n + 2) * ((2 * n + 1) * a),
    ;
    assert(t1.1 == (2 * p) * ((n + 1) * f) * ((n + 1) * f)) by (nonlinear_arith)
        requires
            t1.1 == pow(2, (n + 1) as nat) * 1 * factorial((n + 1) as nat) * factorial((n + 1) as nat),
            pow(2, (n + 1) as nat) == 2 * p,
            factorial((n + 1) as nat) == (n + 1) * f,
    ;
    assert(t2.0 == a) by (nonlinear_arith)
        requires
            t2.0 == 1 * factorial((2 * n - 0) as nat),
            a == factorial((2 * n) as nat),
    ;
    assert(t2.1 == p * f * f) by (nonlinear_arith)
        requires
            t2.1 == pow(2, n as nat) * 1 * factorial(n as nat) * factorial(n as nat),
            p == pow(2, n as nat),
            f == factorial(n as nat),
    ;
    let lhs = q_scale(n + 1, t1);
    let rhs = q_sub(q_scale(2 * n + 1, t2), q_scale(n, (0, 1)));
    assert(rhs == ((2 * n + 1) * a * 1 - n * 0 * (p * f * f), (p * f * f) * 1));
    let q: int = (n + 1) * (n + 1);
    let z: int = (2 * n + 1) * a;
    let y: int = p * f * f;
    assert(lhs.0 == 2 * q * z) by (nonlinear_arith)
        requires
            lhs.0 == (n + 1) * ((2 * n + 2) * ((2 * n + 1) * a)),
            q == (n + 1) * (n + 1),
            z == (2 * n + 1) * a,
    ;
    assert(lhs.1 == 2 * q * y) by (nonlinear_arith)
        requires
            lhs.1 == (2 * p) * ((n + 1) * f) * ((n + 1) * f),
            q == (n + 1) * (n + 1),
            y == p * f * f,
    ;
    assert(n * 0 * y == 0) by (nonlinear_arith);
    assert(rhs.0 == z && rhs.1 == y);
    assert((2 * q * z) * y == z * (2 * q * y)) by (nonlinear_arith);
}

proof fn bonnet_bottom(n: int, j: int)
    requires
        n >= 1,
        j >= 1,
        2 * j == n + 1,
    ensures
        q_equiv(
            q_scale(n + 1, legendre_or_zero(n + 1, 0)),
            q_sub(
                q_scale(2 * n + 1, legendre_or_zero(n, -1)),
                q_scale(n, legendre_or_zero(n - 1, 0)),
            ),
        ),
{
    let t1 = legendre_term((n + 1) as nat, j as nat);
    let t3 = legendre_term((n - 1) as nat, (j - 1) as nat);
    assert(legendre_or_zero(n + 1, 0) == t1);
    assert(legendre_or_zero(n, -1) == (0int, 1int));
    assert(legendre_or_zero(n - 1, 0) == t3);
    let s: int = sign_pow(j as nat);
    assert(sign_pow((j - 1) as nat) == -s);
    let a: int = factorial((n - 1) as nat) as int;
    let g: int = factorial((j - 1) as nat) as int;
    let p: int = pow(2, (n - 1) as nat);
    reveal(pow);
    assert(pow(2, (n + 1) as nat) == 2 * (2 * p)) by {
        assert(pow(2, n as nat) == 2 * p);
    }
    assert(factorial((n + 1) as nat) == (n + 1) * (n * a)) by {
        assert(factorial((n + 1) as nat) == (n + 1) * factorial(n as nat));
        assert(factorial(n as nat) == n * factorial((n - 1) as nat));
    }
    assert(factorial(j as nat) == j * g);
    assert(factorial(0) == 1);
    // t1 = (s (n+1)!, 2^(n+1) j! j! 0!)
    assert((2 * (n + 1) - 2 * j) == n + 1);
    assert((n + 1 - j) == j);
    assert((n + 1 - 2 * j) == 0);
    assert(t1.0 == s * ((n + 1) * (n * a)));
    assert(t1.1 == (2 * (2 * p)) * (j * g) * (j * g) * 1);
    // t3 = (-s (n-1)!, 2^(n-1) (j-1)! (j-1)! 0!)
    assert((2 * (n - 1) - 2 * (j - 1)) == n - 1);
    assert((n - 1 - (j - 1)) == j - 1);
    assert((n - 1 - 2 * (j - 1)) == 0);
    assert(t3.0 == (-s) * a);
    assert(t3.1 == p * g * g * 1);
    let lhs = q_scale(n + 1, t1);
    let rhs = q_sub(q_scale(2 * n + 1, (0, 1)), q_scale(n, t3));
    assert(rhs == ((2 * n + 1) * 0 * t3.1 - (n * t3.0) * 1, 1 * t3.1));
    let x: int = s * a;
    let y: int = p * (g * g);
    let l0: int = (n + 1) * (s * ((n + 1) * (n * a)));
    let l1: int = (2 * (2 * p)) * (j * g) * (j * g) * 1;
    let r0: int = (2 * n + 1) * 0 * (p * g * g * 1) - (n * ((-s) * a)) * 1;
    let r1: int = 1 * (p * g * g * 1);
    assert(l0 == ((n + 1) * (n + 1)) * (n * x)) by (nonlinear_arith)
        requires
            l0 == (n + 1) * (s * ((n + 1) * (n * a))),
            x == s * a,
    ;
    assert(l1 == (4 * (j * j)) * y) by (nonlinear_arith)
        requires
            l1 == (2 * (2 * p)) * (j * g) * (j * g) * 1,
            y == p * (g * g),
    ;
    assert(r0 == n * x) by (nonlinear_arith)
        requires
            r0 == (2 * n + 1) * 0 * (p * g * g * 1) - (n * ((-s) * a)) * 1,
            x == s * a,
    ;
    assert(r1 == y) by (nonlinear_arith)
        requires
            r1 == 1 * (p * g * g * 1),
            y == p * (g * g),
    ;
    assert((n + 1) * (n + 1) == 4 * (j * j)) by (nonlinear_arith)
        requires
            n + 1 == 2 * j,
    ;
    assert(l0 * r1 == r0 * l1) by (nonlinear_arith)
        requires
            l0 == ((n + 1) * (n + 1)) * (n * x),
            l1 == (4 * (j * j)) * y,
            r0 == n * x,
            r1 == y,
            (n + 1) * (n + 1) == 4 * (j * j),
    ;
    assert(lhs.0 == l0 && lhs.1 == l1 && rhs.0 == r0 && rhs.1 == r1);
}

proof fn bonnet_middle(n: int, j: int)
    requires
        n >= 1,
        j >= 1,
        2 * j <= n,
    ensures
        q_equiv(
            q_scale(n + 1, legendre_or_zero(n + 1, n + 1 - 2 * j)),
            q_sub(
                q_scale(2 * n + 1, legendre_or_zero(n, n - 2 * j)),
                q_scale(n, legendre_or_zero(n - 1, n + 1 - 2 * j)),
            ),
        ),
{
    let t1 = legendre_term((n + 1) as nat, j as nat);
    let t2 = legendre_term(n as nat, j as nat);
    let t3 = legendre_term((n - 1) as nat, (j - 1) as nat);
    assert(legendre_or_zero(n + 1, n + 1 - 2 * j) == t1);
    assert(legendre_or_zero(n, n - 2 * j) == t2);
    assert(legendre_or_zero(n - 1, n + 1 - 2 * j) == t3);
    let s: int = sign_pow(j as nat);
    assert(sign_pow((j - 1) as nat) == -s);
    let v: int = n + 1 - j;
    let w: int = 2 * n + 1 - 2 * j;
    let u: int = n + 1 - 2 * j;
    let a: int = factorial((2 * n - 2 * j) as nat) as int;
    let bb: int = factorial((j - 1) as nat) as int;
    let cc: int = factorial((n - j) as nat) as int;
    let e: int = factorial((n - 2 * j) as nat) as int;
    let p: int = pow(2, (n - 1) as nat);
    reveal(pow);
    assert(pow(2, n as nat) == 2 * p);
    assert(pow(2, (n + 1) as nat) == 2 * (2 * p));
    assert(factorial((2 * (n + 1) - 2 * j) as nat) == (2 * v) * (w * a)) by {
        assert(factorial((2 * v) as nat) == (2 * v) * factorial((2 * v - 1) as nat));
        assert(factorial((2 * v - 1) as nat) == w * factorial((2 * v - 2) as nat));
    }
    assert(factorial(j as nat) == j * bb);
    assert(factorial((n + 1 - j) as nat) == v * cc);
    assert(factorial((n + 1 - 2 * j) as nat) == u * e);
    assert((2 * (n - 1) - 2 * (j - 1)) == 2 * n - 2 * j);
    assert((n - 1 - (j - 1)) == n - j);
    assert((n - 1 - 2 * (j - 1)) == u);
    let k: int = s * a;
    let m: int = ((p * bb) * cc) * e;
    // t1 = (2 v w k, 4 j v u m)
    assert(t1.0 == s * ((2 * v) * (w * a)));
    assert(t1.0 == (2 * v * w) * k) by (nonlinear_arith)
        requires
            t1.0 == s * ((2 * v) * (w * a)),
            k == s * a,
    ;
    assert(t1.1 == (2 * (2 * p)) * (j * bb) * (v * cc) * (u * e));
    assert((2 * (2 * p)) * (j * bb) == (4 * j) * (p * bb)) by (nonlinear_arith);
    assert(((4 * j) * (p * bb)) * (v * cc) == (4 * j * v) * ((p * bb) * cc)) by (nonlinear_arith);
    assert(((4 * j * v) * ((p * bb) * cc)) * (u * e) == (4 * j * v * u) * m) by (nonlinear_arith)
        requires
            m == ((p * bb) * cc) * e,
    ;
    assert(t1.1 == (4 * j * v * u) * m);
    // t2 = (k, 2 j m)
    assert(t2.0 == k);
    assert(t2.1 == (2 * p) * (j * bb) * cc * e);
    assert((2 * p) * (j * bb) == (2 * j) * (p * bb)) by (nonlinear_arith);
    assert(((2 * j) * (p * bb)) * cc == (2 * j) * ((p * bb) * cc)) by (nonlinear_arith);
    assert(((2 * j) * ((p * bb) * cc)) * e == (2 * j) * m) by (nonlinear_arith)
        requires
            m == ((p * bb) * cc) * e,
    ;
    assert(t2.1 == (2 * j) * m);
    // t3 = (-k, u m)
    assert(t3.0 == (-s) * a);
    assert((-s) * a == -k) by (nonlinear_arith)
        requires
            k == s * a,
    ;
    assert(t3.1 == p * bb * cc * (u * e));
    assert(((p * bb) * cc) * (u * e) == u * m) by (nonlinear_arith)
        requires
            m == ((p * bb) * cc) * e,
    ;
    assert(t3.1 == u * m);
    let b: int = 2 * n + 1;
    let lhs = q_scale(n + 1, t1);
    let rhs = q_sub(q_scale(b, t2), q_scale(n, t3));
    let mm: int = m * m;
    let km: int = k * m;
    let lhs0: int = (n + 1) * ((2 * v * w) * k);
    let lhs1: int = (4 * j * v * u) * m;
    let rhs0: int = (b * k) * (u * m) - (n * (-k)) * ((2 * j) * m);
    let rhs1: int = ((2 * j) * m) * (u * m);
    assert(lhs.0 == lhs0);
    assert(lhs.1 == lhs1);
    assert(rhs.0 == rhs0);
    assert(rhs.1 == rhs1);
    assert((b * k) * (u * m) == (b * u) * km) by (nonlinear_arith)
        requires
            km == k * m,
    ;
    assert((n * (-k)) * ((2 * j) * m) == -((2 * n * j) * km)) by (nonlinear_arith)
        requires
            km == k * m,
    ;
    assert(rhs0 == (b * u + 2 * n * j) * km) by (nonlinear_arith)
        requires
            rhs0 == (b * u) * km + (2 * n * j) * km,
    ;
    assert(b * u + 2 * n * j == (n + 1) * w) by (nonlinear_arith)
        requires
            b == 2 * n + 1,
            u == n + 1 - 2 * j,
            w == 2 * n + 1 - 2 * j,
    ;
    assert(rhs1 == (2 * j * u) * mm) by (nonlinear_arith)
        requires
            rhs1 == ((2 * j) * m) * (u * m),
            mm == m * m,
    ;
    assert(lhs0 * rhs1 == ((n + 1) * w) * ((2 * v) * (2 * j * u)) * (k * mm)) by (nonlinear_arith)
        requires
            lhs0 == (n + 1) * ((2 * v * w) * k),
            rhs1 == (2 * j * u) * mm,
    ;
    assert(rhs0 * lhs1 == ((n + 1) * w) * ((2 * v) * (2 * j * u)) * (k * mm)) by (nonlinear_arith)
        requires
            rhs0 == ((n + 1) * w) * km,
            lhs1 == (4 * j * v * u) * m,
            km == k * m,
            mm == m * m,
    ;
}

/// `f(0) + f(1) + ... + f(i-1)`, summed from the left.
pub open spec fn q_sum(f: spec_fn(int) -> (int, int), i: nat) -> (int, int)
    decreases i,
{
    if i == 0 {
        (0, 1)
    } else {
        q_add(q_sum(f, (i - 1) as nat), f(i - 1))
    }
}

pub proof fn lemma_scale_add(a: int, x: (int, int), y: (int, int))
    ensures
        q_scale(a, q_add(x, y)) == q_add(q_scale(a, x), q_scale(a, y)),
{
    assert(a * (x.0 * y.1 + y.0 * x.1) == (a * x.0) * y.1 + (a * y.0) * x.1) by (nonlinear_arith);
}

pub proof fn lemma_add_of_subs(p: (int, int), r: (int, int), s: (int, int), t: (int, int))
    ensures
        q_add(q_sub(p, r), q_sub(s, t)) == q_sub(q_add(p, s), q_add(r, t)),
{
    let (p0, p1, r0, r1, s0, s1, t0, t1) = (p.0, p.1, r.0, r.1, s.0, s.1, t.0, t.1);
    assert((p0 * r1) * (s1 * t1) == (p0 * s1) * (r1 * t1)) by (nonlinear_arith);
    assert((r0 * p1) * (s1 * t1) == (r0 * t1) * (p1 * s1)) by (nonlinear_arith);
    assert((s0 * t1) * (p1 * r1) == (s0 * p1) * (r1 * t1)) by (nonlinear_arith);
    assert((t0 * s1) * (p1 * r1) == (t0 * r1) * (p1 * s1)) by (nonlinear_arith);
    assert((p1 * r1) * (s1 * t1) == (p1 * s1) * (r1 * t1)) by (nonlinear_arith);
    let (x, y, z, w) = (p0 * r1, r0 * p1, s0 * t1, t0 * s1);
    let (e, f) = (s1 * t1, p1 * r1);
    assert((x - y) * e + (z - w) * f == x * e - y * e + z * f - w * f) by (nonlinear_arith);
    let (x2, y2, z2, w2) = (p0 * s1, s0 * p1, r0 * t1, t0 * r1);
    let (e2, f2) = (r1 * t1, p1 * s1);
    assert((x2 + y2) * e2 - (z2 + w2) * f2 == x2 * e2 + y2 * e2 - z2 * f2 - w2 * f2) by (nonlinear_arith);
}

/// A linear relation between the terms of three sums holds between the sums.
pub proof fn lemma_sum_linear(
    f: spec_fn(int) -> (int, int),
    g: spec_fn(int) -> (int, int),
    h: spec_fn(int) -> (int, int),
    a: int,
    b: int,
    c: int,
    i: nat,
)
    requires
        forall|k: int|
            0 <= k < i ==> q_equiv(
                #[trigger] q_scale(a, f(k)),
                q_sub(q_scale(b, g(k)), q_scale(c, h(k))),
            ),
    ensures
        q_equiv(q_scale(a, q_sum(f, i)), q_sub(q_scale(b, q_sum(g, i)), q_scale(c, q_sum(h, i)))),
    decreases i,
{
    if i == 0 {
        assert(a * 0 == 0 && b * 0 == 0 && c * 0 == 0) by (nonlinear_arith);
    } else {
        let j = (i - 1) as nat;
        lemma_sum_linear(f, g, h, a, b, c, j);
        let (sf, sg, sh) = (q_sum(f, j), q_sum(g, j), q_sum(h, j));
        let (vf, vg, vh) = (f(j as int), g(j as int), h(j as int));
        assert(q_equiv(q_scale(a, vf), q_sub(q_scale(b, vg), q_scale(c, vh))));
        lemma_scale_add(a, sf, vf);
        lemma_add_congruence(
            q_scale(a, sf),
            q_scale(a, vf),
            q_sub(q_scale(b, sg), q_scale(c, sh)),
            q_sub(q_scale(b, vg), q_scale(c, vh)),
        );
        lemma_add_of_subs(q_scale(b, sg), q_scale(c, sh), q_scale(b, vg), q_scale(c, vh));
        lemma_scale_add(b, sg, vg);
        lemma_scale_add(c, sh, vh);
    }
}

/// Terms equal to zero at the end do not change a sum.
pub proof fn lemma_sum_zero_tail(f: spec_fn(int) -> (int, int), i: nat, j: nat)
    requires
        i <= j,
        forall|k: int| i <= k < j ==> #[trigger] f(k) == (0int, 1int),
    ensures
        q_sum(f, j) == q_sum(f, i),
    decreases j,
{
    if j > i {
        lemma_sum_zero_tail(f, i, (j - 1) as nat);
        let prev = q_sum(f, (j - 1) as nat);
        assert(prev.0 * 1 + 0 * prev.1 == prev.0 && prev.1 * 1 == prev.1) by (nonlinear_arith);
    }
}

/// Every term of a sum has a positive denominator, so has the sum.
pub proof fn lemma_sum_wf(f: spec_fn(int) -> (int, int), i: nat)
    requires
        forall|k: int| 0 <= k < i ==> q_wf(#[trigger] f(k)),
    ensures
        q_wf(q_sum(f, i)),
    decreases i,
{
    if i > 0 {
        lemma_sum_wf(f, (i - 1) as nat);
        lemma_wf_add(q_sum(f, (i - 1) as nat), f(i - 1));
    }
}

/// The coefficients of `P_m`, as a function of the power.
pub open spec fn legendre_coefficients(m: int) -> spec_fn(int) -> (int, int) {
    |k: int| legendre_or_zero(m, k)
}

/// The coefficients of `x P_m`, as a function of the power.
pub open spec fn shifted_coefficients(m: int) -> spec_fn(int) -> (int, int) {
    |k: int| legendre_or_zero(m, k - 1)
}

proof fn lemma_sum_shift(m: int, i: nat)
    ensures
        q_sum(shifted_coefficients(m), i + 1) == q_sum(legendre_coefficients(m), i),
    decreases i,
{
    let sh = shifted_coefficients(m);
    let co = legendre_coefficients(m);
    assert(q_sum(sh, i + 1) == q_add(q_sum(sh, i), sh(i as int)));
    assert(sh(i as int) == legendre_or_zero(m, i - 1));
    if i == 0 {
        assert(legendre_or_zero(m, -1) == (0int, 1int));
        assert(q_sum(sh, 0) == (0int, 1int));
        assert(0 * 1 + 0 * 1 == 0 && 1 * 1 == 1) by (nonlinear_arith);
    } else {
        lemma_sum_shift(m, (i - 1) as nat);
        assert(q_sum(co, i) == q_add(q_sum(co, (i - 1) as nat), co(i - 1)));
        assert(co(i - 1) == legendre_or_zero(m, i - 1));
    }
}

/// Taken at 1, the value of `P_m` is the sum of its coefficients.
proof fn lemma_eval_at_one(m: nat, i: nat)
    requires
        i <= 0x10000,
    ensures
        poly_eval_below(legendre_map(m), q_int(1), i) == q_sum(legendre_coefficients(m as int), i),
    decreases i,
{
    if i > 0 {
        lemma_eval_at_one(m, (i - 1) as nat);
        let k = (i - 1) as u16;
        let prev = q_sum(legendre_coefficients(m as int), (i - 1) as nat);
        if legendre_map(m).contains_key(k) {
            let c = legendre_map(m)[k];
            assert(c == legendre_or_zero(m as int, k as int));
            lemma1_pow(k as nat);
            assert(q_pow(q_int(1), k as nat) == (1int, 1int));
            assert(c.0 * 1 == c.0 && c.1 * 1 == c.1) by (nonlinear_arith);
        } else {
            assert(legendre_or_zero(m as int, k as int) == (0int, 1int));
            assert(prev.0 * 1 + 0 * prev.1 == prev.0 && prev.1 * 1 == prev.1) by (nonlinear_arith);
        }
    }
}

pub proof fn lemma_coefficients_wf(m: int, i: nat)
    ensures
        forall|k: int| 0 <= k < i ==> q_wf(#[trigger] legendre_coefficients(m)(k)),
{
    assert forall|k: int| 0 <= k < i implies q_wf(#[trigger] legendre_coefficients(m)(k)) by {
        if 0 <= k <= m && (m - k) % 2 == 0 {
            lemma_legendre_term_wf(m as nat, ((m - k) / 2) as nat);
        }
    }
}

/// `P_m(1) = 1`: taken at 1, every Legendre polynomial is 1.
pub proof fn law_legendre_at_one(m: u16)
    ensures
        q_equiv(poly_eval(legendre_map(m as nat), q_int(1)), q_int(1)),
    decreases m,
{
    let full: nat = 0x10000;
    lemma_eval_at_one(m as nat, full);
    let am = q_sum(legendre_coefficients(m as int), full);
    if m == 0 {
        assert forall|k: int| 1 <= k < full implies #[trigger] legendre_coefficients(0)(k) == (0int, 1int) by {}
        lemma_sum_zero_tail(legendre_coefficients(0), 1, full);
        assert(factorial(0) == 1);
        assert(legendre_term(0, 0) == (1int, 1int)) by {
            reveal(pow);
            assert(pow(2, 0) == 1);
            assert(sign_pow(0) == 1);
        }
        let co = legendre_coefficients(0);
        assert(co(0) == legendre_or_zero(0, 0));
        assert(legendre_or_zero(0, 0) == legendre_term(0, 0));
        assert(q_sum(co, 1) == q_add(q_sum(co, 0), co(0)));
        assert(q_sum(co, 0) == (0int, 1int));
        assert(q_add((0, 1), (1, 1)) == (1int, 1int));
        assert(q_equiv(am, q_int(1)));
    } else if m == 1 {
        assert forall|k: int| 2 <= k < full implies #[trigger] legendre_coefficients(1)(k) == (0int, 1int) by {}
        lemma_sum_zero_tail(legendre_coefficients(1), 2, full);
        assert(factorial(1) == 1) by {
            assert(factorial(0) == 1);
        }
        assert(factorial(2) == 2) by {
            assert(factorial(1) == 1 * factorial(0));
        }
        assert(legendre_term(1, 0) == (2int, 2int)) by {
            reveal(pow);
            assert(pow(2, 1) == 2 * pow(2, 0));
        }
        let co = legendre_coefficients(1);
        assert(co(0) == legendre_or_zero(1, 0));
        assert(co(0) == (0int, 1int));
        assert(co(1) == legendre_or_zero(1, 1));
        assert(legendre_or_zero(1, 1) == legendre_term(1, 0));
        assert(co(1) == (2int, 2int));
        assert(q_sum(co, 0) == (0int, 1int));
        assert(q_sum(co, 1) == q_add(q_sum(co, 0), co(0)));
        assert(q_sum(co, 1) == (0int, 1int));
        assert(q_sum(co, 2) == q_add(q_sum(co, 1), co(1)));
        assert(q_sum(co, 2) == (2int, 2int));
        assert(q_equiv(am, q_int(1)));
    } else {
        let n: int = m - 1;
        law_legendre_at_one((m - 1) as u16);
        law_legendre_at_one((m - 2) as u16);
        lemma_eval_at_one((m - 1) as nat, full);
        lemma_eval_at_one((m - 2) as nat, full);
        let an = q_sum(legendre_coefficients(n), full);
        let ap = q_sum(legendre_coefficients(n - 1), full);
        // Bonnet's recursion, summed over the powers
        assert forall|k: int| 0 <= k < full implies q_equiv(
            #[trigger] q_scale(n + 1, legendre_coefficients(n + 1)(k)),
            q_sub(
                q_scale(2 * n + 1, shifted_coefficients(n)(k)),
                q_scale(n, legendre_coefficients(n - 1)(k)),
            ),
        ) by {
            lemma_bonnet_term(n, k);
        }
        lemma_sum_linear(
            legendre_coefficients(n + 1),
            shifted_coefficients(n),
            legendre_coefficients(n - 1),
            n + 1,
            2 * n + 1,
            n,
            full,
        );
        lemma_sum_shift(n, (full - 1) as nat);
        assert forall|k: int| full - 1 <= k < full implies #[trigger] legendre_coefficients(n)(k) == (0int, 1int) by {}
        lemma_sum_zero_tail(legendre_coefficients(n), (full - 1) as nat, full);
        assert(q_sum(shifted_coefficients(n), full) == an);
        // the values of P_n and P_(n-1) at 1 are 1
        lemma_coefficients_wf(n, full);
        lemma_coefficients_wf(n - 1, full);
        lemma_coefficients_wf(n + 1, full);
        lemma_sum_wf(legendre_coefficients(n), full);
        lemma_sum_wf(legendre_coefficients(n - 1), full);
        lemma_sum_wf(legendre_coefficients(n + 1), full);
        lemma_scale_congruence(2 * n + 1, an, q_int(1));
        lemma_scale_congruence(n, ap, q_int(1));
        lemma_add_congruence(
            q_scale(2 * n + 1, an),
            q_scale(n, ap),
            q_scale(2 * n + 1, q_int(1)),
            q_scale(n, q_int(1)),
        );
        let mid = q_sub(q_scale(2 * n + 1, an), q_scale(n, ap));
        lemma_wf_add(an, ap);
        lemma_equiv_trans(q_scale(n + 1, am), mid, q_sub(q_scale(2 * n + 1, q_int(1)), q_scale(n, q_int(1))));
        assert(q_sub(q_scale(2 * n + 1, q_int(1)), q_scale(n, q_int(1))) == (n + 1, 1int)) by (nonlinear_arith);
        // so (n + 1) P_m(1) = n + 1
        assert((n + 1) * am.0 * 1 == (n + 1) * am.1);
        assert(am.0 == am.1) by (nonlinear_arith)
            requires
                (n + 1) * am.0 * 1 == (n + 1) * am.1,
                n + 1 > 0,
        ;
        assert(q_equiv(am, q_int(1)));
    }
}

pub proof fn lemma_scale_congruence(a: int, x: (int, int), y: (int, int))
    requires
        q_equiv(x, y),
    ensures
        q_equiv(q_scale(a, x), q_scale(a, y)),
{
    assert((a * x.0) * y.1 == (a * y.0) * x.1) by (nonlinear_arith)
        requires
            x.0 * y.1 == y.0 * x.1,
    ;
}

} // verus!
