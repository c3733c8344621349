//! Polynomials as maps from powers to rational coefficients, and the
//! operations on them that the library performs.

use crate::rational::{
    lemma_add_congruence, lemma_equiv_trans, lemma_mul_congruence, lemma_neg_congruence,
    lemma_pow_congruence, lemma_wf_add, lemma_wf_pow, q_add, q_equiv, q_int, q_mul, q_neg,
    q_pow, q_wf,
};
use vstd::arithmetic::power::pow;
use vstd::prelude::*;

verus! {

/// Every coefficient has a positive denominator.
pub open spec fn poly_wf(p: Map<u16, (int, int)>) -> bool {
    forall|k: u16| p.contains_key(k) ==> q_wf(#[trigger] p[k])
}

/// Same powers, and equal coefficients at each power.
pub open spec fn poly_equiv(p: Map<u16, (int, int)>, q: Map<u16, (int, int)>) -> bool {
    &&& p.dom() == q.dom()
    &&& forall|k: u16| p.contains_key(k) ==> q_equiv(#[trigger] p[k], q[k])
}

/// `r` is the order of `p`: its highest power, or 0 when it has no term.
pub open spec fn is_order(p: Map<u16, (int, int)>, r: u16) -> bool {
    &&& p.dom().is_empty() ==> r == 0
    &&& !p.dom().is_empty() ==> p.contains_key(r)
    &&& forall|k: u16| p.contains_key(k) ==> k <= r
}

/// Every coefficient negated.
pub open spec fn poly_neg(p: Map<u16, (int, int)>) -> Map<u16, (int, int)> {
    Map::new(|k: u16| p.contains_key(k), |k: u16| q_neg(p[k]))
}

/// The derivative: the term `c x^(k+1)` becomes `c (k+1) x^k`; a constant
/// term disappears.
pub open spec fn poly_deriv(p: Map<u16, (int, int)>) -> Map<u16, (int, int)> {
    Map::new(
        |k: u16| k < u16::MAX && p.contains_key((k + 1) as u16),
        |k: u16| q_mul(p[(k + 1) as u16], q_int(k + 1)),
    )
}

/// The derivative taken `i` times.
pub open spec fn poly_deriv_n(p: Map<u16, (int, int)>, i: nat) -> Map<u16, (int, int)>
    decreases i,
{
    if i == 0 {
        p
    } else {
        poly_deriv(poly_deriv_n(p, (i - 1) as nat))
    }
}

/// The sum of the terms whose power is below `i`, in increasing power.
pub open spec fn poly_eval_below(p: Map<u16, (int, int)>, x: (int, int), i: nat) -> (int, int)
    decreases i,
{
    if i == 0 {
        (0, 1)
    } else {
        let prev = poly_eval_below(p, x, (i - 1) as nat);
        let k = (i - 1) as u16;
        if i <= 0x10000 && p.contains_key(k) {
            q_add(prev, q_mul(p[k], q_pow(x, k as nat)))
        } else {
            prev
        }
    }
}

/// The value of the polynomial at `x`.
pub open spec fn poly_eval(p: Map<u16, (int, int)>, x: (int, int)) -> (int, int) {
    poly_eval_below(p, x, 0x10000)
}

// ---------------------------------------------------------------------------

pub proof fn lemma_poly_equiv_trans(
    p: Map<u16, (int, int)>,
    q: Map<u16, (int, int)>,
    r: Map<u16, (int, int)>,
)
    requires
        poly_equiv(p, q),
        poly_equiv(q, r),
        poly_wf(q),
    ensures
        poly_equiv(p, r),
{
    assert forall|k: u16| p.contains_key(k) implies q_equiv(#[trigger] p[k], r[k]) by {
        lemma_equiv_trans(p[k], q[k], r[k]);
    }
}

pub proof fn lemma_poly_neg_congruence(p: Map<u16, (int, int)>, q: Map<u16, (int, int)>)
    requires
        poly_equiv(p, q),
    ensures
        poly_equiv(poly_neg(p), poly_neg(q)),
{
    assert(poly_neg(p).dom() =~= poly_neg(q).dom());
    assert forall|k: u16| poly_neg(p).contains_key(k) implies q_equiv(
        #[trigger] poly_neg(p)[k],
        poly_neg(q)[k],
    ) by {
        lemma_neg_congruence(p[k], q[k]);
    }
}

pub proof fn lemma_poly_deriv_congruence(p: Map<u16, (int, int)>, q: Map<u16, (int, int)>)
    requires
        poly_equiv(p, q),
    ensures
        poly_equiv(poly_deriv(p), poly_deriv(q)),
{
    assert(poly_deriv(p).dom() =~= poly_deriv(q).dom());
    assert forall|k: u16| poly_deriv(p).contains_key(k) implies q_equiv(
        #[trigger] poly_deriv(p)[k],
        poly_deriv(q)[k],
    ) by {
        let j = (k + 1) as u16;
        lemma_mul_congruence(p[j], q_int(k + 1), q[j], q_int(k + 1));
    }
}

pub proof fn lemma_poly_wf_neg(p: Map<u16, (int, int)>)
    requires
        poly_wf(p),
    ensures
        poly_wf(poly_neg(p)),
{
}

pub proof fn lemma_poly_wf_deriv(p: Map<u16, (int, int)>)
    requires
        poly_wf(p),
    ensures
        poly_wf(poly_deriv(p)),
{
    assert forall|k: u16| poly_deriv(p).contains_key(k) implies q_wf(#[trigger] poly_deriv(p)[k]) by {
        lemma_wf_add(p[(k + 1) as u16], q_int(k + 1));
    }
}

pub proof fn lemma_poly_wf_deriv_n(p: Map<u16, (int, int)>, i: nat)
    requires
        poly_wf(p),
    ensures
        poly_wf(poly_deriv_n(p, i)),
    decreases i,
{
    if i > 0 {
        lemma_poly_wf_deriv_n(p, (i - 1) as nat);
        lemma_poly_wf_deriv(poly_deriv_n(p, (i - 1) as nat));
    }
}

/// Terms at or above `i` do not change the partial sums below `j <= i`...
/// and powers that the map does not hold add nothing.
pub proof fn lemma_eval_below_stable(p: Map<u16, (int, int)>, x: (int, int), i: nat, j: nat)
    requires
        i <= j,
        forall|k: u16| p.contains_key(k) ==> k < i,
    ensures
        poly_eval_below(p, x, j) == poly_eval_below(p, x, i),
    decreases j,
{
    if j > i {
        lemma_eval_below_stable(p, x, i, (j - 1) as nat);
        let k = (j - 1) as u16;
        if j <= 0x10000 {
            assert(!p.contains_key(k));
        }
    }
}

pub proof fn lemma_eval_below_wf(p: Map<u16, (int, int)>, x: (int, int), i: nat)
    requires
        poly_wf(p),
        q_wf(x),
    ensures
        q_wf(poly_eval_below(p, x, i)),
    decreases i,
{
    if i > 0 {
        lemma_eval_below_wf(p, x, (i - 1) as nat);
        let k = (i - 1) as u16;
        if i <= 0x10000 && p.contains_key(k) {
            lemma_wf_pow(x, k as nat);
            lemma_wf_add(p[k], q_pow(x, k as nat));
            lemma_wf_add(poly_eval_below(p, x, (i - 1) as nat), q_mul(p[k], q_pow(x, k as nat)));
        }
    }
}

/// Equal polynomials take equal values at equal points.
pub proof fn lemma_eval_below_congruence(
    p: Map<u16, (int, int)>,
    q: Map<u16, (int, int)>,
    x: (int, int),
    y: (int, int),
    i: nat,
)
    requires
        poly_equiv(p, q),
        q_equiv(x, y),
    ensures
        q_equiv(poly_eval_below(p, x, i), poly_eval_below(q, y, i)),
    decreases i,
{
    if i > 0 {
        lemma_eval_below_congruence(p, q, x, y, (i - 1) as nat);
        let k = (i - 1) as u16;
        if i <= 0x10000 && p.contains_key(k) {
            assert(q.contains_key(k));
            lemma_pow_congruence(x, y, k as nat);
            lemma_mul_congruence(p[k], q_pow(x, k as nat), q[k], q_pow(y, k as nat));
            lemma_add_congruence(
                poly_eval_below(p, x, (i - 1) as nat),
                q_mul(p[k], q_pow(x, k as nat)),
                poly_eval_below(q, y, (i - 1) as nat),
                q_mul(q[k], q_pow(y, k as nat)),
            );
        } else if i <= 0x10000 {
            assert(!q.contains_key(k));
        }
    }
}

/// Equal polynomials take equal values at equal points.
pub proof fn lemma_eval_congruence(
    p: Map<u16, (int, int)>,
    q: Map<u16, (int, int)>,
    x: (int, int),
    y: (int, int),
)
    requires
        poly_equiv(p, q),
        q_equiv(x, y),
    ensures
        q_equiv(poly_eval(p, x), poly_eval(q, y)),
{
    lemma_eval_below_congruence(p, q, x, y, 0x10000);
}

/// `(-a)^k` is `a^k` for even `k` and `-a^k` for odd `k`.
pub proof fn lemma_pow_neg(a: int, k: nat)
    ensures
        pow(-a, k) == if k % 2 == 0 {
            pow(a, k)
        } else {
            -pow(a, k)
        },
    decreases k,
{
    reveal(pow);
    if k > 0 {
        lemma_pow_neg(a, (k - 1) as nat);
        let prev = pow(a, (k - 1) as nat);
        if k % 2 == 0 {
            assert((-a) * (-prev) == a * prev) by (nonlinear_arith);
        } else {
            assert((-a) * prev == -(a * prev)) by (nonlinear_arith);
        }
    }
}

/// A polynomial whose powers all have the parity `e` is even (`e == 0`) or
/// odd (`e == 1`): its partial sums at `-x` are those at `x`, negated when
/// `e == 1`.
pub proof fn lemma_eval_below_parity(p: Map<u16, (int, int)>, x: (int, int), e: nat, i: nat)
    requires
        e < 2,
        forall|k: u16| p.contains_key(k) ==> k % 2 == e,
    ensures
        e == 0 ==> poly_eval_below(p, q_neg(x), i) == poly_eval_below(p, x, i),
        e == 1 ==> poly_eval_below(p, q_neg(x), i) == q_neg(poly_eval_below(p, x, i)),
    decreases i,
{
    if i > 0 {
        lemma_eval_below_parity(p, x, e, (i - 1) as nat);
        let k = (i - 1) as u16;
        if i <= 0x10000 && p.contains_key(k) {
            lemma_pow_neg(x.0, k as nat);
            let c = p[k];
            let xk = q_pow(x, k as nat);
            let prev = poly_eval_below(p, x, (i - 1) as nat);
            if e == 1 {
                assert(q_pow(q_neg(x), k as nat) == q_neg(xk));
                assert(c.0 * (-xk.0) == -(c.0 * xk.0)) by (nonlinear_arith);
                assert(q_mul(c, q_neg(xk)) == q_neg(q_mul(c, xk)));
                let t = q_mul(c, xk);
                assert((-prev.0) * t.1 + (-t.0) * prev.1 == -(prev.0 * t.1 + t.0 * prev.1))
                    by (nonlinear_arith);
                assert(q_add(q_neg(prev), q_neg(t)) == q_neg(q_add(prev, t)));
            } else {
                assert(q_pow(q_neg(x), k as nat) == xk);
            }
        }
    }
}

/// Negating every coefficient negates the value.
pub proof fn lemma_eval_below_neg(p: Map<u16, (int, int)>, x: (int, int), i: nat)
    ensures
        poly_eval_below(poly_neg(p), x, i) == q_neg(poly_eval_below(p, x, i)),
    decreases i,
{
    if i > 0 {
        lemma_eval_below_neg(p, x, (i - 1) as nat);
        let k = (i - 1) as u16;
        if i <= 0x10000 && p.contains_key(k) {
            let c = p[k];
            let xk = q_pow(x, k as nat);
            let prev = poly_eval_below(p, x, (i - 1) as nat);
            let t = q_mul(c, xk);
            assert((-c.0) * xk.0 == -(c.0 * xk.0)) by (nonlinear_arith);
            assert(q_mul(q_neg(c), xk) == q_neg(t));
            assert((-prev.0) * t.1 + (-t.0) * prev.1 == -(prev.0 * t.1 + t.0 * prev.1))
                by (nonlinear_arith);
        }
    }
}

} // verus!
