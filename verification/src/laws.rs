//! Properties of the library as a whole, stated over the mathematical models
//! that the functions' contracts use.

use crate::at_one::law_legendre_at_one;
use crate::legendre::{legendre_map, lemma_legendre_map_wf};
use crate::poly_model::{
    is_order, lemma_eval_below_parity, lemma_eval_below_wf, lemma_eval_congruence,
    lemma_poly_equiv_trans, lemma_poly_neg_congruence, lemma_poly_wf_neg, poly_deriv, poly_deriv_n,
    poly_equiv, poly_eval, poly_neg, poly_wf,
};
use crate::polynomial::{associated_map, Phase};
use crate::rational::{
    lemma_equiv_symm, lemma_equiv_trans, lemma_neg_congruence, q_equiv, q_int, q_neg, q_wf,
};
use vstd::prelude::*;

verus! {

/// `Polynomial::new(n)` has order `n`: whatever polynomial stands for `P_n`,
/// its order is `n`.
pub proof fn law_legendre_order(n: u16, p: Map<u16, (int, int)>, r: u16)
    requires
        poly_equiv(p, legendre_map(n as nat)),
        is_order(p, r),
    ensures
        r == n,
{
    assert(legendre_map(n as nat).contains_key(n));
    assert(p.contains_key(n));
    if !p.dom().is_empty() {
        assert(p.contains_key(r));
        assert(legendre_map(n as nat).contains_key(r));
    }
}

/// Negating twice gives back the polynomial.
pub proof fn law_negate_twice(
    p: Map<u16, (int, int)>,
    once: Map<u16, (int, int)>,
    twice: Map<u16, (int, int)>,
)
    requires
        poly_wf(p),
        poly_wf(once),
        poly_equiv(once, poly_neg(p)),
        poly_equiv(twice, poly_neg(once)),
    ensures
        poly_equiv(twice, p),
{
    lemma_poly_neg_congruence(once, poly_neg(p));
    lemma_poly_wf_neg(once);
    lemma_poly_equiv_trans(twice, poly_neg(once), poly_neg(poly_neg(p)));
    assert(poly_neg(poly_neg(p)) =~= p) by {
        assert forall|k: u16| #[trigger] poly_neg(poly_neg(p)).contains_key(k) implies poly_neg(
            poly_neg(p),
        )[k] == p[k] by {
            assert(q_neg(q_neg(p[k])) == p[k]);
        }
    }
}

/// Differentiating lowers the order by one; a polynomial of order 0
/// differentiates to the polynomial with no term.
pub proof fn law_derivative_order(p: Map<u16, (int, int)>, r: u16)
    requires
        is_order(p, r),
    ensures
        r == 0 ==> poly_deriv(p).dom().is_empty(),
        r > 0 && p.contains_key(r) ==> is_order(poly_deriv(p), (r - 1) as u16),
{
    if r == 0 {
        assert(poly_deriv(p).dom() =~= Set::<u16>::empty()) by {
            assert forall|k: u16| !#[trigger] poly_deriv(p).contains_key(k) by {
                if k < u16::MAX && p.contains_key((k + 1) as u16) {
                    assert((k + 1) as u16 <= r);
                }
            }
        }
    }
    if r > 0 && p.contains_key(r) {
        assert(poly_deriv(p).contains_key((r - 1) as u16));
        assert forall|k: u16| poly_deriv(p).contains_key(k) implies k <= (r - 1) as u16 by {
            assert(p.contains_key((k + 1) as u16));
        }
    }
}

/// Differentiating `i` times a polynomial whose powers are at most `d` and
/// that holds `d` leaves powers at most `d - i`, and holds `d - i`.
proof fn lemma_deriv_n_order(p: Map<u16, (int, int)>, d: u16, i: nat)
    requires
        i <= d,
        p.contains_key(d),
        forall|k: u16| p.contains_key(k) ==> k <= d,
    ensures
        is_order(poly_deriv_n(p, i), (d - i) as u16),
        poly_deriv_n(p, i).contains_key((d - i) as u16),
    decreases i,
{
    if i > 0 {
        lemma_deriv_n_order(p, d, (i - 1) as nat);
        let q = poly_deriv_n(p, (i - 1) as nat);
        law_derivative_order(q, (d - (i - 1)) as u16);
        assert(q.contains_key((d - (i - 1)) as u16));
        assert(poly_deriv(q).contains_key((d - i) as u16));
    }
}

/// The associated polynomial of degree `l` and order `m <= l` has order
/// `l - m`; in particular `P_l^l` is a constant.
pub proof fn law_associated_order(l: u16, m: u16, phase: Phase)
    requires
        m <= l,
    ensures
        is_order(associated_map(l as nat, m as nat, phase), (l - m) as u16),
{
    let p = legendre_map(l as nat);
    assert(p.contains_key(l));
    lemma_deriv_n_order(p, l, m as nat);
    let d = poly_deriv_n(p, m as nat);
    if phase == Phase::CondonShortley && m % 2 == 1 {
        assert(poly_neg(d).dom() =~= d.dom());
    }
}

/// Of order 0, the associated polynomial is the Legendre polynomial, in
/// either phase.
pub proof fn law_associated_order_zero(l: u16, phase: Phase)
    ensures
        associated_map(l as nat, 0, phase) == legendre_map(l as nat),
{
}

/// The phase matters only for odd orders, where the Condon-Shortley phase
/// negates the polynomial.
pub proof fn law_associated_phase(l: u16, m: u16)
    ensures
        m % 2 == 0 ==> associated_map(l as nat, m as nat, Phase::CondonShortley) == associated_map(
            l as nat,
            m as nat,
            Phase::NoPhase,
        ),
        m % 2 == 1 ==> associated_map(l as nat, m as nat, Phase::CondonShortley) == poly_neg(
            associated_map(l as nat, m as nat, Phase::NoPhase),
        ),
{
}

/// `P_n` is even for even `n` and odd for odd `n`: `P_n(-x) = (-1)^n P_n(x)`.
pub proof fn law_legendre_symmetry(n: u16, x: (int, int))
    ensures
        n % 2 == 0 ==> poly_eval(legendre_map(n as nat), q_neg(x)) == poly_eval(
            legendre_map(n as nat),
            x,
        ),
        n % 2 == 1 ==> poly_eval(legendre_map(n as nat), q_neg(x)) == q_neg(
            poly_eval(legendre_map(n as nat), x),
        ),
{
    let p = legendre_map(n as nat);
    assert forall|k: u16| p.contains_key(k) implies k % 2 == n % 2 by {
        assert((n - k) % 2 == 0);
    }
    lemma_eval_below_parity(p, x, (n % 2) as nat, 0x10000);
}

/// The values that `Polynomial::new(n).evaluate` gives at `x` and at `-x`
/// are equal for even `n` and opposite for odd `n`.
pub proof fn law_legendre_symmetry_values(
    n: u16,
    p: Map<u16, (int, int)>,
    x: (int, int),
    y: (int, int),
    vx: (int, int),
    vy: (int, int),
)
    requires
        poly_equiv(p, legendre_map(n as nat)),
        poly_wf(p),
        q_wf(x),
        q_wf(y),
        q_equiv(y, q_neg(x)),
        q_equiv(vx, poly_eval(p, x)),
        q_equiv(vy, poly_eval(p, y)),
    ensures
        n % 2 == 0 ==> q_equiv(vy, vx),
        n % 2 == 1 ==> q_equiv(vy, q_neg(vx)),
{
    let l = legendre_map(n as nat);
    lemma_legendre_map_wf(n as nat);
    lemma_eval_below_wf(p, x, 0x10000);
    lemma_eval_below_wf(p, y, 0x10000);
    lemma_eval_below_wf(l, x, 0x10000);
    lemma_eval_below_wf(l, q_neg(x), 0x10000);
    lemma_eval_congruence(p, l, y, q_neg(x));
    lemma_eval_congruence(l, p, x, x);
    lemma_equiv_trans(vy, poly_eval(p, y), poly_eval(l, q_neg(x)));
    law_legendre_symmetry(n, x);
    lemma_equiv_symm(vx, poly_eval(p, x));
    if n % 2 == 0 {
        lemma_equiv_trans(vy, poly_eval(l, x), poly_eval(p, x));
        lemma_equiv_trans(vy, poly_eval(p, x), vx);
    } else {
        lemma_neg_congruence(poly_eval(l, x), poly_eval(p, x));
        lemma_equiv_trans(vy, q_neg(poly_eval(l, x)), q_neg(poly_eval(p, x)));
        lemma_neg_congruence(poly_eval(p, x), vx);
        lemma_equiv_trans(vy, q_neg(poly_eval(p, x)), q_neg(vx));
    }
}

/// `Polynomial::new(n).evaluate` at 1 gives 1.
pub proof fn law_legendre_value_at_one(
    n: u16,
    p: Map<u16, (int, int)>,
    x: (int, int),
    v: (int, int),
)
    requires
        poly_equiv(p, legendre_map(n as nat)),
        poly_wf(p),
        q_wf(x),
        q_equiv(x, q_int(1)),
        q_equiv(v, poly_eval(p, x)),
    ensures
        q_equiv(v, q_int(1)),
{
    let l = legendre_map(n as nat);
    lemma_legendre_map_wf(n as nat);
    lemma_eval_below_wf(p, x, 0x10000);
    lemma_eval_below_wf(l, q_int(1), 0x10000);
    lemma_eval_congruence(p, l, x, q_int(1));
    lemma_equiv_trans(v, poly_eval(p, x), poly_eval(l, q_int(1)));
    law_legendre_at_one(n);
    lemma_equiv_trans(v, poly_eval(l, q_int(1)), q_int(1));
}

/// `P_n(-1) = (-1)^n`.
pub proof fn law_legendre_at_minus_one(n: u16)
    ensures
        n % 2 == 0 ==> q_equiv(poly_eval(legendre_map(n as nat), q_int(-1)), q_int(1)),
        n % 2 == 1 ==> q_equiv(poly_eval(legendre_map(n as nat), q_int(-1)), q_int(-1)),
{
    law_legendre_symmetry(n, q_int(1));
    law_legendre_at_one(n);
    assert(q_neg(q_int(1)) == q_int(-1));
    if n % 2 == 1 {
        lemma_neg_congruence(poly_eval(legendre_map(n as nat), q_int(1)), q_int(1));
    }
}

} // verus!
