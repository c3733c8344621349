//! Associated Legendre values for every degree and order up to a bound, by
//! the three-term recurrences, in exact arithmetic.

use crate::poly_model::poly_eval;
use crate::polynomial::{associated_map, Phase};
use crate::recurrence::law_recurrence_is_associated;
use crate::rational::{
    lemma_add_congruence, lemma_div_congruence, lemma_equiv_refl, lemma_equiv_trans,
    lemma_lt_congruence, lemma_mul_congruence, lemma_neg_congruence, lemma_wf_add, lemma_wf_div,
    q_div, q_equiv, q_int, q_lt, q_mul, q_neg, q_pow, q_sub, q_wf, rat_div, rat_from_i64, rat_lt,
    rat_mul, rat_neg, rat_sub, Rational,
};
use vstd::prelude::*;

verus! {

/// The value `P_l^m(x)` that the recurrences give, where `s` stands for
/// `sqrt(1 - x^2)` and `cs` asks for the Condon-Shortley phase:
///
/// - `P_0^0 = 1`;
/// - `P_l^l = (2l-1) s P_(l-1)^(l-1)`, negated under the Condon-Shortley phase;
/// - `P_l^(l-1) = x (2l-1) P_(l-1)^(l-1)`;
/// - `P_l^m = ((2l-1) x P_(l-1)^m - (l-1+m) P_(l-2)^m) / (l-m)` for `m <= l-2`.
pub open spec fn alp(l: nat, m: nat, x: (int, int), s: (int, int), cs: bool) -> (int, int)
    decreases l,
{
    if l == 0 {
        (1, 1)
    } else if m == l {
        let v = q_mul(q_mul(q_int(2 * l - 1), s), alp((l - 1) as nat, (l - 1) as nat, x, s, cs));
        if cs {
            q_neg(v)
        } else {
            v
        }
    } else if m + 1 == l {
        q_mul(q_mul(x, q_int(2 * l - 1)), alp((l - 1) as nat, (l - 1) as nat, x, s, cs))
    } else if m + 2 <= l {
        let term1 = q_mul(q_mul(q_int(2 * l - 1), x), alp((l - 1) as nat, m, x, s, cs));
        let term2 = q_mul(q_int(l - 1 + m), alp((l - 2) as nat, m, x, s, cs));
        q_div(q_sub(term1, term2), q_int(l - m))
    } else {
        (0, 1)
    }
}

/// Every value of the recurrence has a positive denominator.
pub proof fn lemma_alp_wf(l: nat, m: nat, x: (int, int), s: (int, int), cs: bool)
    requires
        q_wf(x),
        q_wf(s),
    ensures
        q_wf(alp(l, m, x, s, cs)),
    decreases l,
{
    if l > 0 {
        lemma_alp_wf((l - 1) as nat, (l - 1) as nat, x, s, cs);
        if m == l {
            lemma_wf_add(q_int(2 * l - 1), s);
            lemma_wf_add(q_mul(q_int(2 * l - 1), s), alp((l - 1) as nat, (l - 1) as nat, x, s, cs));
        } else if m + 1 == l {
            lemma_wf_add(x, q_int(2 * l - 1));
            lemma_wf_add(q_mul(x, q_int(2 * l - 1)), alp((l - 1) as nat, (l - 1) as nat, x, s, cs));
        } else if m + 2 <= l {
            lemma_alp_wf((l - 1) as nat, m, x, s, cs);
            lemma_alp_wf((l - 2) as nat, m, x, s, cs);
            let term1 = q_mul(q_mul(q_int(2 * l - 1), x), alp((l - 1) as nat, m, x, s, cs));
            let term2 = q_mul(q_int(l - 1 + m), alp((l - 2) as nat, m, x, s, cs));
            lemma_wf_add(q_int(2 * l - 1), x);
            lemma_wf_add(q_mul(q_int(2 * l - 1), x), alp((l - 1) as nat, m, x, s, cs));
            lemma_wf_add(q_int(l - 1 + m), alp((l - 2) as nat, m, x, s, cs));
            lemma_wf_add(term1, term2);
            lemma_wf_div(q_sub(term1, term2), q_int(l - m));
        }
    }
}

/// `c` holds the recurrence value at `(l, m)`.
pub open spec fn holds_alp(c: Rational, l: nat, m: nat, x: (int, int), s: (int, int), cs: bool) -> bool {
    &&& q_wf(c@)
    &&& q_equiv(c@, alp(l, m, x, s, cs))
}

/// The rows `0..rows` of the table: row `l` holds the values for `m = 0..=l`.
pub open spec fn table_holds(
    t: Seq<Vec<Rational>>,
    rows: nat,
    x: (int, int),
    s: (int, int),
    cs: bool,
) -> bool {
    &&& t.len() == rows
    &&& forall|l: int| 0 <= l < rows ==> #[trigger] t[l]@.len() == l + 1
    &&& forall|l: int, m: int|
        0 <= m <= l < rows ==> holds_alp(#[trigger] t[l]@[m], l as nat, m as nat, x, s, cs)
}

/// A rational equal to a nonzero integer is nonzero.
proof fn lemma_nonzero(a: (int, int), c: int)
    requires
        q_equiv(a, q_int(c)),
        q_wf(a),
        c != 0,
    ensures
        a.0 != 0,
{
    assert(a.0 == c * a.1);
    assert(c * a.1 != 0) by (nonlinear_arith)
        requires
            c != 0,
            a.1 > 0,
    ;
}

/// `c` times `v`, where `v` holds `w`: the product holds `q_mul(q_int(c), w)`.
fn scaled(c: i64, v: &Rational, Ghost(w): Ghost<(int, int)>) -> (r: Rational)
    requires
        q_wf(v@),
        q_equiv(v@, w),
    ensures
        q_wf(r@),
        q_equiv(r@, q_mul(q_int(c as int), w)),
{
    let f = rat_from_i64(c, 1);
    let r = rat_mul(&f, v);
    proof {
        use_type_invariant(&f);
        use_type_invariant(&r);
        lemma_mul_congruence(f@, v@, q_int(c as int), w);
        lemma_wf_add(f@, v@);
        lemma_equiv_trans(r@, q_mul(f@, v@), q_mul(q_int(c as int), w));
    }
    r
}

/// The associated Legendre values `P_l^m(x)` for `0 <= m <= l <= lmax`, as
/// rows of a triangle; `scalar` stands for `sqrt(1 - x^2)`. `None` when `x`
/// lies outside `[-1, 1]`.
pub fn batch_associated_legendre_polynomials(
    lmax: u16,
    x: &Rational,
    scalar: &Rational,
    phase: &Phase,
) -> (r: Option<Vec<Vec<Rational>>>)
    ensures
        r is None <==> (q_lt(q_int(1), x@) || q_lt(x@, q_int(-1))),
        r matches Some(t) ==> table_holds(
            t@,
            lmax as nat + 1,
            x@,
            scalar@,
            *phase == Phase::CondonShortley,
        ),
        r matches Some(t) ==> forall|l: int, m: int|
            0 <= m <= l <= lmax ==> q_equiv(
                #[trigger] t@[l]@[m]@,
                q_mul(
                    q_pow(scalar@, m as nat),
                    poly_eval(associated_map(l as nat, m as nat, *phase), x@),
                ),
            ),
{
    proof {
        use_type_invariant(x);
        use_type_invariant(scalar);
    }
    let one = Rational::new(1, 1);
    let minus_one = Rational::new(-1, 1);
    proof {
        use_type_invariant(&one);
        use_type_invariant(&minus_one);
        lemma_lt_congruence(one@, x@, q_int(1), x@);
        lemma_lt_congruence(x@, minus_one@, x@, q_int(-1));
    }
    if rat_lt(&one, x) || rat_lt(x, &minus_one) {
        return None;
    }
    let ghost cs = *phase == Phase::CondonShortley;
    let ghost xv = x@;
    let ghost sv = scalar@;
    let mut table: Vec<Vec<Rational>> = Vec::new();
    let first = Rational::new(1, 1);
    proof {
        use_type_invariant(&first);
    }
    table.push(vec![first]);
    proof {
        assert(table@[0]@ =~= seq![first]);
    }
    let mut l: u32 = 1;
    while l <= lmax as u32
        invariant
            1 <= l <= lmax as int + 1,
            lmax <= u16::MAX,
            q_wf(xv),
            q_wf(sv),
            xv == x@,
            sv == scalar@,
            cs == (*phase == Phase::CondonShortley),
            table_holds(table@, l as nat, xv, sv, cs),
        decreases lmax as int + 1 - l,
    {
        let ghost prev = table@;
        let mut row: Vec<Rational> = Vec::new();
        let mut m: u16 = 0;
        while (m as u32) + 2 <= l
            invariant
                l <= lmax,
                m + 2 <= l + 1,
                q_wf(xv),
                q_wf(sv),
                xv == x@,
                sv == scalar@,
                table@ == prev,
                table_holds(table@, l as nat, xv, sv, cs),
                row@.len() == m,
                forall|j: int| 0 <= j < m ==> holds_alp(#[trigger] row@[j], l as nat, j as nat, xv, sv, cs),
            decreases l - m,
        {
            let ll: i64 = l as i64;
            let mm: i64 = m as i64;
            let above = &table[(l - 1) as usize][m as usize];
            let above2 = &table[(l - 2) as usize][m as usize];
            proof {
                assert(holds_alp(table@[l - 1]@[m as int], (l - 1) as nat, m as nat, xv, sv, cs));
                assert(holds_alp(table@[l - 2]@[m as int], (l - 2) as nat, m as nat, xv, sv, cs));
            }
            let f = rat_from_i64(2 * ll - 1, 1);
            let fx = rat_mul(&f, x);
            let term1 = rat_mul(&fx, above);
            let term2 = scaled(ll - 1 + mm, above2, Ghost(alp((l - 2) as nat, m as nat, xv, sv, cs)));
            let diff = rat_sub(&term1, &term2);
            let denom = rat_from_i64(ll - mm, 1);
            proof {
                use_type_invariant(&f);
                use_type_invariant(&fx);
                use_type_invariant(&term1);
                use_type_invariant(&diff);
                use_type_invariant(&denom);
                lemma_nonzero(denom@, ll - mm);
            }
            let value = rat_div(&diff, &denom);
            proof {
                use_type_invariant(&value);
                let a1 = alp((l - 1) as nat, m as nat, xv, sv, cs);
                let a2 = alp((l - 2) as nat, m as nat, xv, sv, cs);
                let t1 = q_mul(q_mul(q_int(2 * l - 1), xv), a1);
                let t2 = q_mul(q_int(l - 1 + m), a2);
                lemma_alp_wf((l - 1) as nat, m as nat, xv, sv, cs);
                lemma_alp_wf((l - 2) as nat, m as nat, xv, sv, cs);
                // fx holds (2l-1) x
                lemma_equiv_refl(xv);
                lemma_mul_congruence(f@, xv, q_int(2 * l - 1), xv);
                lemma_wf_add(f@, xv);
                lemma_equiv_trans(fx@, q_mul(f@, xv), q_mul(q_int(2 * l - 1), xv));
                // term1 holds (2l-1) x P_(l-1)^m
                lemma_mul_congruence(fx@, above@, q_mul(q_int(2 * l - 1), xv), a1);
                lemma_wf_add(fx@, above@);
                lemma_equiv_trans(term1@, q_mul(fx@, above@), t1);
                // diff holds term1 - term2
                lemma_add_congruence(term1@, term2@, t1, t2);
                lemma_wf_add(term1@, term2@);
                lemma_equiv_trans(diff@, q_sub(term1@, term2@), q_sub(t1, t2));
                // value holds the quotient
                lemma_div_congruence(diff@, denom@, q_sub(t1, t2), q_int(l - m));
                lemma_wf_div(diff@, denom@);
                lemma_equiv_trans(value@, q_div(diff@, denom@), q_div(q_sub(t1, t2), q_int(l - m)));
                assert(alp(l as nat, m as nat, xv, sv, cs) == q_div(q_sub(t1, t2), q_int(l - m)));
            }
            row.push(value);
            m = m + 1;
        }
        // the entry below the diagonal, then the diagonal
        let ll: i64 = l as i64;
        let corner = &table[(l - 1) as usize][(l - 1) as usize];
        proof {
            assert(holds_alp(table@[l - 1]@[l - 1], (l - 1) as nat, (l - 1) as nat, xv, sv, cs));
        }
        let g = rat_from_i64(2 * ll - 1, 1);
        let xg = rat_mul(x, &g);
        let below = rat_mul(&xg, corner);
        let gs = rat_mul(&g, scalar);
        let diag0 = rat_mul(&gs, corner);
        let ghost d0 = diag0@;
        proof {
            use_type_invariant(&diag0);
        }
        let diag = if *phase == Phase::CondonShortley {
            rat_neg(&diag0)
        } else {
            diag0
        };
        proof {
            use_type_invariant(&g);
            use_type_invariant(&xg);
            use_type_invariant(&below);
            use_type_invariant(&gs);
            use_type_invariant(&diag);
            let c = alp((l - 1) as nat, (l - 1) as nat, xv, sv, cs);
            let gi = q_int(2 * l - 1);
            lemma_alp_wf((l - 1) as nat, (l - 1) as nat, xv, sv, cs);
            lemma_equiv_refl(xv);
            lemma_equiv_refl(sv);
            lemma_mul_congruence(xv, g@, xv, gi);
            lemma_wf_add(xv, g@);
            lemma_equiv_trans(xg@, q_mul(xv, g@), q_mul(xv, gi));
            lemma_mul_congruence(xg@, corner@, q_mul(xv, gi), c);
            lemma_wf_add(xg@, corner@);
            lemma_equiv_trans(below@, q_mul(xg@, corner@), q_mul(q_mul(xv, gi), c));
            assert(alp(l as nat, (l - 1) as nat, xv, sv, cs) == q_mul(q_mul(xv, gi), c));
            lemma_mul_congruence(g@, sv, gi, sv);
            lemma_wf_add(g@, sv);
            lemma_equiv_trans(gs@, q_mul(g@, sv), q_mul(gi, sv));
            lemma_mul_congruence(gs@, corner@, q_mul(gi, sv), c);
            lemma_wf_add(gs@, corner@);
            lemma_equiv_trans(d0, q_mul(gs@, corner@), q_mul(q_mul(gi, sv), c));
            lemma_wf_add(q_mul(gi, sv), c);
            if cs {
                lemma_neg_congruence(d0, q_mul(q_mul(gi, sv), c));
                lemma_equiv_trans(diag@, q_neg(d0), q_neg(q_mul(q_mul(gi, sv), c)));
            }
        }
        row.push(below);
        row.push(diag);
        let ghost row_before = row@;
        table.push(row);
        proof {
            assert forall|i: int, j: int|
                0 <= j <= i < l + 1 implies holds_alp(#[trigger] table@[i]@[j], i as nat, j as nat, xv, sv, cs) by {
                if i < l {
                    assert(table@[i] == prev[i]);
                } else {
                    assert(table@[i]@ == row_before);
                }
            }
        }
        l = l + 1;
    }
    proof {
        assert forall|i: int, j: int| 0 <= j <= i <= lmax implies q_equiv(
            #[trigger] table@[i]@[j]@,
            q_mul(q_pow(sv, j as nat), poly_eval(associated_map(i as nat, j as nat, *phase), xv)),
        ) by {
            assert(holds_alp(table@[i]@[j], i as nat, j as nat, xv, sv, cs));
            law_recurrence_is_associated(i as u16, j as u16, xv, sv, *phase);
            lemma_alp_wf(i as nat, j as nat, xv, sv, cs);
            lemma_equiv_trans(
                table@[i]@[j]@,
                alp(i as nat, j as nat, xv, sv, cs),
                q_mul(q_pow(sv, j as nat), poly_eval(associated_map(i as nat, j as nat, *phase), xv)),
            );
        }
    }
    Some(table)
}

} // verus!
