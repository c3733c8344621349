//! Legendre polynomials and associated Legendre polynomials.

use crate::integer::{int_factorial, int_mul, int_pow, int_value, lemma_int_value_one};
use crate::legendre::{
    lemma_factorial_positive, lemma_legendre_map_wf, lemma_legendre_term_step, lemma_legendre_term_wf,
    legendre_coefficient, legendre_map, legendre_term,
};
use crate::poly_model::{
    lemma_eval_below_stable, lemma_eval_below_wf, lemma_poly_deriv_congruence,
    lemma_poly_equiv_trans, lemma_poly_neg_congruence, lemma_poly_wf_deriv, lemma_poly_wf_neg,
    is_order, poly_deriv, poly_deriv_n, poly_equiv, poly_eval, poly_eval_below, poly_neg, poly_wf,
};
use crate::rational::{
    lemma_add_congruence, lemma_equiv_refl, lemma_equiv_trans, lemma_lt_congruence,
    lemma_mul_congruence, lemma_wf_add, lemma_wf_pow, q_add, q_equiv, q_int, q_lt, q_mul, q_neg,
    q_pow, q_wf, rat_add, rat_from_i64, rat_from_ints, rat_lt, rat_mul, rat_neg, rat_pow,
    Rational,
};
use std::collections::HashMap;
use vstd::arithmetic::mul::*;
use vstd::arithmetic::power::*;
use vstd::prelude::*;
use vstd::std_specs::iter::IteratorSpec;

verus! {

broadcast use vstd::std_specs::hash::group_hash_axioms;

/// The phase convention of the associated Legendre polynomials.
#[derive(Debug, Clone, Copy, PartialEq, Eq, Structural)]
pub enum Phase {
    /// The factor `(-1)^m`, as in quantum mechanics.
    CondonShortley,
    /// No factor, as in geophysics.
    NoPhase,
}

/// A polynomial with exact rational coefficients, keyed by power.
#[derive(Debug)]
pub struct Polynomial {
    coefficents: HashMap<u16, Rational>,
}

impl View for Polynomial {
    type V = Map<u16, (int, int)>;

    closed spec fn view(&self) -> Map<u16, (int, int)> {
        Map::new(|k: u16| self.coefficents@.contains_key(k), |k: u16| self.coefficents@[k]@)
    }
}

/// `c` is the term of power `k` in the derivative of `m`.
spec fn derived_term(m: Map<u16, Rational>, c: Rational, k: u16) -> bool {
    &&& k < u16::MAX
    &&& m.contains_key((k + 1) as u16)
    &&& q_wf(c@)
    &&& q_equiv(c@, q_mul(m[(k + 1) as u16]@, q_int(k + 1)))
}

/// The leading coefficient of `P_n`, `(2n)! / (2^n n! n!)`.
fn leading(n: u16) -> (r: Rational)
    ensures
        q_equiv(r@, legendre_term(n as nat, 0)),
{
    let nfact = int_factorial(n as u32);
    let twonfact = int_factorial(2 * (n as u32));
    let twopown = int_pow(2, n as u32);
    let one: Vec<u8> = vec![1u8];
    let pn = int_mul(&twopown, &nfact);
    proof {
        lemma_int_value_one();
        assert(one@ =~= seq![1u8]);
        lemma_pow_positive(2, n as nat);
        lemma_factorial_positive(n as nat);
        lemma_mul_strictly_positive(pow(2, n as nat), factorial_of(n as nat));
    }
    let first = rat_from_ints(&one, &pn);
    let second = rat_from_ints(&twonfact, &nfact);
    let r = rat_mul(&first, &second);
    proof {
        use_type_invariant(&first);
        use_type_invariant(&second);
        let p = pow(2, n as nat);
        let f = factorial_of(n as nat);
        let g = factorial_of(2 * n as nat);
        lemma_mul_congruence(first@, second@, (1, p * f), (g, f));
        lemma_wf_add(first@, second@);
        lemma_equiv_trans(r@, q_mul(first@, second@), q_mul((1, p * f), (g, f)));
        lemma_mul_basics(p);
        lemma_mul_basics(g);
        assert(legendre_term(n as nat, 0) == (1 * g, p * 1 * f * f));
    }
    r
}

spec fn factorial_of(n: nat) -> int {
    crate::integer::factorial(n) as int
}

impl Polynomial {
    /// Every coefficient has a positive denominator.
    #[verifier::type_invariant]
    pub open spec fn inv(self) -> bool {
        poly_wf(self@)
    }

    /// Generates the Legendre polynomial `P_n`: its coefficients are the
    /// closed-form coefficients of [`legendre_map`], nonzero exactly at the
    /// powers `k <= n` of the parity of `n`.
    pub fn new(n: u16) -> (p: Polynomial)
        ensures
            poly_equiv(p@, legendre_map(n as nat)),
    {
        let mut coefficents: HashMap<u16, Rational> = HashMap::new();
        let lead = leading(n);
        proof {
            use_type_invariant(&lead);
            lemma_legendre_term_wf(n as nat, 0);
        }
        coefficents.insert(n, lead);
        let mut k: u16 = n;
        while k > 1
            invariant
                k <= n,
                (n - k) % 2 == 0,
                forall|i: u16|
                    coefficents@.contains_key(i) <==> (k <= i <= n && (n - i) % 2 == 0),
                forall|i: u16|
                    #![trigger coefficents@[i]]
                    coefficents@.contains_key(i) ==> q_wf(coefficents@[i]@) && q_equiv(
                        coefficents@[i]@,
                        legendre_coefficient(n as nat, i as nat),
                    ),
            decreases k,
        {
            let value = coefficents.get(&k).unwrap();
            assert((k as int) * (k - 1) <= 0xffff * 0xffff) by (nonlinear_arith)
                requires
                    k <= 0xffff,
            ;
            let numer: i64 = (k as i64) * ((k - 1) as i64);
            assert((n - k + 2) * (n + k - 1) <= 0x20000 * 0x20000) by (nonlinear_arith)
                requires
                    k <= n <= 0xffff,
                    k > 1,
            ;
            assert((n - k + 2) * (n + k - 1) > 0) by (nonlinear_arith)
                requires
                    k <= n,
                    k > 1,
            ;
            let denom: i64 = ((n as i64) - (k as i64) + 2) * ((n as i64) + (k as i64) - 1);
            let step = rat_from_i64(numer, denom);
            let ratio = rat_neg(&step);
            let next = rat_mul(value, &ratio);
            proof {
                use_type_invariant(value);
                use_type_invariant(&step);
                use_type_invariant(&ratio);
                use_type_invariant(&next);
                let j = ((n - k) / 2) as nat;
                let kk: int = k as int;
                let r = (kk * (kk - 1), (n - kk + 2) * (n + kk - 1));
                lemma_legendre_term_step(n as nat, j);
                lemma_legendre_term_wf(n as nat, j);
                lemma_legendre_term_wf(n as nat, j + 1);
                assert(legendre_coefficient(n as nat, k as nat) == legendre_term(n as nat, j));
                assert(legendre_coefficient(n as nat, (k - 2) as nat) == legendre_term(
                    n as nat,
                    j + 1,
                ));
                crate::rational::lemma_neg_congruence(step@, r);
                lemma_equiv_trans(ratio@, q_neg(step@), q_neg(r));
                lemma_mul_congruence(value@, ratio@, legendre_term(n as nat, j), q_neg(r));
                lemma_wf_add(value@, ratio@);
                lemma_equiv_trans(
                    next@,
                    q_mul(value@, ratio@),
                    q_mul(legendre_term(n as nat, j), q_neg(r)),
                );
                lemma_wf_add(legendre_term(n as nat, j), (0, r.1));
                lemma_equiv_trans(
                    next@,
                    q_mul(legendre_term(n as nat, j), q_neg(r)),
                    legendre_term(n as nat, j + 1),
                );
            }
            k = k - 2;
            coefficents.insert(k, next);
        }
        let p = Polynomial { coefficents };
        assert(p@.dom() =~= legendre_map(n as nat).dom());
        p
    }

    /// The order of the polynomial: its highest power, or 0 when it has no
    /// term.
    pub fn order(&self) -> (r: u16)
        ensures
            is_order(self@, r),
    {
        let mut best: u16 = 0;
        let keys = self.coefficents.keys();
        let ghost s = keys.remaining();
        proof {
            assert(s.unref().to_set() == self.coefficents@.dom());
        }
        for k in it: keys
            invariant
                best == 0 || self.coefficents@.contains_key(best),
                it.seq() == s,
                s.unref().to_set() == self.coefficents@.dom(),
                forall|j: int| 0 <= j < it.index() ==> *it.seq()[j] <= best,
        {
            proof {
                assert(it.seq().unref()[it.index()] == *k);
                assert(it.seq().unref().to_set().contains(*k));
            }
            if *k > best {
                best = *k;
            }
        }
        proof {
            assert forall|key: u16| self@.contains_key(key) implies key <= best by {
                assert(s.unref().to_set().contains(key));
                let j = choose|j: int| 0 <= j < s.unref().len() && s.unref()[j] == key;
                assert(*s[j] <= best);
            }
            if best != 0 {
                assert(self@.dom().contains(best));
            }
            if !self@.dom().is_empty() && best == 0 {
                let key = self@.dom().choose();
                assert(self@.contains_key(key));
            }
        }
        best
    }

    /// The coefficient of `x^n`: zero where the polynomial has no such term.
    pub fn coefficent(&self, n: u16) -> (r: Rational)
        ensures
            self@.contains_key(n) ==> r@ == self@[n],
            !self@.contains_key(n) ==> r@ == (0int, 1int),
    {
        match self.coefficents.get(&n) {
            Some(v) => Rational::clone(v),
            Option::None => Rational::zero(),
        }
    }

    /// The polynomial with every coefficient negated.
    pub fn negate(&self) -> (r: Polynomial)
        ensures
            poly_equiv(r@, poly_neg(self@)),
    {
        proof {
            use_type_invariant(self);
        }
        let mut result: HashMap<u16, Rational> = HashMap::new();
        let entries = self.coefficents.iter();
        let ghost s = entries.remaining();
        for pair in it: entries
            invariant
                it.seq() == s,
                s.len() == self.coefficents@.dom().len(),
                forall|i: int|
                    #![trigger s[i]]
                    0 <= i < s.len() ==> self.coefficents@.contains_key(*s[i].0)
                        && self.coefficents@[*s[i].0] == *s[i].1,
                forall|k: u16| #[trigger]
                    self.coefficents@.contains_key(k) ==> s.contains((&k, &self.coefficents@[k])),
                poly_wf(self@),
                forall|i: int| 0 <= i < it.index() ==> result@.contains_key(*#[trigger] s[i].0),
                forall|k: u16|
                    #![trigger result@[k]]
                    result@.contains_key(k) ==> self.coefficents@.contains_key(k) && q_wf(
                        result@[k]@,
                    ) && q_equiv(result@[k]@, q_neg(self.coefficents@[k]@)),
        {
            let (power, value) = pair;
            let neg = rat_neg(value);
            proof {
                use_type_invariant(&neg);
                assert(s[it.index()] == pair);
                assert(self.coefficents@.contains_key(*power));
                assert(self.coefficents@[*power] == *value);
                assert(q_wf(neg@));
                assert(q_equiv(neg@, q_neg(self.coefficents@[*power]@)));
            }
            let ghost before = result@;
            result.insert(*power, neg);
            proof {
                assert forall|k: u16| #[trigger] result@.contains_key(k) implies self.coefficents@.contains_key(k)
                    && q_wf(result@[k]@) && q_equiv(result@[k]@, q_neg(self.coefficents@[k]@)) by {
                    if k != *power {
                        assert(before.contains_key(k));
                        assert(result@[k] == before[k]);
                    }
                }
            }
        }
        let r = Polynomial { coefficents: result };
        proof {
            assert(forall|i: int| 0 <= i < s.len() ==> result@.contains_key(*#[trigger] s[i].0));
            assert forall|k: u16| self@.contains_key(k) implies r@.contains_key(k) by {
                assert(s.contains((&k, &self.coefficents@[k])));
                let i = choose|i: int| 0 <= i < s.len() && s[i] == (&k, &self.coefficents@[k]);
                assert(result@.contains_key(*s[i].0));
            }
            assert forall|k: u16| r@.contains_key(k) implies self@.contains_key(k) by {
                assert(result@.contains_key(k));
                assert(q_wf(result@[k]@));
            }
            assert(r@.dom() =~= poly_neg(self@).dom());
            assert forall|k: u16| r@.contains_key(k) implies q_equiv(#[trigger] r@[k], poly_neg(self@)[k]) by {
                assert(result@.contains_key(k));
            }
        }
        r
    }

    /// The derivative: each term `c x^p` with `p > 0` becomes `c p x^(p-1)`,
    /// and the constant term disappears.
    pub fn differentiate(&self) -> (r: Polynomial)
        ensures
            poly_equiv(r@, poly_deriv(self@)),
    {
        proof {
            use_type_invariant(self);
        }
        let mut result: HashMap<u16, Rational> = HashMap::new();
        let entries = self.coefficents.iter();
        let ghost s = entries.remaining();
        for pair in it: entries
            invariant
                it.seq() == s,
                s.len() == self.coefficents@.dom().len(),
                forall|i: int|
                    #![trigger s[i]]
                    0 <= i < s.len() ==> self.coefficents@.contains_key(*s[i].0)
                        && self.coefficents@[*s[i].0] == *s[i].1,
                forall|k: u16| #[trigger]
                    self.coefficents@.contains_key(k) ==> s.contains((&k, &self.coefficents@[k])),
                poly_wf(self@),
                forall|i: int|
                    0 <= i < it.index() && *#[trigger] s[i].0 != 0 ==> result@.contains_key(
                        (*s[i].0 - 1) as u16,
                    ),
                forall|k: u16|
                    #![trigger result@[k]]
                    result@.contains_key(k) ==> derived_term(self.coefficents@, result@[k], k),
        {
            let (power, value) = pair;
            proof {
                assert(s[it.index()] == pair);
            }
            if *power != 0 {
                let factor = rat_from_i64(*power as i64, 1);
                let term = rat_mul(value, &factor);
                proof {
                    use_type_invariant(&term);
                    use_type_invariant(&factor);
                    use_type_invariant(value);
                    lemma_mul_congruence(value@, factor@, value@, q_int(*power as int));
                    lemma_wf_add(value@, factor@);
                    lemma_equiv_trans(term@, q_mul(value@, factor@), q_mul(value@, q_int(*power as int)));
                }
                let ghost before = result@;
                result.insert(*power - 1, term);
                proof {
                    assert forall|k: u16| #![trigger result@[k]] result@.contains_key(k) implies
                        derived_term(self.coefficents@, result@[k], k) by {
                        if k != *power - 1 {
                            assert(before.contains_key(k));
                            assert(result@[k] == before[k]);
                        }
                    }
                }
            }
        }
        let r = Polynomial { coefficents: result };
        proof {
            assert(forall|i: int|
                0 <= i < s.len() && *#[trigger] s[i].0 != 0 ==> result@.contains_key((*s[i].0 - 1) as u16));
            assert forall|k: u16| poly_deriv(self@).contains_key(k) implies r@.contains_key(k) by {
                let j = (k + 1) as u16;
                assert(s.contains((&j, &self.coefficents@[j])));
                let i = choose|i: int| 0 <= i < s.len() && s[i] == (&j, &self.coefficents@[j]);
                assert(*s[i].0 != 0);
            }
            assert forall|k: u16| r@.contains_key(k) implies poly_deriv(self@).contains_key(k) by {
                assert(result@.contains_key(k));
                assert(derived_term(self.coefficents@, result@[k], k));
            }
            assert(r@.dom() =~= poly_deriv(self@).dom());
            assert forall|k: u16| r@.contains_key(k) implies q_equiv(#[trigger] r@[k], poly_deriv(self@)[k]) by {
                assert(result@.contains_key(k));
                assert(derived_term(self.coefficents@, result@[k], k));
            }
        }
        r
    }

    /// The value of the polynomial at `x`, computed exactly; `None` when `x`
    /// lies outside `[-1, 1]`.
    pub fn evaluate(&self, x: &Rational) -> (r: Option<Rational>)
        ensures
            r is None <==> (q_lt(q_int(1), x@) || q_lt(x@, q_int(-1))),
            r matches Some(v) ==> q_equiv(v@, poly_eval(self@, x@)),
    {
        proof {
            use_type_invariant(self);
            use_type_invariant(x);
        }
        let one = Rational::new(1, 1);
        let minus_one = Rational::new(-1, 1);
        proof {
            use_type_invariant(&one);
            use_type_invariant(&minus_one);
            lemma_lt_congruence(one@, x@, q_int(1), x@);
            lemma_lt_congruence(x@, minus_one@, x@, q_int(-1));
        }
        if rat_lt(&one, x) || rat_lt(x, &minus_one) {
            return None;
        }
        let order = self.order();
        let mut sum = Rational::zero();
        let mut k: u32 = 0;
        while k <= order as u32
            invariant
                k <= order as u32 + 1,
                poly_wf(self@),
                q_wf(x@),
                q_equiv(sum@, poly_eval_below(self@, x@, k as nat)),
                forall|i: u16| self@.contains_key(i) ==> i <= order,
            decreases order as u32 + 1 - k,
        {
            proof {
                use_type_invariant(&sum);
                lemma_eval_below_wf(self@, x@, k as nat);
            }
            match self.coefficents.get(&(k as u16)) {
                Some(c) => {
                    let p = rat_pow(x, k as u16);
                    let t = rat_mul(c, &p);
                    let next = rat_add(&sum, &t);
                    proof {
                        use_type_invariant(c);
                        use_type_invariant(&p);
                        use_type_invariant(&t);
                        let e = poly_eval_below(self@, x@, k as nat);
                        let xk = q_pow(x@, k as nat);
                        assert(self@.contains_key(k as u16));
                        assert(self@[k as u16] == c@);
                        lemma_wf_pow(x@, k as nat);
                        lemma_equiv_refl(c@);
                        lemma_mul_congruence(c@, p@, c@, xk);
                        lemma_wf_add(c@, p@);
                        lemma_equiv_trans(t@, q_mul(c@, p@), q_mul(c@, xk));
                        lemma_add_congruence(sum@, t@, e, q_mul(c@, xk));
                        lemma_wf_add(sum@, t@);
                        lemma_equiv_trans(next@, q_add(sum@, t@), q_add(e, q_mul(c@, xk)));
                    }
                    sum = next;
                },
                Option::None => {
                    proof {
                        assert(!self@.contains_key(k as u16));
                    }
                },
            }
            k = k + 1;
        }
        proof {
            lemma_eval_below_stable(self@, x@, (order + 1) as nat, 0x10000);
        }
        Some(sum)
    }
}

impl Polynomial {
    /// The terms of the polynomial as `(power, coefficient)` pairs, in no
    /// particular order.
    pub fn into_terms(self) -> (r: Vec<(u16, Rational)>)
        ensures
            r@.len() == self@.dom().len(),
            forall|i: int|
                0 <= i < r@.len() ==> self@.contains_key(#[trigger] r@[i].0) && r@[i].1@
                    == self@[r@[i].0],
            forall|k: u16| self@.contains_key(k) ==> exists|i: int| 0 <= i < r@.len() && #[trigger] r@[i].0 == k,
    {
        let mut terms: Vec<(u16, Rational)> = Vec::new();
        let entries = self.coefficents.iter();
        let ghost s = entries.remaining();
        for pair in it: entries
            invariant
                it.seq() == s,
                s.len() == self.coefficents@.dom().len(),
                forall|i: int|
                    #![trigger s[i]]
                    0 <= i < s.len() ==> self.coefficents@.contains_key(*s[i].0)
                        && self.coefficents@[*s[i].0] == *s[i].1,
                forall|k: u16| #[trigger]
                    self.coefficents@.contains_key(k) ==> s.contains((&k, &self.coefficents@[k])),
                terms@.len() == it.index(),
                forall|i: int| 0 <= i < it.index() ==> #[trigger] terms@[i].0 == *s[i].0 && terms@[i].1@ == (*s[i].1)@,
        {
            let (power, value) = pair;
            proof {
                assert(s[it.index()] == pair);
            }
            let copy = Rational::clone(value);
            let ghost before = terms@;
            terms.push((*power, copy));
            proof {
                assert forall|i: int| 0 <= i < it.index() + 1 implies #[trigger] terms@[i].0 == *s[i].0
                    && terms@[i].1@ == (*s[i].1)@ by {
                    if i < it.index() {
                        assert(terms@[i] == before[i]);
                    }
                }
            }
        }
        proof {
            assert forall|i: int| 0 <= i < terms@.len() implies self@.contains_key(#[trigger] terms@[i].0) && terms@[i].1@
                    == self@[terms@[i].0] by {
                assert(terms@[i].0 == *s[i].0);
            }
            assert forall|k: u16| self@.contains_key(k) implies exists|i: int| 0 <= i < terms@.len() && #[trigger] terms@[i].0 == k by {
                assert(s.contains((&k, &self.coefficents@[k])));
                let i = choose|i: int| 0 <= i < s.len() && s[i] == (&k, &self.coefficents@[k]);
                assert(terms@[i].0 == *s[i].0);
            }
            assert(self@.dom() =~= self.coefficents@.dom());
        }
        terms
    }
}

impl Clone for Polynomial {
    /// A copy with the same coefficients.
    fn clone(&self) -> (r: Polynomial)
        ensures
            r@ == self@,
    {
        proof {
            use_type_invariant(self);
        }
        let r = Polynomial { coefficents: self.coefficents.clone() };
        proof {
            assert(r@ =~= self@);
        }
        r
    }
}

impl core::ops::Neg for Polynomial {
    type Output = Polynomial;

    /// The polynomial with every coefficient negated.
    fn neg(self) -> (r: Polynomial)
        ensures
            poly_equiv(r@, poly_neg(self@)),
    {
        self.negate()
    }
}

// `neg` states its result in its own `ensures`, which callers use; the
// trait's generic specification is not claimed (`obeys_neg_spec` is false).
impl vstd::std_specs::ops::NegSpecImpl for Polynomial {
    open spec fn obeys_neg_spec() -> bool {
        false
    }

    open spec fn neg_req(self) -> bool {
        true
    }

    /// A polynomial whose coefficients are those of `self`, negated.
    open spec fn neg_spec(self) -> Polynomial {
        choose|p: Polynomial| poly_equiv(p@, poly_neg(self@))
    }
}

/// The associated Legendre polynomial `P_l^m` without its factor
/// `(1 - x^2)^(m/2)`: the `m`-th derivative of `P_l`, negated when the
/// Condon-Shortley phase is asked for and `m` is odd.
pub open spec fn associated_map(l: nat, m: nat, phase: Phase) -> Map<u16, (int, int)> {
    let d = poly_deriv_n(legendre_map(l), m);
    if phase == Phase::CondonShortley && m % 2 == 1 {
        poly_neg(d)
    } else {
        d
    }
}

/// An associated Legendre polynomial of degree `l` and order `m`, held as the
/// polynomial part and the order.
#[derive(Debug)]
pub struct AssociatedPolynomial {
    poly: Polynomial,
    m: u16,
}

impl View for AssociatedPolynomial {
    type V = (Map<u16, (int, int)>, u16);

    closed spec fn view(&self) -> (Map<u16, (int, int)>, u16) {
        (self.poly@, self.m)
    }
}

impl Clone for AssociatedPolynomial {
    /// A copy with the same polynomial part and order.
    fn clone(&self) -> (r: AssociatedPolynomial)
        ensures
            r@ == self@,
    {
        AssociatedPolynomial { poly: self.poly.clone(), m: self.m }
    }
}

impl AssociatedPolynomial {
    /// Generates the associated Legendre polynomial of degree `l` and order
    /// `m`; an error when `m > l`.
    ///
    /// - The Condon-Shortley phase is typically used in quantum mechanics.
    /// - It is not typically used in geophysics.
    pub fn new(l: u16, m: u16, phase: &Phase) -> (r: Result<Self, ()>)
        ensures
            r is Err <==> m > l,
            r matches Ok(a) ==> a@.1 == m && poly_equiv(a@.0, associated_map(l as nat, m as nat, *phase)),
    {
        if m > l {
            return Err(());
        }
        let mut poly = Polynomial::new(l);
        proof {
            lemma_legendre_map_wf(l as nat);
        }
        let mut i: u16 = 0;
        while i < m
            invariant
                i <= m,
                poly_equiv(poly@, poly_deriv_n(legendre_map(l as nat), i as nat)),
                poly_wf(poly_deriv_n(legendre_map(l as nat), i as nat)),
            decreases m - i,
        {
            let next = poly.differentiate();
            proof {
                use_type_invariant(&poly);
                let d = poly_deriv_n(legendre_map(l as nat), i as nat);
                lemma_poly_deriv_congruence(poly@, d);
                lemma_poly_wf_deriv(poly@);
                lemma_poly_equiv_trans(next@, poly_deriv(poly@), poly_deriv(d));
                lemma_poly_wf_deriv(d);
            }
            poly = next;
            i = i + 1;
        }
        if *phase == Phase::CondonShortley && m % 2 == 1 {
            let ghost before = poly@;
            proof {
                use_type_invariant(&poly);
            }
            poly = poly.negate();
            proof {
                let d = poly_deriv_n(legendre_map(l as nat), m as nat);
                lemma_poly_neg_congruence(before, d);
                lemma_poly_wf_neg(before);
                lemma_poly_equiv_trans(poly@, poly_neg(before), poly_neg(d));
            }
        }
        Ok(AssociatedPolynomial { poly, m })
    }

    /// The value at `x` of the polynomial part times `scale`, where `scale`
    /// stands for the factor `(1 - x^2)^(m/2)`; `None` when `x` lies outside
    /// `[-1, 1]`.
    pub fn evaluate(&self, x: &Rational, scale: &Rational) -> (r: Option<Rational>)
        ensures
            r is None <==> (q_lt(q_int(1), x@) || q_lt(x@, q_int(-1))),
            r matches Some(v) ==> q_equiv(v@, q_mul(scale@, poly_eval(self@.0, x@))),
    {
        match self.poly.evaluate(x) {
            Some(value) => {
                let r = rat_mul(scale, &value);
                proof {
                    use_type_invariant(&value);
                    use_type_invariant(scale);
                    use_type_invariant(&self.poly);
                    use_type_invariant(x);
                    lemma_eval_below_wf(self@.0, x@, 0x10000);
                    lemma_equiv_refl(scale@);
                    lemma_mul_congruence(scale@, value@, scale@, poly_eval(self@.0, x@));
                    lemma_wf_add(scale@, value@);
                    lemma_equiv_trans(r@, q_mul(scale@, value@), q_mul(scale@, poly_eval(self@.0, x@)));
                }
                Some(r)
            },
            Option::None => None,
        }
    }

    /// The order `m`.
    pub fn m(&self) -> (r: u16)
        ensures
            r == self@.1,
    {
        self.m
    }

    /// The polynomial part: the derivative of the Legendre polynomial, with
    /// its phase.
    pub fn poly(&self) -> (r: &Polynomial)
        ensures
            r@ == self@.0,
    {
        &self.poly
    }
}

} // verus!
