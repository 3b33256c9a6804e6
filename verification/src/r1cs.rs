//! Rank-1 constraint systems: `(A · w) × (B · w) = (C · w)` for each constraint.

use crate::field::{fadd, fmul, fr_from_u64, lemma_value_lt_modulus, ScalarField};
use crate::field_lemmas::{lemma_fadd_assoc, lemma_fadd_comm, lemma_fadd_zero, lemma_fmul_distrib, lemma_fmul_zero_one, lemma_ops_bound};
use crate::poly::vals;
use vstd::prelude::*;

verus! {

broadcast use lemma_value_lt_modulus;

/// The value, in the field, of the terms `coeff * w[idx]` summed left to right.
pub open spec fn lc_eval(terms: Seq<(nat, nat)>, w: Seq<nat>) -> nat
    decreases terms.len(),
{
    if terms.len() == 0 {
        0
    } else {
        fadd(lc_eval(terms.drop_last(), w), fmul(terms.last().1, w[terms.last().0 as int]))
    }
}

/// The sum, in the field, of the coefficients of the terms on variable `j`.
pub open spec fn lc_coef(terms: Seq<(nat, nat)>, j: nat) -> nat
    decreases terms.len(),
{
    if terms.len() == 0 {
        0
    } else {
        fadd(lc_coef(terms.drop_last(), j), if terms.last().0 == j { terms.last().1 } else { 0 })
    }
}

/// Every term names a variable below `n`.
pub open spec fn lc_in_range(terms: Seq<(nat, nat)>, n: nat) -> bool {
    forall|i: int| 0 <= i < terms.len() ==> #[trigger] terms[i].0 < n
}

/// A sparse linear combination of witness variables: `(index, coefficient)` terms.
#[derive(Debug, Clone)]
pub struct LinearCombination {
    pub terms: Vec<(usize, ScalarField)>,
}

impl View for LinearCombination {
    type V = Seq<(nat, nat)>;

    open spec fn view(&self) -> Seq<(nat, nat)> {
        self.terms@.map_values(|t: (usize, ScalarField)| (t.0 as nat, t.1.value()))
    }
}

/// One constraint `a · b = c`.
#[derive(Debug, Clone)]
pub struct Constraint {
    pub a: LinearCombination,
    pub b: LinearCombination,
    pub c: LinearCombination,
}

impl Constraint {
    /// The witness satisfies this constraint.
    pub open spec fn holds(self, w: Seq<nat>) -> bool {
        fmul(lc_eval(self.a@, w), lc_eval(self.b@, w)) == lc_eval(self.c@, w)
    }

    /// All three combinations name variables below `n`.
    pub open spec fn in_range(self, n: nat) -> bool {
        lc_in_range(self.a@, n) && lc_in_range(self.b@, n) && lc_in_range(self.c@, n)
    }
}

/// A constraint system over `num_variables` witness entries, the first of which
/// is the constant one, followed by the public inputs.
#[derive(Debug, Clone)]
pub struct R1cs {
    pub num_variables: usize,
    pub num_public_inputs: usize,
    pub constraints: Vec<Constraint>,
}

impl R1cs {
    /// The witness has one entry per variable, starts with one, and satisfies
    /// every constraint.
    pub open spec fn satisfied_by(self, w: Seq<nat>) -> bool {
        &&& w.len() == self.num_variables
        &&& w[0] == 1
        &&& forall|i: int| 0 <= i < self.constraints@.len() ==> #[trigger] self.constraints@[i].holds(w)
    }

    /// Checking `w` reads only variables that exist: every constraint reached
    /// while all earlier ones hold names variables of `w` only.
    pub open spec fn checkable_by(self, w: Seq<nat>) -> bool {
        &&& w.len() == self.num_variables ==> w.len() >= 1
        &&& w.len() == self.num_variables && w[0] == 1 ==> forall|i: int|
            0 <= i < self.constraints@.len() && (forall|j: int| 0 <= j < i ==> #[trigger] self.constraints@[j].holds(w))
                ==> #[trigger] self.constraints@[i].in_range(w.len())
    }
}

impl LinearCombination {
    /// The empty combination.
    pub fn zero() -> (r: Self)
        ensures
            r@ == Seq::<(nat, nat)>::empty(),
    {
        let r = Self { terms: Vec::new() };
        assert(r@ =~= Seq::<(nat, nat)>::empty());
        r
    }

    /// This combination with the term `coeff * w[idx]` appended.
    pub fn term(self, idx: usize, coeff: ScalarField) -> (r: Self)
        ensures
            r@ == self@.push((idx as nat, coeff.value())),
    {
        let mut s = self;
        let ghost before = s@;
        s.terms.push((idx, coeff));
        assert(s@ =~= before.push((idx as nat, coeff.value())));
        s
    }

    /// The value of the combination on a witness.
    pub fn evaluate(&self, witness: &[ScalarField]) -> (r: ScalarField)
        requires
            lc_in_range(self@, witness@.len()),
        ensures
            r.value() == lc_eval(self@, vals(witness@)),
    {
        let n = self.terms.len();
        let mut acc = fr_from_u64(0);
        let mut i: usize = 0;
        while i < n
            invariant
                n == self@.len(),
                i <= n,
                lc_in_range(self@, witness@.len()),
                acc.value() == lc_eval(self@.subrange(0, i as int), vals(witness@)),
            decreases n - i,
        {
            let (idx, c) = self.terms[i];
            assert(self@[i as int].0 < witness@.len());
            let t = c.mul(&witness[idx]);
            acc = acc.add(&t);
            assert(self@.subrange(0, i + 1).drop_last() =~= self@.subrange(0, i as int));
            i = i + 1;
        }
        assert(self@.subrange(0, n as int) =~= self@);
        acc
    }

    /// The total coefficient of variable `variable_index`.
    pub fn coefficient_of(&self, variable_index: usize) -> (r: ScalarField)
        ensures
            r.value() == lc_coef(self@, variable_index as nat),
    {
        let n = self.terms.len();
        let mut acc = fr_from_u64(0);
        let mut i: usize = 0;
        while i < n
            invariant
                n == self@.len(),
                i <= n,
                acc.value() == lc_coef(self@.subrange(0, i as int), variable_index as nat),
            decreases n - i,
        {
            let (idx, c) = self.terms[i];
            if idx == variable_index {
                acc = acc.add(&c);
            } else {
                proof { lemma_fadd_zero(acc.value()); }
            }
            assert(self@.subrange(0, i + 1).drop_last() =~= self@.subrange(0, i as int));
            i = i + 1;
        }
        assert(self@.subrange(0, n as int) =~= self@);
        acc
    }
}

impl R1cs {
    /// Appends the constraint `a · b = c`.
    pub fn add_constraint(&mut self, a: LinearCombination, b: LinearCombination, c: LinearCombination)
        ensures
            final(self).num_variables == old(self).num_variables,
            final(self).num_public_inputs == old(self).num_public_inputs,
            final(self).constraints@ == old(self).constraints@.push(Constraint { a, b, c }),
    {
        self.constraints.push(Constraint { a, b, c });
    }

    /// A system with no constraints over the constant one, the public inputs
    /// and the private inputs.
    pub fn new(num_public_inputs: usize, num_private_inputs: usize) -> (r: Self)
        requires
            1 + num_public_inputs + num_private_inputs <= usize::MAX,
        ensures
            r.num_variables == 1 + num_public_inputs + num_private_inputs,
            r.num_public_inputs == num_public_inputs,
            r.constraints@.len() == 0,
    {
        Self { num_variables: 1 + num_public_inputs + num_private_inputs, num_public_inputs, constraints: Vec::new() }
    }

    /// Whether the witness satisfies the system.
    pub fn is_satisfied(&self, witness: &[ScalarField]) -> (r: bool)
        requires
            self.checkable_by(vals(witness@)),
        ensures
            r == self.satisfied_by(vals(witness@)),
    {
        let ghost w = vals(witness@);
        if witness.len() != self.num_variables {
            return false;
        }
        let one = fr_from_u64(1);
        if !witness[0].equals(&one) {
            return false;
        }
        let m = self.constraints.len();
        let mut i: usize = 0;
        while i < m
            invariant
                m == self.constraints@.len(),
                i <= m,
                w == vals(witness@),
                w.len() == self.num_variables,
                w.len() >= 1,
                w[0] == 1,
                self.checkable_by(w),
                forall|j: int| 0 <= j < i ==> #[trigger] self.constraints@[j].holds(w),
            decreases m - i,
        {
            let con = &self.constraints[i];
            assert(self.constraints@[i as int].in_range(w.len()));
            let x = con.a.evaluate(witness);
            let y = con.b.evaluate(witness);
            let z = con.c.evaluate(witness);
            if !x.mul(&y).equals(&z) {
                assert(!self.constraints@[i as int].holds(w));
                return false;
            }
            i = i + 1;
        }
        true
    }
}

/// The sum, in the field, of `coef_j * w[j]` over the variables `j < n`, where
/// `coef_j` is the total coefficient of variable `j` in the terms.
pub open spec fn lc_dense(terms: Seq<(nat, nat)>, w: Seq<nat>, n: nat) -> nat
    decreases n,
{
    if n == 0 {
        0
    } else {
        fadd(lc_dense(terms, w, (n - 1) as nat), fmul(lc_coef(terms, (n - 1) as nat), w[n - 1]))
    }
}

proof fn lemma_lc_coef_bound(terms: Seq<(nat, nat)>, j: nat)
    ensures
        lc_coef(terms, j) < crate::field::fr_modulus(),
{
    if terms.len() > 0 {
        lemma_ops_bound(lc_coef(terms.drop_last(), j), if terms.last().0 == j { terms.last().1 } else { 0 });
    }
}

proof fn lemma_lc_dense_bound(terms: Seq<(nat, nat)>, w: Seq<nat>, n: nat)
    ensures
        lc_dense(terms, w, n) < crate::field::fr_modulus(),
{
    if n > 0 {
        lemma_ops_bound(lc_dense(terms, w, (n - 1) as nat), fmul(lc_coef(terms, (n - 1) as nat), w[n - 1]));
    }
}

proof fn lemma_lc_dense_empty(w: Seq<nat>, n: nat)
    ensures
        lc_dense(Seq::<(nat, nat)>::empty(), w, n) == 0,
    decreases n,
{
    if n > 0 {
        lemma_lc_dense_empty(w, (n - 1) as nat);
        lemma_fmul_zero_one(w[n - 1]);
        lemma_fadd_zero(0);
    }
}

proof fn lemma_lc_dense_push(terms: Seq<(nat, nat)>, t: (nat, nat), w: Seq<nat>, n: nat)
    ensures
        lc_dense(terms.push(t), w, n) == fadd(lc_dense(terms, w, n), if t.0 < n { fmul(t.1, w[t.0 as int]) } else { 0 }),
    decreases n,
{
    let t2 = terms.push(t);
    lemma_lc_dense_bound(terms, w, n);
    if n == 0 {
        lemma_fadd_zero(0);
    } else {
        let j = (n - 1) as nat;
        lemma_lc_dense_push(terms, t, w, j);
        assert(t2.drop_last() =~= terms);
        let f = lc_coef(terms, j);
        lemma_lc_coef_bound(terms, j);
        let x = lc_dense(terms, w, j);
        lemma_lc_dense_bound(terms, w, j);
        let g = fmul(f, w[j as int]);
        if t.0 == j {
            lemma_fadd_zero(x);
            lemma_fmul_distrib(w[j as int], f, t.1);
            crate::field_lemmas::lemma_fmul_comm(w[j as int], fadd(f, t.1));
            crate::field_lemmas::lemma_fmul_comm(w[j as int], f);
            crate::field_lemmas::lemma_fmul_comm(w[j as int], t.1);
            lemma_fadd_assoc(x, g, fmul(t.1, w[j as int]));
        } else {
            lemma_fadd_zero(f);
            if t.0 < j {
                let e = fmul(t.1, w[t.0 as int]);
                lemma_fadd_assoc(x, e, g);
                lemma_fadd_comm(e, g);
                lemma_fadd_assoc(x, g, e);
            } else {
                lemma_fadd_zero(x);
                lemma_ops_bound(x, g);
                lemma_fadd_zero(fadd(x, g));
            }
        }
    }
}

/// A linear combination evaluates to the sum over the variables of each
/// variable's total coefficient times its witness value: `evaluate` and
/// `coefficient_of` describe the same linear form.
pub proof fn law_evaluate_by_coefficients(terms: Seq<(nat, nat)>, w: Seq<nat>, n: nat)
    requires
        lc_in_range(terms, n),
    ensures
        lc_eval(terms, w) == lc_dense(terms, w, n),
    decreases terms.len(),
{
    if terms.len() == 0 {
        lemma_lc_dense_empty(w, n);
        assert(terms =~= Seq::<(nat, nat)>::empty());
    } else {
        let t0 = terms.drop_last();
        assert(lc_in_range(t0, n)) by {
            assert forall|i: int| 0 <= i < t0.len() implies #[trigger] t0[i].0 < n by {
                assert(t0[i] == terms[i]);
            }
        }
        assert(terms.last().0 < n) by {
            assert(terms[terms.len() - 1].0 < n);
        }
        law_evaluate_by_coefficients(t0, w, n);
        assert(t0.push(terms.last()) =~= terms);
        lemma_lc_dense_push(t0, terms.last(), w, n);
    }
}

/// Appending a term `(idx, c)` adds `c` to the coefficient of variable `idx`
/// and `c * w[idx]` to the value.
pub proof fn law_term_extends(terms: Seq<(nat, nat)>, idx: nat, c: nat, j: nat, w: Seq<nat>)
    ensures
        lc_coef(terms.push((idx, c)), j) == fadd(lc_coef(terms, j), if idx == j { c } else { 0 }),
        lc_eval(terms.push((idx, c)), w) == fadd(lc_eval(terms, w), fmul(c, w[idx as int])),
{
    assert(terms.push((idx, c)).drop_last() =~= terms);
}

/// Appending a constraint strengthens satisfaction: the extended system is
/// satisfied exactly when the old one is and the new constraint holds.
pub proof fn law_add_constraint_satisfaction(r1: R1cs, r2: R1cs, con: Constraint, w: Seq<nat>)
    requires
        r2.num_variables == r1.num_variables,
        r2.constraints@ == r1.constraints@.push(con),
    ensures
        r2.satisfied_by(w) <==> (r1.satisfied_by(w) && con.holds(w)),
{
    let n1 = r1.constraints@.len();
    if r2.satisfied_by(w) {
        assert(r2.constraints@[n1 as int] == con);
        assert forall|i: int| 0 <= i < n1 implies #[trigger] r1.constraints@[i].holds(w) by {
            assert(r2.constraints@[i] == r1.constraints@[i]);
        }
    }
    if r1.satisfied_by(w) && con.holds(w) {
        assert forall|i: int| 0 <= i < r2.constraints@.len() implies #[trigger] r2.constraints@[i].holds(w) by {
            if i < n1 {
                assert(r2.constraints@[i] == r1.constraints@[i]);
            }
        }
    }
}

impl Default for LinearCombination {
    /// The empty combination.
    fn default() -> (r: Self)
        ensures
            r@ == Seq::<(nat, nat)>::empty(),
    {
        let r = Self { terms: Vec::new() };
        assert(r@ =~= Seq::<(nat, nat)>::empty());
        r
    }
}

} // verus!
