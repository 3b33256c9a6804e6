//! Reduction of a rank-1 constraint system to a quadratic arithmetic program
//! by Lagrange interpolation over the domain `1, 2, ..., m`.

use crate::field::{fadd, fmul, fneg, fr_from_u64, fr_modulus, fsub, lemma_value_lt_modulus, ScalarField};
use crate::field_lemmas::{
    lemma_fadd_zero, lemma_fmul_comm, lemma_fmul_zero_one, lemma_fsub_is_add_neg, lemma_fsub_self,
    lemma_ops_bound,
};
use crate::poly::{
    all_zero, coef, conv_coef, lemma_csum_bound, lemma_trim, padd, peval, pmul, pscale, psub, trim, vals,
    Polynomial,
};
use crate::poly_lemmas::{
    law_eval_add, law_eval_div_rem, law_eval_mul, law_eval_scale, law_eval_sub, lemma_peval_bound,
    lemma_peval_coef_eq, lemma_pmul_last, lemma_trim_idem,
};
use crate::roots::{is_prime, lemma_no_zero_divisors, lemma_roots_zero};
use vstd::arithmetic::div_mod::{lemma_mod_add_multiples_vanish, lemma_small_mod};
use crate::r1cs::{law_evaluate_by_coefficients, lc_coef, lc_dense, lc_eval, R1cs};
use vstd::prelude::*;

verus! {

broadcast use lemma_value_lt_modulus;

/// The product, in the field, of `x - xs[j]` over `j < m` with `j != i`.
pub open spec fn lag_prod(xs: Seq<nat>, i: int, x: nat, m: nat) -> nat
    decreases m,
{
    if m == 0 {
        1
    } else if m - 1 == i {
        lag_prod(xs, i, x, (m - 1) as nat)
    } else {
        fmul(lag_prod(xs, i, x, (m - 1) as nat), fsub(x, xs[m - 1]))
    }
}

/// The product, in the field, of `x - xs[j]` over `j < m`.
pub open spec fn vanish(xs: Seq<nat>, x: nat, m: nat) -> nat
    decreases m,
{
    if m == 0 {
        1
    } else {
        fmul(vanish(xs, x, (m - 1) as nat), fsub(x, xs[m - 1]))
    }
}

/// The Lagrange basis product for `i` vanishes at every other point.
proof fn lemma_lag_prod_zero(xs: Seq<nat>, i: int, k: int, m: nat)
    requires
        0 <= k < m,
        k != i,
    ensures
        lag_prod(xs, i, xs[k], m) == 0,
    decreases m,
{
    if k < m - 1 {
        lemma_lag_prod_zero(xs, i, k, (m - 1) as nat);
        if m - 1 != i {
            lemma_fmul_zero_one(fsub(xs[k], xs[m - 1]));
        }
    } else {
        lemma_fsub_self(xs[k]);
        lemma_fmul_zero_one(lag_prod(xs, i, xs[k], (m - 1) as nat));
    }
}

/// The vanishing product is zero at each of its points.
proof fn lemma_vanish_zero(xs: Seq<nat>, k: int, m: nat)
    requires
        0 <= k < m,
    ensures
        vanish(xs, xs[k], m) == 0,
    decreases m,
{
    if k < m - 1 {
        lemma_vanish_zero(xs, k, (m - 1) as nat);
        lemma_fmul_zero_one(fsub(xs[k], xs[m - 1]));
    } else {
        lemma_fsub_self(xs[k]);
        lemma_fmul_zero_one(vanish(xs, xs[k], (m - 1) as nat));
    }
}

/// The monic linear polynomial `x - c`.
fn linear_factor(c: &ScalarField) -> (r: Polynomial)
    ensures
        r@.len() == 2,
        r@[1] == 1,
        forall|x: nat| x < fr_modulus() ==> #[trigger] peval(r@, x) == fsub(x, c.value()),
{
    let one = fr_from_u64(1);
    let nc = c.neg();
    let mut v: Vec<ScalarField> = Vec::new();
    v.push(nc);
    v.push(one);
    assert(vals(v@) =~= seq![fneg(c.value()), 1nat]);
    let r = Polynomial::new(v);
    assert forall|x: nat| x < fr_modulus() implies #[trigger] peval(r@, x) == fsub(x, c.value()) by {
        let s = seq![fneg(c.value()), 1nat];
        assert(s.drop_first() =~= seq![1nat]);
        assert(s.drop_first().drop_first() =~= Seq::<nat>::empty());
        assert(peval(s.drop_first().drop_first(), x) == 0);
        assert(peval(s.drop_first(), x) == fadd(fmul(0, x), 1));
        lemma_fmul_zero_one(x);
        lemma_fadd_zero(1);
        lemma_fsub_is_add_neg(x, c.value());
    }
    r
}

/// The polynomial of degree below `n` through the points `(xs[k], ys[k])`.
fn interpolation(xs: &[ScalarField], ys: &[ScalarField]) -> (r: Polynomial)
    requires
        xs.len() == ys.len(),
        xs.len() >= 1,
        xs.len() + 2 <= usize::MAX,
        forall|i: int| 0 <= i < xs.len() ==> #[trigger] lag_prod(vals(xs@), i, vals(xs@)[i], xs.len() as nat) != 0,
    ensures
        r@ == trim(r@),
        r@.len() <= xs.len(),
        forall|k: int| 0 <= k < xs.len() ==> #[trigger] peval(r@, vals(xs@)[k]) == vals(ys@)[k],
{
    let ghost xv = vals(xs@);
    let ghost yv = vals(ys@);
    let n = xs.len();
    let mut acc = Polynomial::zero();
    proof {
        lemma_trim_idem(seq![0nat]);
        assert forall|k: int| 0 <= k < n implies #[trigger] peval(acc@, xv[k]) == 0 by {
            assert(acc@.drop_first() =~= Seq::<nat>::empty());
            assert(peval(acc@.drop_first(), xv[k]) == 0);
            lemma_fmul_zero_one(xv[k]);
            lemma_fadd_zero(0);
        }
    }
    let mut i: usize = 0;
    while i < n
        invariant
            n == xs.len(),
            n == ys.len(),
            n + 2 <= usize::MAX,
            xv == vals(xs@),
            yv == vals(ys@),
            i <= n,
            forall|i: int| 0 <= i < n ==> #[trigger] lag_prod(xv, i, xv[i], n as nat) != 0,
            acc@ == trim(acc@),
            1 <= acc@.len() <= n,
            forall|k: int| 0 <= k < n ==> #[trigger] peval(acc@, xv[k]) == if k < i { yv[k] } else { 0 },
        decreases n - i,
    {
        let mut basis = Polynomial::one();
        let mut denom = fr_from_u64(1);
        proof {
            assert forall|x: nat| x < fr_modulus() implies #[trigger] peval(basis@, x) == 1 by {
                assert(basis@.drop_first() =~= Seq::<nat>::empty());
                assert(peval(basis@.drop_first(), x) == 0);
                lemma_fmul_zero_one(x);
                lemma_fadd_zero(1);
            }
        }
        let mut j: usize = 0;
        while j < n
            invariant
                n == xs.len(),
                n + 2 <= usize::MAX,
                xv == vals(xs@),
                i < n,
                j <= n,
                1 <= basis@.len() <= 1 + j - (if i < j { 1int } else { 0int }),
                forall|x: nat| x < fr_modulus() ==> #[trigger] peval(basis@, x) == lag_prod(xv, i as int, x, j as nat),
                denom.value() == lag_prod(xv, i as int, xv[i as int], j as nat),
            decreases n - j,
        {
            if i == j {
                j = j + 1;
                continue;
            }
            let factor = linear_factor(&xs[j]);
            let ghost b0 = basis@;
            basis = basis.mul(&factor);
            let diff = xs[i].sub(&xs[j]);
            denom = denom.mul(&diff);
            proof {
                lemma_trim(pmul(b0, factor@));
                assert forall|x: nat| x < fr_modulus() implies #[trigger] peval(basis@, x) == lag_prod(xv, i as int, x, (j + 1) as nat) by {
                    law_eval_mul(b0, factor@, x);
                }
            }
            j = j + 1;
        }
        assert(denom.value() != 0);
        let v = ys[i].div(&denom);
        let li = basis.scale(v);
        let ghost a0 = acc@;
        acc = acc.add(&li);
        proof {
            lemma_trim(pscale(basis@, v.value()));
            lemma_trim(padd(a0, li@));
            lemma_trim_idem(padd(a0, li@));
            assert forall|k: int| 0 <= k < n implies #[trigger] peval(acc@, xv[k]) == if k < i + 1 { yv[k] } else { 0 } by {
                law_eval_add(a0, li@, xv[k]);
                law_eval_scale(basis@, v.value(), xv[k]);
                if k == i {
                    lemma_fmul_comm(denom.value(), v.value());
                    lemma_fadd_zero(yv[k]);
                } else {
                    lemma_lag_prod_zero(xv, i as int, k, n as nat);
                    lemma_fmul_zero_one(v.value());
                    lemma_peval_bound(a0, xv[k]);
                    lemma_fadd_zero(peval(a0, xv[k]));
                }
            }
        }
        i = i + 1;
    }
    acc
}

/// The evaluation domain `1, 2, ..., m`.
pub open spec fn domain_seq(m: nat) -> Seq<nat> {
    Seq::new(m, |i: int| (i + 1) as nat)
}

/// Lagrange interpolation over `1, ..., m` never divides by zero: each point's
/// product of differences to the others is nonzero in the field. This holds
/// for every `m` below the field's (prime) order.
pub open spec fn domain_interpolable(m: nat) -> bool {
    forall|i: int| 0 <= i < m ==> #[trigger] lag_prod(domain_seq(m), i, domain_seq(m)[i], m) != 0
}

/// In a prime field a product of nonzero differences `x - xs[j]` is nonzero.
proof fn lemma_lag_prod_nonzero(xs: Seq<nat>, i: int, x: nat, m: nat)
    requires
        is_prime(fr_modulus()),
        forall|j: int| 0 <= j < m && j != i ==> #[trigger] fsub(x, xs[j]) != 0,
    ensures
        lag_prod(xs, i, x, m) != 0,
        lag_prod(xs, i, x, m) < fr_modulus(),
    decreases m,
{
    if m > 0 {
        lemma_lag_prod_nonzero(xs, i, x, (m - 1) as nat);
        if m - 1 != i {
            let a = lag_prod(xs, i, x, (m - 1) as nat);
            let b = fsub(x, xs[m - 1]);
            assert(b != 0);
            lemma_ops_bound(a, b);
            if fmul(a, b) == 0 {
                lemma_no_zero_divisors(a, b);
            }
        }
    }
}

/// Over a prime field, interpolation on `1, ..., m` is well defined for every
/// `m` below the field's order: the points are pairwise distinct there.
pub proof fn lemma_domain_interpolable(m: nat)
    requires
        is_prime(fr_modulus()),
        m < fr_modulus(),
    ensures
        domain_interpolable(m),
{
    let xs = domain_seq(m);
    let p = fr_modulus() as int;
    assert forall|i: int| 0 <= i < m implies #[trigger] lag_prod(xs, i, xs[i], m) != 0 by {
        assert forall|j: int| 0 <= j < m && j != i implies #[trigger] fsub(xs[i], xs[j]) != 0 by {
            let d = i - j;
            assert(xs[i] - xs[j] == d);
            if d > 0 {
                lemma_small_mod(d as nat, p as nat);
            } else {
                lemma_small_mod((d + p) as nat, p as nat);
                lemma_mod_add_multiples_vanish(d, p);
            }
        }
        lemma_lag_prod_nonzero(xs, i, xs[i], m);
    }
}

/// The coefficient of variable `j` in part `part` (0 for `A`, 1 for `B`, 2
/// for `C`) of constraint `k`.
pub open spec fn column_val(r1cs: R1cs, part: u8, k: int, j: nat) -> nat {
    if part == 0 {
        lc_coef(r1cs.constraints@[k].a@, j)
    } else if part == 1 {
        lc_coef(r1cs.constraints@[k].b@, j)
    } else {
        lc_coef(r1cs.constraints@[k].c@, j)
    }
}

/// `p` is normalised, of degree below the number `m` of constraints, and takes
/// at `k + 1` the coefficient of variable `j` in part `part` of constraint `k`,
/// for every `k < m`.
pub open spec fn interpolates(p: Seq<nat>, r1cs: R1cs, part: u8, j: nat) -> bool {
    &&& p == trim(p)
    &&& p.len() <= r1cs.constraints@.len()
    &&& forall|k: int| 0 <= k < r1cs.constraints@.len() ==> #[trigger] peval(p, (k + 1) as nat) == column_val(r1cs, part, k, j)
}

/// A quadratic arithmetic program: for each variable the polynomials through
/// its coefficients in the `A`, `B` and `C` parts of every constraint, and the
/// vanishing polynomial of the domain.
#[derive(Debug, Clone)]
pub struct Qap {
    pub domain: Vec<ScalarField>,
    pub a_i: Vec<Polynomial>,
    pub b_i: Vec<Polynomial>,
    pub c_i: Vec<Polynomial>,
    pub z_i: Polynomial,
}

/// The field elements `1, ..., m`.
fn make_domain(m: usize) -> (r: Vec<ScalarField>)
    ensures
        r.len() == m,
        vals(r@) == domain_seq(m as nat),
{
    let mut r: Vec<ScalarField> = Vec::new();
    let mut i: usize = 0;
    while i < m
        invariant
            i <= m,
            r.len() == i,
            vals(r@) == domain_seq(i as nat),
        decreases m - i,
    {
        let ghost before = vals(r@);
        let v = fr_from_u64((i as u64) + 1);
        r.push(v);
        assert(vals(r@) =~= before.push(v.value()));
        assert(domain_seq((i + 1) as nat) =~= domain_seq(i as nat).push((i + 1) as nat));
        i = i + 1;
    }
    r
}

/// The coefficient of variable `j` in part `part` of every constraint.
fn column(r1cs: &R1cs, part: u8, j: usize) -> (r: Vec<ScalarField>)
    requires
        part < 3,
    ensures
        r.len() == r1cs.constraints.len(),
        forall|k: int| 0 <= k < r.len() ==> #[trigger] vals(r@)[k] == column_val(*r1cs, part, k, j as nat),
{
    let m = r1cs.constraints.len();
    let mut r: Vec<ScalarField> = Vec::new();
    let mut k: usize = 0;
    while k < m
        invariant
            m == r1cs.constraints.len(),
            k <= m,
            r.len() == k,
            forall|kk: int| 0 <= kk < k ==> #[trigger] vals(r@)[kk] == column_val(*r1cs, part, kk, j as nat),
        decreases m - k,
    {
        let con = &r1cs.constraints[k];
        let v = if part == 0 {
            con.a.coefficient_of(j)
        } else if part == 1 {
            con.b.coefficient_of(j)
        } else {
            con.c.coefficient_of(j)
        };
        let ghost before = vals(r@);
        r.push(v);
        assert(vals(r@) =~= before.push(v.value()));
        k = k + 1;
    }
    r
}

/// The polynomials of one part for every variable.
fn part_polys(r1cs: &R1cs, part: u8, domain: &Vec<ScalarField>) -> (r: Vec<Polynomial>)
    requires
        part < 3,
        r1cs.constraints.len() >= 1,
        r1cs.constraints.len() + 2 <= usize::MAX,
        domain.len() == r1cs.constraints.len(),
        vals(domain@) == domain_seq(r1cs.constraints.len() as nat),
        domain_interpolable(r1cs.constraints.len() as nat),
    ensures
        r.len() == r1cs.num_variables,
        forall|j: int| 0 <= j < r.len() ==> #[trigger] interpolates(r@[j]@, *r1cs, part, j as nat),
{
    let n = r1cs.num_variables;
    let m = r1cs.constraints.len();
    let mut r: Vec<Polynomial> = Vec::new();
    let mut j: usize = 0;
    while j < n
        invariant
            part < 3,
            n == r1cs.num_variables,
            m == r1cs.constraints.len(),
            m >= 1,
            m + 2 <= usize::MAX,
            domain.len() == m,
            vals(domain@) == domain_seq(m as nat),
            domain_interpolable(m as nat),
            j <= n,
            r.len() == j,
            forall|jj: int| 0 <= jj < j ==> #[trigger] interpolates(r@[jj]@, *r1cs, part, jj as nat),
        decreases n - j,
    {
        let col = column(r1cs, part, j);
        let p = interpolation(domain.as_slice(), col.as_slice());
        assert forall|k: int| 0 <= k < m implies #[trigger] peval(p@, (k + 1) as nat) == column_val(*r1cs, part, k, j as nat) by {
            assert(vals(domain@)[k] == (k + 1) as nat);
            assert(peval(p@, vals(domain@)[k]) == vals(col@)[k]);
        }
        let ghost before = r@;
        r.push(p);
        assert forall|jj: int| 0 <= jj < j + 1 implies #[trigger] interpolates(r@[jj]@, *r1cs, part, jj as nat) by {
            if jj < j {
                assert(r@[jj] == before[jj]);
            }
        }
        j = j + 1;
    }
    r
}

/// The reduction of the constraint system to a quadratic arithmetic program
/// over the domain `1, ..., m` for `m` constraints.
pub fn r1cs_to_qap(r1cs: &R1cs) -> (q: Qap)
    requires
        r1cs.constraints.len() >= 1,
        r1cs.constraints.len() + 2 <= usize::MAX,
        domain_interpolable(r1cs.constraints.len() as nat),
    ensures
        vals(q.domain@) == domain_seq(r1cs.constraints.len() as nat),
        q.a_i.len() == r1cs.num_variables,
        q.b_i.len() == r1cs.num_variables,
        q.c_i.len() == r1cs.num_variables,
        forall|j: int| 0 <= j < r1cs.num_variables ==> #[trigger] interpolates(q.a_i@[j]@, *r1cs, 0, j as nat),
        forall|j: int| 0 <= j < r1cs.num_variables ==> #[trigger] interpolates(q.b_i@[j]@, *r1cs, 1, j as nat),
        forall|j: int| 0 <= j < r1cs.num_variables ==> #[trigger] interpolates(q.c_i@[j]@, *r1cs, 2, j as nat),
        q.z_i@.len() == r1cs.constraints.len() + 1,
        q.z_i@.last() == 1,
        forall|x: nat| x < fr_modulus() ==> #[trigger] peval(q.z_i@, x) == vanish(
            domain_seq(r1cs.constraints.len() as nat), x, r1cs.constraints.len() as nat),
{
    let m = r1cs.constraints.len();
    let domain = make_domain(m);
    let a_i = part_polys(r1cs, 0, &domain);
    let b_i = part_polys(r1cs, 1, &domain);
    let c_i = part_polys(r1cs, 2, &domain);
    let ghost dv = vals(domain@);
    let mut z_i = Polynomial::one();
    proof {
        assert forall|x: nat| x < fr_modulus() implies #[trigger] peval(z_i@, x) == vanish(dv, x, 0) by {
            assert(z_i@.drop_first() =~= Seq::<nat>::empty());
            assert(peval(z_i@.drop_first(), x) == 0);
            lemma_fmul_zero_one(x);
            lemma_fadd_zero(1);
        }
    }
    let mut k: usize = 0;
    while k < m
        invariant
            m == domain.len(),
            m + 2 <= usize::MAX,
            dv == vals(domain@),
            k <= m,
            z_i@.len() == k + 1,
            z_i@.last() == 1,
            forall|x: nat| x < fr_modulus() ==> #[trigger] peval(z_i@, x) == vanish(dv, x, k as nat),
        decreases m - k,
    {
        let factor = linear_factor(&domain[k]);
        let ghost z0 = z_i@;
        z_i = z_i.mul(&factor);
        proof {
            assert forall|x: nat| x < fr_modulus() implies #[trigger] peval(z_i@, x) == vanish(dv, x, (k + 1) as nat) by {
                law_eval_mul(z0, factor@, x);
            }
            lemma_pmul_last(z0, factor@);
            lemma_fmul_zero_one(1);
        }
        k = k + 1;
    }
    let q = Qap { domain, a_i, b_i, c_i, z_i };
    q
}

/// The combination `sum_j polys[j](x) * w[j]` over the variables `j < n`.
pub open spec fn combine(polys: Seq<Polynomial>, w: Seq<nat>, x: nat, n: nat) -> nat
    decreases n,
{
    if n == 0 {
        0
    } else {
        fadd(combine(polys, w, x, (n - 1) as nat), fmul(peval(polys[n - 1]@, x), w[n - 1]))
    }
}

/// The polynomials of one part all interpolate their columns.
pub open spec fn part_interpolates(polys: Seq<Polynomial>, r1cs: R1cs, part: u8) -> bool {
    &&& polys.len() == r1cs.num_variables
    &&& forall|j: int| 0 <= j < polys.len() ==> #[trigger] interpolates(polys[j]@, r1cs, part, j as nat)
}

proof fn lemma_combine_dense(polys: Seq<Polynomial>, r1cs: R1cs, part: u8, w: Seq<nat>, k: int, n: nat)
    requires
        part_interpolates(polys, r1cs, part),
        n <= polys.len(),
        0 <= k < r1cs.constraints@.len(),
    ensures
        combine(polys, w, (k + 1) as nat, n) == lc_dense(
            if part == 0 {
                r1cs.constraints@[k].a@
            } else if part == 1 {
                r1cs.constraints@[k].b@
            } else {
                r1cs.constraints@[k].c@
            },
            w,
            n,
        ),
    decreases n,
{
    if n > 0 {
        lemma_combine_dense(polys, r1cs, part, w, k, (n - 1) as nat);
        assert(interpolates(polys[n - 1]@, r1cs, part, (n - 1) as nat));
        assert(peval(polys[n - 1]@, (k + 1) as nat) == column_val(r1cs, part, k, (n - 1) as nat));
    }
}

/// The quadratic arithmetic program characterises the witnesses of its
/// constraint system: at the domain point `k + 1` the combined polynomials
/// satisfy `A(x)·B(x) = C(x)` exactly when constraint `k` holds, so a witness
/// satisfies the system exactly when it starts with one and `A·B - C`
/// vanishes on the whole domain (where the vanishing polynomial is zero).
pub proof fn law_qap_characterises_witnesses(r1cs: R1cs, q: Qap, w: Seq<nat>)
    requires
        part_interpolates(q.a_i@, r1cs, 0),
        part_interpolates(q.b_i@, r1cs, 1),
        part_interpolates(q.c_i@, r1cs, 2),
        forall|k: int| 0 <= k < r1cs.constraints@.len() ==> #[trigger] r1cs.constraints@[k].in_range(r1cs.num_variables as nat),
    ensures
        forall|k: int| 0 <= k < r1cs.constraints@.len() ==> (#[trigger] r1cs.constraints@[k].holds(w) <==> fmul(
            combine(q.a_i@, w, (k + 1) as nat, r1cs.num_variables as nat),
            combine(q.b_i@, w, (k + 1) as nat, r1cs.num_variables as nat),
        ) == combine(q.c_i@, w, (k + 1) as nat, r1cs.num_variables as nat)),
        r1cs.satisfied_by(w) <==> {
            &&& w.len() == r1cs.num_variables
            &&& w[0] == 1
            &&& forall|k: int| 0 <= k < r1cs.constraints@.len() ==> #[trigger] fmul(
                combine(q.a_i@, w, (k + 1) as nat, r1cs.num_variables as nat),
                combine(q.b_i@, w, (k + 1) as nat, r1cs.num_variables as nat),
            ) == combine(q.c_i@, w, (k + 1) as nat, r1cs.num_variables as nat)
        },
{
    let n = r1cs.num_variables as nat;
    assert forall|k: int| 0 <= k < r1cs.constraints@.len() implies (#[trigger] r1cs.constraints@[k].holds(w) <==> fmul(
        combine(q.a_i@, w, (k + 1) as nat, n),
        combine(q.b_i@, w, (k + 1) as nat, n),
    ) == combine(q.c_i@, w, (k + 1) as nat, n)) by {
        let con = r1cs.constraints@[k];
        assert(con.in_range(n));
        lemma_combine_dense(q.a_i@, r1cs, 0, w, k, n);
        lemma_combine_dense(q.b_i@, r1cs, 1, w, k, n);
        lemma_combine_dense(q.c_i@, r1cs, 2, w, k, n);
        law_evaluate_by_coefficients(con.a@, w, n);
        law_evaluate_by_coefficients(con.b@, w, n);
        law_evaluate_by_coefficients(con.c@, w, n);
    }
    let m = r1cs.constraints@.len();
    if r1cs.satisfied_by(w) {
        assert forall|k: int| 0 <= k < m implies #[trigger] fmul(
            combine(q.a_i@, w, (k + 1) as nat, n),
            combine(q.b_i@, w, (k + 1) as nat, n),
        ) == combine(q.c_i@, w, (k + 1) as nat, n) by {
            assert(r1cs.constraints@[k].holds(w));
        }
    }
    if w.len() == n && w[0] == 1 && forall|k: int| 0 <= k < m ==> #[trigger] fmul(
        combine(q.a_i@, w, (k + 1) as nat, n),
        combine(q.b_i@, w, (k + 1) as nat, n),
    ) == combine(q.c_i@, w, (k + 1) as nat, n) {
        assert forall|k: int| 0 <= k < m implies #[trigger] r1cs.constraints@[k].holds(w) by {
            assert(fmul(
                combine(q.a_i@, w, (k + 1) as nat, n),
                combine(q.b_i@, w, (k + 1) as nat, n),
            ) == combine(q.c_i@, w, (k + 1) as nat, n));
        }
    }
}

/// The vanishing polynomial's value is zero at every domain point `k + 1`.
pub proof fn law_vanishing_at_domain(m: nat, k: int)
    requires
        0 <= k < m,
    ensures
        vanish(domain_seq(m), (k + 1) as nat, m) == 0,
{
    lemma_vanish_zero(domain_seq(m), k, m);
}

/// The combination `sum_j w[j]·polys[j]` over `j < n`, built as a running sum
/// of scaled polynomials starting from the zero polynomial.
pub open spec fn wcomb(polys: Seq<Polynomial>, w: Seq<nat>, n: nat) -> Seq<nat>
    decreases n,
{
    if n == 0 {
        seq![0nat]
    } else {
        trim(padd(wcomb(polys, w, (n - 1) as nat), trim(pscale(polys[n - 1]@, w[n - 1]))))
    }
}

/// The witness polynomial `A·B - C` of the program for the witness `w`, where
/// `A`, `B`, `C` combine the `A`, `B`, `C` polynomials with the witness.
pub open spec fn witness_poly(q: Qap, w: Seq<nat>) -> Seq<nat> {
    let a = wcomb(q.a_i@, w, q.a_i@.len());
    let b = wcomb(q.b_i@, w, q.b_i@.len());
    let c = wcomb(q.c_i@, w, q.c_i@.len());
    trim(psub(trim(pmul(a, b)), c))
}

proof fn lemma_wcomb(polys: Seq<Polynomial>, w: Seq<nat>, n: nat, x: nat, bound: nat)
    requires
        n <= polys.len(),
        bound >= 1,
        forall|j: int| 0 <= j < n ==> #[trigger] polys[j]@.len() <= bound,
    ensures
        1 <= wcomb(polys, w, n).len() <= bound,
        peval(wcomb(polys, w, n), x) == combine(polys, w, x, n),
    decreases n,
{
    if n == 0 {
        let z = seq![0nat];
        assert(z.drop_first() =~= Seq::<nat>::empty());
        assert(peval(z.drop_first(), x) == 0);
        lemma_fmul_zero_one(x);
        lemma_fadd_zero(0);
    } else {
        let prev = wcomb(polys, w, (n - 1) as nat);
        lemma_wcomb(polys, w, (n - 1) as nat, x, bound);
        let p = polys[n - 1]@;
        let sc = trim(pscale(p, w[n - 1]));
        lemma_trim(pscale(p, w[n - 1]));
        lemma_trim(padd(prev, sc));
        law_eval_add(prev, sc, x);
        law_eval_scale(p, w[n - 1], x);
    }
}

/// The witness polynomial's value is `A(x)·B(x) - C(x)`.
proof fn lemma_witness_poly_eval(q: Qap, w: Seq<nat>, x: nat, bound: nat)
    requires
        bound >= 1,
        forall|j: int| 0 <= j < q.a_i@.len() ==> #[trigger] q.a_i@[j]@.len() <= bound,
        forall|j: int| 0 <= j < q.b_i@.len() ==> #[trigger] q.b_i@[j]@.len() <= bound,
        forall|j: int| 0 <= j < q.c_i@.len() ==> #[trigger] q.c_i@[j]@.len() <= bound,
    ensures
        peval(witness_poly(q, w), x) == fsub(
            fmul(combine(q.a_i@, w, x, q.a_i@.len()), combine(q.b_i@, w, x, q.b_i@.len())),
            combine(q.c_i@, w, x, q.c_i@.len()),
        ),
{
    let a = wcomb(q.a_i@, w, q.a_i@.len());
    let b = wcomb(q.b_i@, w, q.b_i@.len());
    let c = wcomb(q.c_i@, w, q.c_i@.len());
    lemma_wcomb(q.a_i@, w, q.a_i@.len(), x, bound);
    lemma_wcomb(q.b_i@, w, q.b_i@.len(), x, bound);
    lemma_wcomb(q.c_i@, w, q.c_i@.len(), x, bound);
    law_eval_sub(trim(pmul(a, b)), c, x);
    law_eval_mul(a, b, x);
}

/// Two field values with difference zero are equal.
proof fn lemma_fsub_zero_eq(u: nat, v: nat)
    requires
        u < fr_modulus(),
        v < fr_modulus(),
        fsub(u, v) == 0,
    ensures
        u == v,
{
    if u != v {
        let p = fr_modulus() as int;
        if u > v {
            vstd::arithmetic::div_mod::lemma_small_mod((u - v) as nat, fr_modulus());
        } else {
            vstd::arithmetic::div_mod::lemma_mod_multiples_vanish(1, u - v, p);
            vstd::arithmetic::div_mod::lemma_small_mod((p + u - v) as nat, fr_modulus());
        }
    }
}

/// A polynomial whose coefficients are all zero is zero everywhere.
proof fn lemma_all_zero_eval(s: Seq<nat>, x: nat)
    requires
        all_zero(s),
    ensures
        peval(s, x) == 0,
{
    assert forall|k: int| #[trigger] coef(s, k) == coef(Seq::<nat>::empty(), k) by {}
    lemma_peval_coef_eq(s, Seq::<nat>::empty(), x);
}

/// `p = h·z`, coefficient by coefficient.
pub open spec fn is_product(p: Seq<nat>, h: Seq<nat>, z: Seq<nat>) -> bool {
    forall|k: int| #[trigger] coef(p, k) == conv_coef(h, z, k)
}

/// The central law of the reduction: in the prime scalar field, a witness that
/// starts with one satisfies the constraint system exactly when the vanishing
/// polynomial `t` divides `A·B - C`, that is, exactly when long division of
/// `A·B - C` by `t` leaves a zero remainder, and exactly when `A·B - C = H·t`
/// for some polynomial `H`. The program is the reduction's output (its
/// interpolation and vanishing properties), and every term names a variable.
/// The premise `is_prime(fr_modulus())` is the primality of the BN254 scalar
/// order, which ark-ff's `PrimeField` for `Fr` stands for; it is what lets a
/// remainder with fewer coefficients than domain points vanish on the whole
/// domain only if it is zero.
pub proof fn law_qap_divisibility(r1cs: R1cs, q: Qap, w: Seq<nat>, quo: Polynomial, rem: Polynomial)
    requires
        is_prime(fr_modulus()),
        part_interpolates(q.a_i@, r1cs, 0),
        part_interpolates(q.b_i@, r1cs, 1),
        part_interpolates(q.c_i@, r1cs, 2),
        q.z_i@.len() == r1cs.constraints.len() + 1,
        forall|x: nat| x < fr_modulus() ==> #[trigger] peval(q.z_i@, x) == vanish(
            domain_seq(r1cs.constraints.len() as nat), x, r1cs.constraints.len() as nat),
        forall|k: int| 0 <= k < r1cs.constraints@.len() ==> #[trigger] r1cs.constraints@[k].in_range(r1cs.num_variables as nat),
        w.len() == r1cs.num_variables,
        w[0] == 1,
        forall|k: int| #[trigger] coef(witness_poly(q, w), k) == fadd(conv_coef(quo@, q.z_i@, k), coef(rem@, k)),
        rem@.len() < q.z_i@.len() || all_zero(rem@),
    ensures
        r1cs.satisfied_by(w) <==> all_zero(rem@),
        r1cs.satisfied_by(w) <==> exists|h: Seq<nat>| #[trigger] is_product(witness_poly(q, w), h, q.z_i@),
{
    let m = r1cs.constraints.len() as nat;
    let n = r1cs.num_variables as nat;
    let pw = witness_poly(q, w);
    let z = q.z_i@;
    let dom = domain_seq(m);
    // every polynomial of the program has at most m coefficients
    let bound = if m >= 1 { m } else { 1 };
    assert forall|j: int| 0 <= j < q.a_i@.len() implies #[trigger] q.a_i@[j]@.len() <= bound by {
        assert(interpolates(q.a_i@[j]@, r1cs, 0, j as nat));
    }
    assert forall|j: int| 0 <= j < q.b_i@.len() implies #[trigger] q.b_i@[j]@.len() <= bound by {
        assert(interpolates(q.b_i@[j]@, r1cs, 1, j as nat));
    }
    assert forall|j: int| 0 <= j < q.c_i@.len() implies #[trigger] q.c_i@[j]@.len() <= bound by {
        assert(interpolates(q.c_i@[j]@, r1cs, 2, j as nat));
    }
    law_qap_characterises_witnesses(r1cs, q, w);
    // at each domain point, the remainder and A·B - C agree
    assert forall|k: int| 0 <= k < m implies (#[trigger] r1cs.constraints@[k].holds(w) <==> peval(rem@, (k + 1) as nat) == 0) by {
        let x = (k + 1) as nat;
        lemma_witness_poly_eval(q, w, x, bound);
        law_eval_div_rem(pw, quo@, z, rem@, x);
        law_vanishing_at_domain(m, k);
        lemma_fmul_zero_one(peval(quo@, x));
        lemma_peval_bound(rem@, x);
        lemma_fadd_zero(peval(rem@, x));
        let ab = fmul(combine(q.a_i@, w, x, n), combine(q.b_i@, w, x, n));
        let c = combine(q.c_i@, w, x, n);
        lemma_combine_bound(q.c_i@, w, x, n);
        lemma_ops_bound(combine(q.a_i@, w, x, n), combine(q.b_i@, w, x, n));
        if peval(rem@, x) == 0 {
            lemma_fsub_zero_eq(ab, c);
        } else {
            if ab == c {
                crate::field_lemmas::lemma_fsub_self(ab);
            }
        }
    }
    // the remainder has fewer coefficients than there are domain points, or is zero
    if r1cs.satisfied_by(w) && !all_zero(rem@) {
        assert forall|i: int| 0 <= i < rem@.len() implies #[trigger] rem@[i] < fr_modulus() by {
            lemma_value_lt_modulus(rem.coeff@[i]);
        }
        assert forall|i: int| 0 <= i < m implies #[trigger] peval(rem@, dom[i]) == 0 by {
            assert(r1cs.constraints@[i].holds(w));
        }
        lemma_roots_zero(rem@, dom, m);
    }
    if all_zero(rem@) {
        assert forall|k: int| 0 <= k < m implies #[trigger] r1cs.constraints@[k].holds(w) by {
            lemma_all_zero_eval(rem@, (k + 1) as nat);
        }
        assert(r1cs.satisfied_by(w));
        assert forall|k: int| #[trigger] coef(pw, k) == conv_coef(quo@, z, k) by {
            lemma_csum_bound(quo@, z, k, quo@.len());
            lemma_fadd_zero(conv_coef(quo@, z, k));
            assert(coef(rem@, k) == 0);
        }
        assert(is_product(pw, quo@, z));
    }
    if exists|h: Seq<nat>| #[trigger] is_product(pw, h, z) {
        let h = choose|h: Seq<nat>| #[trigger] is_product(pw, h, z);
        assert forall|k: int| 0 <= k < m implies #[trigger] r1cs.constraints@[k].holds(w) by {
            let x = (k + 1) as nat;
            assert forall|kk: int| #[trigger] coef(pw, kk) == fadd(conv_coef(h, z, kk), coef(Seq::<nat>::empty(), kk)) by {
                lemma_csum_bound(h, z, kk, h.len());
                lemma_fadd_zero(conv_coef(h, z, kk));
            }
            law_eval_div_rem(pw, h, z, Seq::<nat>::empty(), x);
            assert(peval(Seq::<nat>::empty(), x) == 0);
            law_vanishing_at_domain(m, k);
            lemma_fmul_zero_one(peval(h, x));
            lemma_fadd_zero(0);
            lemma_witness_poly_eval(q, w, x, bound);
            lemma_combine_bound(q.c_i@, w, x, n);
            lemma_ops_bound(combine(q.a_i@, w, x, n), combine(q.b_i@, w, x, n));
            lemma_fsub_zero_eq(
                fmul(combine(q.a_i@, w, x, n), combine(q.b_i@, w, x, n)),
                combine(q.c_i@, w, x, n),
            );
        }
    }
}

proof fn lemma_combine_bound(polys: Seq<Polynomial>, w: Seq<nat>, x: nat, n: nat)
    ensures
        combine(polys, w, x, n) < fr_modulus(),
{
    if n > 0 {
        lemma_ops_bound(combine(polys, w, x, (n - 1) as nat), fmul(peval(polys[n - 1]@, x), w[n - 1]));
    }
}

/// `sum_j wit[j]·polys[j]`, summed from the zero polynomial.
fn combine_polys(polys: &Vec<Polynomial>, wit: &[ScalarField]) -> (r: Polynomial)
    requires
        polys.len() <= wit.len(),
    ensures
        r@ == wcomb(polys@, vals(wit@), polys@.len()),
{
    let mut acc = Polynomial::zero();
    let mut j: usize = 0;
    while j < polys.len()
        invariant
            polys.len() <= wit.len(),
            j <= polys.len(),
            acc@ == wcomb(polys@, vals(wit@), j as nat),
        decreases polys.len() - j,
    {
        let sc = polys[j].scale(wit[j]);
        acc = acc.add(&sc);
        j = j + 1;
    }
    acc
}

/// The prover's quotient: the long division of the witness polynomial
/// `A·B - C` by the vanishing polynomial, with `A`, `B`, `C` the program's
/// polynomials combined with the witness.
pub fn qap_quotient(qp: &Qap, wit: &[ScalarField]) -> (res: (Polynomial, Polynomial))
    requires
        qp.a_i.len() <= wit.len(),
        qp.b_i.len() <= wit.len(),
        qp.c_i.len() <= wit.len(),
        forall|j: int| 0 <= j < qp.a_i@.len() ==> #[trigger] qp.a_i@[j]@.len() <= usize::MAX / 2,
        forall|j: int| 0 <= j < qp.b_i@.len() ==> #[trigger] qp.b_i@[j]@.len() <= usize::MAX / 2,
        qp.z_i@.len() >= 1,
        qp.z_i@.last() != 0,
    ensures
        forall|k: int| #[trigger] coef(witness_poly(*qp, vals(wit@)), k) == fadd(
            conv_coef(res.0@, qp.z_i@, k),
            coef(res.1@, k),
        ),
        res.1@.len() < qp.z_i@.len() || all_zero(res.1@),
        all_zero(witness_poly(*qp, vals(wit@))) || witness_poly(*qp, vals(wit@)).len() < qp.z_i@.len()
            ==> res.0@ == seq![0nat] && res.1@ == witness_poly(*qp, vals(wit@)),
        !(all_zero(witness_poly(*qp, vals(wit@))) || witness_poly(*qp, vals(wit@)).len() < qp.z_i@.len())
            ==> res.0@ == trim(res.0@) && res.1@ == trim(res.1@),
{
    let a = combine_polys(&qp.a_i, wit);
    let b = combine_polys(&qp.b_i, wit);
    let c = combine_polys(&qp.c_i, wit);
    proof {
        let bound = (usize::MAX / 2) as nat;
        lemma_wcomb(qp.a_i@, vals(wit@), qp.a_i@.len(), 0, bound);
        lemma_wcomb(qp.b_i@, vals(wit@), qp.b_i@.len(), 0, bound);
    }
    let p = a.mul(&b).sub(&c);
    assert(!all_zero(qp.z_i@)) by {
        assert(qp.z_i@[qp.z_i@.len() - 1] != 0);
    }
    p.div_rem(&qp.z_i)
}

} // verus!
