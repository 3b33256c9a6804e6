//! The trusted setup: the toxic waste, the proving key and the verifying key.

use crate::curve::{g1_gen_mul, g1_generator_mul, g1_mul, g1_scalar_mul, g2_gen_mul, g2_generator_mul, G1Aff, G2Aff};
use crate::field::{
    fadd, fmul, fr_from_u64, fr_modulus, lemma_value_lt_modulus, random_fr, test_rng, ScalarField,
};
use crate::field_lemmas::lemma_fmul_zero_one;
use crate::poly::{all_zero, peval, Polynomial};
use crate::roots::{is_prime, lemma_roots_zero};
use vstd::arithmetic::div_mod::lemma_small_mod;
use crate::qap::Qap;
use vstd::prelude::*;

verus! {

broadcast use lemma_value_lt_modulus;

/// The key for checking proofs.
#[derive(Debug, Clone)]
pub struct VerifyingKey {
    pub alpha_g1: G1Aff,
    pub beta_g2: G2Aff,
    pub gamma_g2: G2Aff,
    pub delta_g2: G2Aff,
    pub gamma_abc_g1: Vec<G1Aff>,
}

/// The key for making proofs; it holds the verifying key too.
#[derive(Debug, Clone)]
pub struct ProvingKey {
    pub vk: VerifyingKey,
    pub beta_g1: G1Aff,
    pub delta_g1: G1Aff,
    pub g1_query: Vec<G1Aff>,
    pub g2_query: Vec<G2Aff>,
    pub h_query: Vec<G1Aff>,
    pub l_query_pv: Vec<G1Aff>,
}

/// The secret values of the setup (its toxic waste).
#[derive(Debug, Clone)]
pub struct Randoms {
    pub alpha: ScalarField,
    pub beta: ScalarField,
    pub tau: ScalarField,
    pub gamma: ScalarField,
    pub delta: ScalarField,
}

impl Randoms {
    /// The values `gamma` and `delta` that the setup divides by are nonzero.
    pub open spec fn divisors_nonzero(self) -> bool {
        self.gamma.value() != 0 && self.delta.value() != 0
    }

    /// All five values are nonzero.
    pub open spec fn all_nonzero(self) -> bool {
        &&& self.alpha.value() != 0
        &&& self.beta.value() != 0
        &&& self.tau.value() != 0
        &&& self.gamma.value() != 0
        &&& self.delta.value() != 0
    }
}

/// `t^i` in the field, each power the previous one times `t`.
pub open spec fn fpow(t: nat, i: nat) -> nat
    decreases i,
{
    if i == 0 {
        1
    } else {
        fmul(t, fpow(t, (i - 1) as nat))
    }
}

/// `q` is the field element that `b` multiplies back to `a`: `q = a / b`.
pub open spec fn is_quotient(q: nat, a: nat, b: nat) -> bool {
    q < fr_modulus() && fmul(q, b) == a
}

/// `β·A_i(τ) + α·B_i(τ) + C_i(τ)` for variable `i` of the program.
pub open spec fn var_numerator(qp: Qap, i: int, r: Randoms) -> nat {
    let t = r.tau.value();
    fadd(
        fadd(fmul(r.beta.value(), peval(qp.a_i@[i]@, t)), fmul(r.alpha.value(), peval(qp.b_i@[i]@, t))),
        peval(qp.c_i@[i]@, t),
    )
}

/// `p` is `[num / d]·g` in `G1` for the quotient of `num` by `d`.
pub open spec fn g1_of_quotient(p: (nat, nat, bool), num: nat, d: nat) -> bool {
    exists|s: nat| is_quotient(s, num, d) && p == #[trigger] g1_gen_mul(s)
}

/// The verifying key for the given secrets: `[α]₁`, `[β]₂`, `[γ]₂`, `[δ]₂` and,
/// for each public variable `j`, `[(β·A_j(τ) + α·B_j(τ) + C_j(τ)) / γ]₁`.
pub open spec fn verifying_key_for(vk: VerifyingKey, num_public_inputs: nat, qp: Qap, r: Randoms) -> bool {
    &&& vk.alpha_g1@ == g1_gen_mul(r.alpha.value())
    &&& vk.beta_g2@ == g2_gen_mul(r.beta.value())
    &&& vk.gamma_g2@ == g2_gen_mul(r.gamma.value())
    &&& vk.delta_g2@ == g2_gen_mul(r.delta.value())
    &&& vk.gamma_abc_g1@.len() == num_public_inputs
    &&& forall|j: int| 0 <= j < num_public_inputs ==> #[trigger] g1_of_quotient(
        vk.gamma_abc_g1@[j]@,
        var_numerator(qp, j, r),
        r.gamma.value(),
    )
}

/// The proving key for the given secrets: the verifying key, `[β]₁`, `[δ]₁`,
/// the powers `[τ^i]₁` and `[τ^i]₂` for `i <= polys_deg`, the terms
/// `[z(τ)/δ]·[τ^i]₁` for `i < polys_deg`, and for each private variable `i`
/// the point `[(β·A_i(τ) + α·B_i(τ) + C_i(τ)) / δ]₁`.
pub open spec fn proving_key_for(
    pk: ProvingKey,
    polys_deg: nat,
    num_public_inputs: nat,
    num_input: nat,
    qp: Qap,
    r: Randoms,
) -> bool {
    let t = r.tau.value();
    let d = r.delta.value();
    &&& verifying_key_for(pk.vk, num_public_inputs, qp, r)
    &&& pk.beta_g1@ == g1_gen_mul(r.beta.value())
    &&& pk.delta_g1@ == g1_gen_mul(d)
    &&& pk.g1_query@.len() == polys_deg + 1
    &&& pk.g2_query@.len() == polys_deg + 1
    &&& forall|i: int| 0 <= i <= polys_deg ==> #[trigger] pk.g1_query@[i]@ == g1_gen_mul(fpow(t, i as nat))
    &&& forall|i: int| 0 <= i <= polys_deg ==> #[trigger] pk.g2_query@[i]@ == g2_gen_mul(fpow(t, i as nat))
    &&& pk.h_query@.len() == polys_deg
    &&& exists|zq: nat| #![trigger is_quotient(zq, peval(qp.z_i@, t), d)]
        is_quotient(zq, peval(qp.z_i@, t), d) && forall|i: int| 0 <= i < polys_deg ==> #[trigger] pk.h_query@[i]@
            == g1_scalar_mul(g1_gen_mul(fpow(t, i as nat)), zq)
    &&& pk.l_query_pv@.len() == num_input - num_public_inputs
    &&& forall|i: int| 0 <= i < num_input - num_public_inputs ==> #[trigger] g1_of_quotient(
        pk.l_query_pv@[i]@,
        var_numerator(qp, i + num_public_inputs, r),
        d,
    )
}

/// Five random nonzero secrets from one generator.
fn gen_randoms() -> (r: Randoms)
    ensures
        r.all_nonzero(),
{
    let mut rng = test_rng();
    let alpha = random_fr(&mut rng);
    let beta = random_fr(&mut rng);
    let tau = random_fr(&mut rng);
    let gamma = random_fr(&mut rng);
    let delta = random_fr(&mut rng);
    Randoms { alpha, beta, tau, gamma, delta }
}

/// `β·A_i(τ) + α·B_i(τ) + C_i(τ)` computed from the program.
fn numerator(qp: &Qap, i: usize, randoms: &Randoms) -> (r: ScalarField)
    requires
        i < qp.a_i.len(),
        i < qp.b_i.len(),
        i < qp.c_i.len(),
    ensures
        r.value() == var_numerator(*qp, i as int, *randoms),
{
    let a = qp.a_i[i].eval(randoms.tau);
    let b = qp.b_i[i].eval(randoms.tau);
    let c = qp.c_i[i].eval(randoms.tau);
    randoms.beta.mul(&a).add(&randoms.alpha.mul(&b)).add(&c)
}

/// The verifying key from the secrets and the public variables' scalars.
fn cr_verifying_key(num_public_inputs: usize, randoms: &Randoms, l_query_pb: &[ScalarField]) -> (vk: VerifyingKey)
    requires
        l_query_pb.len() == num_public_inputs,
    ensures
        vk.alpha_g1@ == g1_gen_mul(randoms.alpha.value()),
        vk.beta_g2@ == g2_gen_mul(randoms.beta.value()),
        vk.gamma_g2@ == g2_gen_mul(randoms.gamma.value()),
        vk.delta_g2@ == g2_gen_mul(randoms.delta.value()),
        vk.gamma_abc_g1@.len() == num_public_inputs,
        forall|j: int| 0 <= j < num_public_inputs ==> #[trigger] vk.gamma_abc_g1@[j]@ == g1_gen_mul(l_query_pb@[j].value()),
{
    let alpha_g1 = g1_generator_mul(&randoms.alpha);
    let beta_g2 = g2_generator_mul(&randoms.beta);
    let gamma_g2 = g2_generator_mul(&randoms.gamma);
    let delta_g2 = g2_generator_mul(&randoms.delta);
    let mut gamma_abc_g1: Vec<G1Aff> = Vec::new();
    let mut j: usize = 0;
    while j < num_public_inputs
        invariant
            l_query_pb.len() == num_public_inputs,
            j <= num_public_inputs,
            gamma_abc_g1@.len() == j,
            forall|k: int| 0 <= k < j ==> #[trigger] gamma_abc_g1@[k]@ == g1_gen_mul(l_query_pb@[k].value()),
        decreases num_public_inputs - j,
    {
        gamma_abc_g1.push(g1_generator_mul(&l_query_pb[j]));
        j = j + 1;
    }
    VerifyingKey { alpha_g1, beta_g2, gamma_g2, delta_g2, gamma_abc_g1 }
}

/// The proving key for the given secrets.
pub fn cr_proving_key_with(
    polys_deg: usize,
    num_public_inputs: usize,
    num_input: usize,
    qp: &Qap,
    randoms: &Randoms,
) -> (pk: ProvingKey)
    requires
        polys_deg > 0,
        polys_deg < usize::MAX,
        num_public_inputs <= num_input,
        num_input <= qp.a_i.len(),
        num_input <= qp.b_i.len(),
        num_input <= qp.c_i.len(),
        randoms.divisors_nonzero(),
    ensures
        proving_key_for(pk, polys_deg as nat, num_public_inputs as nat, num_input as nat, *qp, *randoms),
{
    let t = randoms.tau;
    let beta_g1 = g1_generator_mul(&randoms.beta);
    let delta_g1 = g1_generator_mul(&randoms.delta);
    let one = fr_from_u64(1);
    let mut g1_query: Vec<G1Aff> = Vec::new();
    let mut g2_query: Vec<G2Aff> = Vec::new();
    let mut h_query: Vec<G1Aff> = Vec::new();
    g1_query.push(g1_generator_mul(&one));
    g2_query.push(g2_generator_mul(&one));
    let zt = qp.z_i.eval(t);
    let val = zt.div(&randoms.delta);
    let mut v = one;
    let mut i: usize = 1;
    while i <= polys_deg
        invariant
            polys_deg < usize::MAX,
            1 <= i <= polys_deg + 1,
            v.value() == fpow(t.value(), (i - 1) as nat),
            g1_query@.len() == i,
            g2_query@.len() == i,
            h_query@.len() == i - 1,
            forall|k: int| 0 <= k < i ==> #[trigger] g1_query@[k]@ == g1_gen_mul(fpow(t.value(), k as nat)),
            forall|k: int| 0 <= k < i ==> #[trigger] g2_query@[k]@ == g2_gen_mul(fpow(t.value(), k as nat)),
            forall|k: int| 0 <= k < i - 1 ==> #[trigger] h_query@[k]@ == g1_scalar_mul(
                g1_gen_mul(fpow(t.value(), k as nat)),
                val.value(),
            ),
        decreases polys_deg + 1 - i,
    {
        let prev = v;
        v = t.mul(&prev);
        g1_query.push(g1_generator_mul(&v));
        g2_query.push(g2_generator_mul(&v));
        let base = g1_generator_mul(&prev);
        h_query.push(g1_mul(&base, &val));
        i = i + 1;
    }
    let npv = num_input - num_public_inputs;
    let mut l_query_pv: Vec<G1Aff> = Vec::new();
    let mut k: usize = 0;
    while k < npv
        invariant
            npv == num_input - num_public_inputs,
            num_input <= qp.a_i.len(),
            num_input <= qp.b_i.len(),
            num_input <= qp.c_i.len(),
            randoms.divisors_nonzero(),
            k <= npv,
            l_query_pv@.len() == k,
            forall|j: int| 0 <= j < k ==> #[trigger] g1_of_quotient(
                l_query_pv@[j]@,
                var_numerator(*qp, j + num_public_inputs, *randoms),
                randoms.delta.value(),
            ),
        decreases npv - k,
    {
        let num = numerator(qp, k + num_public_inputs, randoms);
        let s = num.div(&randoms.delta);
        let p = g1_generator_mul(&s);
        let ghost before = l_query_pv@;
        l_query_pv.push(p);
        assert(is_quotient(s.value(), num.value(), randoms.delta.value()));
        assert forall|j: int| 0 <= j < k + 1 implies #[trigger] g1_of_quotient(
            l_query_pv@[j]@,
            var_numerator(*qp, j + num_public_inputs, *randoms),
            randoms.delta.value(),
        ) by {
            if j < k {
                assert(l_query_pv@[j] == before[j]);
            } else {
                assert(l_query_pv@[j]@ == g1_gen_mul(s.value()));
            }
        }
        k = k + 1;
    }
    let mut l_query_pb: Vec<ScalarField> = Vec::new();
    let mut j: usize = 0;
    while j < num_public_inputs
        invariant
            num_public_inputs <= num_input,
            num_input <= qp.a_i.len(),
            num_input <= qp.b_i.len(),
            num_input <= qp.c_i.len(),
            randoms.divisors_nonzero(),
            j <= num_public_inputs,
            l_query_pb@.len() == j,
            forall|m: int| 0 <= m < j ==> #[trigger] is_quotient(
                l_query_pb@[m].value(),
                var_numerator(*qp, m, *randoms),
                randoms.gamma.value(),
            ),
        decreases num_public_inputs - j,
    {
        let num = numerator(qp, j, randoms);
        let s = num.div(&randoms.gamma);
        l_query_pb.push(s);
        j = j + 1;
    }
    let vk = cr_verifying_key(num_public_inputs, randoms, l_query_pb.as_slice());
    assert forall|m: int| 0 <= m < num_public_inputs implies #[trigger] g1_of_quotient(
        vk.gamma_abc_g1@[m]@,
        var_numerator(*qp, m, *randoms),
        randoms.gamma.value(),
    ) by {
        assert(is_quotient(l_query_pb@[m].value(), var_numerator(*qp, m, *randoms), randoms.gamma.value()));
        assert(vk.gamma_abc_g1@[m]@ == g1_gen_mul(l_query_pb@[m].value()));
    }
    assert(is_quotient(val.value(), peval(qp.z_i@, t.value()), randoms.delta.value()));
    ProvingKey { vk, beta_g1, delta_g1, g1_query, g2_query, h_query, l_query_pv }
}

/// The drawn `t` if the polynomial `z` does not vanish there; otherwise the
/// first of `1, 2, ..., |z|` where it does not vanish, or `t` if there is none.
/// Over the prime scalar field a nonzero `z` has fewer roots than
/// coefficients, so the result is never a root of it.
fn avoid_roots(z: &Polynomial, t: ScalarField) -> (r: ScalarField)
    requires
        t.value() != 0,
    ensures
        r.value() != 0,
        peval(z@, t.value()) != 0 ==> r == t,
        is_prime(fr_modulus()) && !all_zero(z@) ==> peval(z@, r.value()) != 0,
{
    if !z.eval(t).is_zero() {
        return t;
    }
    let n = z.coeff.len();
    let ghost xs = Seq::new(n as nat, |i: int| (i + 1) as nat);
    let mut k: usize = 0;
    while k < n
        invariant
            k <= n,
            n == z@.len(),
            peval(z@, t.value()) == 0,
            xs == Seq::new(n as nat, |i: int| (i + 1) as nat),
            forall|j: int| 0 <= j < k ==> #[trigger] peval(z@, xs[j]) == 0,
        decreases n - k,
    {
        let v: u64 = k as u64 + 1;
        proof {
            lemma_small_mod(v as nat, fr_modulus());
        }
        let c = fr_from_u64(v);
        if !z.eval(c).is_zero() {
            return c;
        }
        assert(xs[k as int] == v);
        k = k + 1;
    }
    proof {
        if is_prime(fr_modulus()) {
            assert forall|i: int| 0 <= i < z@.len() implies #[trigger] z@[i] < fr_modulus() by {
                assert(z@[i] == z.coeff@[i].value());
            }
            assert forall|i: int| 0 <= i < n implies #[trigger] xs[i] < fr_modulus() by {}
            lemma_roots_zero(z@, xs, n as nat);
        }
    }
    t
}

/// The proving key of a fresh setup: secrets drawn at random, all nonzero,
/// with `τ` kept off the roots of the vanishing polynomial, so that its value
/// `t(τ)` there is nonzero.
pub fn cr_proving_key(polys_deg: usize, num_public_inputs: usize, num_input: usize, qp: &Qap) -> (pk: ProvingKey)
    requires
        polys_deg > 0,
        polys_deg < usize::MAX,
        num_public_inputs <= num_input,
        num_input <= qp.a_i.len(),
        num_input <= qp.b_i.len(),
        num_input <= qp.c_i.len(),
    ensures
        exists|r: Randoms| r.all_nonzero() && #[trigger] proving_key_for(
            pk,
            polys_deg as nat,
            num_public_inputs as nat,
            num_input as nat,
            *qp,
            r,
        ) && (is_prime(fr_modulus()) && !all_zero(qp.z_i@) ==> peval(qp.z_i@, r.tau.value()) != 0),
{
    let drawn = gen_randoms();
    let tau = avoid_roots(&qp.z_i, drawn.tau);
    let randoms = Randoms { alpha: drawn.alpha, beta: drawn.beta, tau, gamma: drawn.gamma, delta: drawn.delta };
    cr_proving_key_with(polys_deg, num_public_inputs, num_input, qp, &randoms)
}

/// When `t(τ)` is nonzero, so is the scalar `t(τ)/δ` of the key's `H` points:
/// they are `[τ^i]₁` times a nonzero scalar, not the identity.
pub proof fn law_key_h_scalar_nonzero(
    pk: ProvingKey,
    polys_deg: nat,
    num_public_inputs: nat,
    num_input: nat,
    qp: Qap,
    r: Randoms,
)
    requires
        proving_key_for(pk, polys_deg, num_public_inputs, num_input, qp, r),
        peval(qp.z_i@, r.tau.value()) != 0,
    ensures
        exists|zq: nat| #![trigger is_quotient(zq, peval(qp.z_i@, r.tau.value()), r.delta.value())]
            zq != 0 && is_quotient(zq, peval(qp.z_i@, r.tau.value()), r.delta.value()) && forall|i: int|
            0 <= i < polys_deg ==> #[trigger] pk.h_query@[i]@ == g1_scalar_mul(
                g1_gen_mul(fpow(r.tau.value(), i as nat)),
                zq,
            ),
{
    let t = r.tau.value();
    let d = r.delta.value();
    let zq = choose|zq: nat| #![trigger is_quotient(zq, peval(qp.z_i@, t), d)]
        is_quotient(zq, peval(qp.z_i@, t), d) && forall|i: int| 0 <= i < polys_deg ==> #[trigger] pk.h_query@[i]@
            == g1_scalar_mul(g1_gen_mul(fpow(t, i as nat)), zq);
    if zq == 0 {
        lemma_fmul_zero_one(d);
    }
}

} // verus!
