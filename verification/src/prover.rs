//! The prover.

use crate::curve::{
    g1_add, g1_diff, g1_msm, g1_mul, g1_multi_scalar_mul, g1_scalar_mul, g1_sub, g1_sum, g1_views, g2_add,
    g2_msm, g2_mul, g2_multi_scalar_mul, g2_scalar_mul, g2_sum, g2_views, G1Aff, G2Aff,
};
use crate::field::{fmul, lemma_value_lt_modulus, random_fr, test_rng, ScalarField};
use crate::poly::{vals, Polynomial};
use crate::qap::Qap;
use crate::setup::ProvingKey;
use vstd::prelude::*;

verus! {

broadcast use lemma_value_lt_modulus;

/// A proof: the points `[A]₁`, `[B]₂` and `[C]₁`.
#[derive(Debug, Clone)]
pub struct Proof {
    pub a: G1Aff,
    pub b: G2Aff,
    pub c: G1Aff,
}

/// For each polynomial, the multi-scalar product of its coefficients with the
/// leading entries of `query` in `G1`: the polynomial evaluated at `τ` in `G1`.
pub open spec fn g1_poly_points(query: Seq<G1Aff>, polys: Seq<Polynomial>) -> Seq<(nat, nat, bool)> {
    Seq::new(polys.len(), |i: int| g1_msm(g1_views(query.subrange(0, polys[i]@.len() as int)), polys[i]@))
}

/// The same in `G2`.
pub open spec fn g2_poly_points(query: Seq<G2Aff>, polys: Seq<Polynomial>) -> Seq<((nat, nat), (nat, nat), bool)> {
    Seq::new(polys.len(), |i: int| g2_msm(g2_views(query.subrange(0, polys[i]@.len() as int)), polys[i]@))
}

/// `[A]₁ = [α]₁ + r·[δ]₁ + sum_i w_i·[A_i(τ)]₁`.
pub open spec fn proof_a(pk: ProvingKey, qp: Qap, wit: Seq<nat>, r: nat) -> (nat, nat, bool) {
    g1_sum(
        g1_sum(pk.vk.alpha_g1@, g1_scalar_mul(pk.delta_g1@, r)),
        g1_msm(g1_poly_points(pk.g1_query@, qp.a_i@), wit),
    )
}

/// `[B]₂ = [β]₂ + s·[δ]₂ + sum_i w_i·[B_i(τ)]₂`.
pub open spec fn proof_b(pk: ProvingKey, qp: Qap, wit: Seq<nat>, s: nat) -> ((nat, nat), (nat, nat), bool) {
    g2_sum(
        g2_sum(pk.vk.beta_g2@, g2_scalar_mul(pk.vk.delta_g2@, s)),
        g2_msm(g2_poly_points(pk.g2_query@, qp.b_i@), wit),
    )
}

/// `[B]₁ = [β]₁ + s·[δ]₁ + sum_i w_i·[B_i(τ)]₁`.
pub open spec fn proof_b1(pk: ProvingKey, qp: Qap, wit: Seq<nat>, s: nat) -> (nat, nat, bool) {
    g1_sum(
        g1_sum(pk.beta_g1@, g1_scalar_mul(pk.delta_g1@, s)),
        g1_msm(g1_poly_points(pk.g1_query@, qp.b_i@), wit),
    )
}

/// `[C]₁ = s·[A]₁ + r·[B]₁ - rs·[δ]₁ + sum_i h_i·[τ^i t(τ)/δ]₁ + sum_i w_i·[Ψ_i]₁`
/// over the private variables.
pub open spec fn proof_c(
    pk: ProvingKey,
    qp: Qap,
    wit: Seq<nat>,
    h: Seq<nat>,
    num_public_inputs: nat,
    r: nat,
    s: nat,
) -> (nat, nat, bool) {
    g1_sum(
        g1_sum(
            g1_diff(
                g1_sum(g1_scalar_mul(proof_a(pk, qp, wit, r), s), g1_scalar_mul(proof_b1(pk, qp, wit, s), r)),
                g1_scalar_mul(pk.delta_g1@, fmul(r, s)),
            ),
            g1_msm(g1_views(pk.h_query@), h),
        ),
        g1_msm(g1_views(pk.l_query_pv@), wit.skip(num_public_inputs as int)),
    )
}

/// The proof made with the blinding scalars `r` and `s`.
pub open spec fn proof_for(
    p: Proof,
    pk: ProvingKey,
    qp: Qap,
    wit: Seq<nat>,
    h: Seq<nat>,
    num_public_inputs: nat,
    r: nat,
    s: nat,
) -> bool {
    &&& p.a@ == proof_a(pk, qp, wit, r)
    &&& p.b@ == proof_b(pk, qp, wit, s)
    &&& p.c@ == proof_c(pk, qp, wit, h, num_public_inputs, r, s)
}

/// What the prover needs of its inputs: one witness entry and one polynomial
/// of each part per variable, query points for every coefficient, one `H`
/// point per quotient coefficient and one private-input point per private
/// variable.
pub open spec fn prover_inputs_fit(pk: ProvingKey, qp: Qap, wit_len: nat, h_len: nat, num_public_inputs: nat) -> bool {
    &&& wit_len == qp.a_i@.len()
    &&& qp.a_i@.len() == qp.b_i@.len()
    &&& qp.b_i@.len() == qp.c_i@.len()
    &&& num_public_inputs <= wit_len
    &&& pk.l_query_pv@.len() == wit_len - num_public_inputs
    &&& pk.h_query@.len() == h_len
    &&& forall|i: int| 0 <= i < qp.a_i@.len() ==> #[trigger] qp.a_i@[i]@.len() <= pk.g1_query@.len()
    &&& forall|i: int| 0 <= i < qp.b_i@.len() ==> #[trigger] qp.b_i@[i]@.len() <= pk.g1_query@.len()
    &&& forall|i: int| 0 <= i < qp.b_i@.len() ==> #[trigger] qp.b_i@[i]@.len() <= pk.g2_query@.len()
}

/// Two random nonzero blinding scalars from one generator.
fn gen_random() -> (rs: (ScalarField, ScalarField))
    ensures
        rs.0.value() != 0,
        rs.1.value() != 0,
{
    let mut rng = test_rng();
    let r = random_fr(&mut rng);
    let s = random_fr(&mut rng);
    (r, s)
}

/// The points `[P_i(τ)]₁` for the given polynomials.
fn g1_points(query: &Vec<G1Aff>, polys: &Vec<Polynomial>) -> (res: Vec<G1Aff>)
    requires
        forall|i: int| 0 <= i < polys@.len() ==> #[trigger] polys@[i]@.len() <= query@.len(),
    ensures
        res.len() == polys.len(),
        g1_views(res@) == g1_poly_points(query@, polys@),
{
    let mut res: Vec<G1Aff> = Vec::new();
    let mut i: usize = 0;
    while i < polys.len()
        invariant
            forall|i: int| 0 <= i < polys@.len() ==> #[trigger] polys@[i]@.len() <= query@.len(),
            i <= polys.len(),
            res@.len() == i,
            forall|k: int| 0 <= k < i ==> #[trigger] res@[k]@ == g1_poly_points(query@, polys@)[k],
        decreases polys.len() - i,
    {
        let coeffs = &polys[i].coeff;
        assert(polys@[i as int]@.len() <= query@.len());
        let bases = vstd::slice::slice_subrange(query.as_slice(), 0, coeffs.len());
        res.push(g1_multi_scalar_mul(bases, coeffs.as_slice()));
        i = i + 1;
    }
    assert(g1_views(res@) =~= g1_poly_points(query@, polys@));
    res
}

/// The points `[P_i(τ)]₂` for the given polynomials.
fn g2_points(query: &Vec<G2Aff>, polys: &Vec<Polynomial>) -> (res: Vec<G2Aff>)
    requires
        forall|i: int| 0 <= i < polys@.len() ==> #[trigger] polys@[i]@.len() <= query@.len(),
    ensures
        res.len() == polys.len(),
        g2_views(res@) == g2_poly_points(query@, polys@),
{
    let mut res: Vec<G2Aff> = Vec::new();
    let mut i: usize = 0;
    while i < polys.len()
        invariant
            forall|i: int| 0 <= i < polys@.len() ==> #[trigger] polys@[i]@.len() <= query@.len(),
            i <= polys.len(),
            res@.len() == i,
            forall|k: int| 0 <= k < i ==> #[trigger] res@[k]@ == g2_poly_points(query@, polys@)[k],
        decreases polys.len() - i,
    {
        let coeffs = &polys[i].coeff;
        assert(polys@[i as int]@.len() <= query@.len());
        let bases = vstd::slice::slice_subrange(query.as_slice(), 0, coeffs.len());
        res.push(g2_multi_scalar_mul(bases, coeffs.as_slice()));
        i = i + 1;
    }
    assert(g2_views(res@) =~= g2_poly_points(query@, polys@));
    res
}

/// The proof for a witness and quotient polynomial with the blinding scalars
/// `r` and `s`.
pub fn generate_proof_with(
    setup: &ProvingKey,
    qp: &Qap,
    wit: &[ScalarField],
    hpoly: &Polynomial,
    num_public_inputs: usize,
    r: &ScalarField,
    s: &ScalarField,
) -> (p: Proof)
    requires
        prover_inputs_fit(*setup, *qp, wit@.len(), hpoly@.len(), num_public_inputs as nat),
    ensures
        proof_for(p, *setup, *qp, vals(wit@), hpoly@, num_public_inputs as nat, r.value(), s.value()),
{
    let res1 = g1_points(&setup.g1_query, &qp.a_i);
    let msm_a = g1_multi_scalar_mul(res1.as_slice(), wit);
    let a = g1_add(&g1_add(&setup.vk.alpha_g1, &g1_mul(&setup.delta_g1, r)), &msm_a);
    let res2 = g2_points(&setup.g2_query, &qp.b_i);
    let msm_b2 = g2_multi_scalar_mul(res2.as_slice(), wit);
    let b2 = g2_add(&g2_add(&setup.vk.beta_g2, &g2_mul(&setup.vk.delta_g2, s)), &msm_b2);
    let res3 = g1_points(&setup.g1_query, &qp.b_i);
    let msm_b1 = g1_multi_scalar_mul(res3.as_slice(), wit);
    let b1 = g1_add(&g1_add(&setup.beta_g1, &g1_mul(&setup.delta_g1, s)), &msm_b1);
    let pvwit = vstd::slice::slice_subrange(wit, num_public_inputs, wit.len());
    let rs = r.mul(s);
    let t1 = g1_add(&g1_mul(&a, s), &g1_mul(&b1, r));
    let t2 = g1_sub(&t1, &g1_mul(&setup.delta_g1, &rs));
    let t3 = g1_add(&t2, &g1_multi_scalar_mul(setup.h_query.as_slice(), hpoly.coeff.as_slice()));
    let c = g1_add(&t3, &g1_multi_scalar_mul(setup.l_query_pv.as_slice(), pvwit));
    assert(vals(pvwit@) =~= vals(wit@).skip(num_public_inputs as int));
    Proof { a, b: b2, c }
}

/// The proof for a witness and quotient polynomial, blinded with fresh random
/// nonzero scalars.
pub fn generate_proof(
    setup: &ProvingKey,
    qp: &Qap,
    wit: &[ScalarField],
    hpoly: &Polynomial,
    num_public_inputs: usize,
) -> (p: Proof)
    requires
        prover_inputs_fit(*setup, *qp, wit@.len(), hpoly@.len(), num_public_inputs as nat),
    ensures
        exists|r: nat, s: nat| r != 0 && s != 0 && #[trigger] proof_for(
            p,
            *setup,
            *qp,
            vals(wit@),
            hpoly@,
            num_public_inputs as nat,
            r,
            s,
        ),
{
    let (r, s) = gen_random();
    generate_proof_with(setup, qp, wit, hpoly, num_public_inputs, &r, &s)
}

} // verus!
