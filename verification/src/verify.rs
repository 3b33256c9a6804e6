//! The verifier.

use crate::curve::{g1_msm, g1_multi_scalar_mul, g1_views, gt_add, gt_eq, gt_sum, pairing, pairing_value};
use crate::field::ScalarField;
use crate::poly::vals;
use crate::prover::Proof;
use crate::setup::VerifyingKey;
use vstd::prelude::*;

verus! {

/// The pairing check `e(A, B) = e(α, β) · e(C, δ) · e(Σ x_i·Ψ_i, γ)`, with the
/// target group written additively as in the curve library.
pub open spec fn pairing_check(vk: VerifyingKey, proof: Proof, inputs: Seq<nat>) -> bool {
    let x = g1_msm(g1_views(vk.gamma_abc_g1@), inputs);
    pairing_value(proof.a@, proof.b@) == gt_sum(
        gt_sum(pairing_value(vk.alpha_g1@, vk.beta_g2@), pairing_value(proof.c@, vk.delta_g2@)),
        pairing_value(x, vk.gamma_g2@),
    )
}

/// The check is the pairing equation itself, on inputs of every length:
/// `e(A, B) = e(α, β) · e(C, δ) · e(Σ x_i·Ψ_i, γ)`.
pub proof fn law_pairing_check_is_the_equation(vk: VerifyingKey, proof: Proof, inputs: Seq<nat>)
    ensures
        pairing_check(vk, proof, inputs) <==> pairing_value(proof.a@, proof.b@) == gt_sum(
            gt_sum(pairing_value(vk.alpha_g1@, vk.beta_g2@), pairing_value(proof.c@, vk.delta_g2@)),
            pairing_value(g1_msm(g1_views(vk.gamma_abc_g1@), inputs), vk.gamma_g2@),
        ),
{
}

/// Whether the proof is accepted for the public inputs: there is one input per
/// public point of the key and the pairing check holds.
pub fn verify_proof(vk: &VerifyingKey, proof: &Proof, public_input: &[ScalarField]) -> (r: bool)
    ensures
        r == (public_input@.len() == vk.gamma_abc_g1@.len() && pairing_check(*vk, *proof, vals(public_input@))),
        r <==> (public_input@.len() == vk.gamma_abc_g1@.len() && pairing_value(proof.a@, proof.b@) == gt_sum(
            gt_sum(pairing_value(vk.alpha_g1@, vk.beta_g2@), pairing_value(proof.c@, vk.delta_g2@)),
            pairing_value(g1_msm(g1_views(vk.gamma_abc_g1@), vals(public_input@)), vk.gamma_g2@),
        )),
{
    if public_input.len() != vk.gamma_abc_g1.len() {
        return false;
    }
    let x = g1_multi_scalar_mul(vk.gamma_abc_g1.as_slice(), public_input);
    let lhs = pairing(&proof.a, &proof.b);
    let rhs = gt_add(
        &gt_add(&pairing(&vk.alpha_g1, &vk.beta_g2), &pairing(&proof.c, &vk.delta_g2)),
        &pairing(&x, &vk.gamma_g2),
    );
    gt_eq(&lhs, &rhs)
}

} // verus!
