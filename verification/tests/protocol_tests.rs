use ark_std::rand::rngs::StdRng;
use ark_std::rand::SeedableRng;
use groth16::field::{fr_from_u64, random_fr, ScalarField};
use groth16::poly::Polynomial;
use groth16::prover::{generate_proof, generate_proof_with};
use groth16::qap::{qap_quotient, r1cs_to_qap, Qap};
use groth16::r1cs::{LinearCombination, R1cs};
use groth16::setup::{cr_proving_key, cr_proving_key_with, Randoms};
use groth16::verify::verify_proof;

fn build_simple_r1cs() -> (R1cs, Vec<ScalarField>) {
    // Circuit: x * x = x²  for x=3
    let mut r = R1cs { num_variables: 3, num_public_inputs: 2, constraints: Vec::new() };
    let a = vec![(2usize, fr_from_u64(1))];
    let b = vec![(2usize, fr_from_u64(1))];
    let c = vec![(1usize, fr_from_u64(1))];
    r.add_constraint(
        LinearCombination { terms: a },
        LinearCombination { terms: b },
        LinearCombination { terms: c },
    );
    let wit = vec![fr_from_u64(1), fr_from_u64(9), fr_from_u64(3)];
    (r, wit)
}

fn build_full_circuit() -> (R1cs, Vec<ScalarField>) {
    // x³ + x + 5 = 35  for x=3
    let mut r = R1cs { num_variables: 6, num_public_inputs: 2, constraints: Vec::new() };
    r.add_constraint(
        LinearCombination { terms: vec![(2usize, fr_from_u64(1))] },
        LinearCombination { terms: vec![(2usize, fr_from_u64(1))] },
        LinearCombination { terms: vec![(3usize, fr_from_u64(1))] },
    );
    r.add_constraint(
        LinearCombination { terms: vec![(3usize, fr_from_u64(1))] },
        LinearCombination { terms: vec![(2usize, fr_from_u64(1))] },
        LinearCombination { terms: vec![(4usize, fr_from_u64(1))] },
    );
    r.add_constraint(
        LinearCombination { terms: vec![(4usize, fr_from_u64(1)), (2usize, fr_from_u64(1))] },
        LinearCombination { terms: vec![(0usize, fr_from_u64(1))] },
        LinearCombination { terms: vec![(5usize, fr_from_u64(1))] },
    );
    r.add_constraint(
        LinearCombination { terms: vec![(5usize, fr_from_u64(1)), (0usize, fr_from_u64(5))] },
        LinearCombination { terms: vec![(0usize, fr_from_u64(1))] },
        LinearCombination { terms: vec![(1usize, fr_from_u64(1))] },
    );
    let wit = vec![
        fr_from_u64(1),
        fr_from_u64(35),
        fr_from_u64(3),
        fr_from_u64(9),
        fr_from_u64(27),
        fr_from_u64(30),
    ];
    (r, wit)
}

fn combined(qp: &Qap, wit: &[ScalarField]) -> (Polynomial, Polynomial, Polynomial) {
    let mut a = Polynomial::zero();
    let mut b = Polynomial::zero();
    let mut c = Polynomial::zero();
    for (j, p) in qp.a_i.iter().enumerate() {
        a = a.add(&p.scale(wit[j]));
    }
    for (j, p) in qp.b_i.iter().enumerate() {
        b = b.add(&p.scale(wit[j]));
    }
    for (j, p) in qp.c_i.iter().enumerate() {
        c = c.add(&p.scale(wit[j]));
    }
    (a, b, c)
}

#[test]
fn test_r1cs_satisfied_valid_witness() {
    let (r, wit) = build_simple_r1cs();
    assert!(r.is_satisfied(&wit), "valid witness should satisfy R1CS");
}

#[test]
fn test_r1cs_not_satisfied_wrong_witness() {
    let (r, mut wit) = build_simple_r1cs();
    wit[1] = fr_from_u64(99);
    assert!(!r.is_satisfied(&wit), "wrong witness should not satisfy R1CS");
}

#[test]
fn test_r1cs_not_satisfied_wrong_length() {
    let (r, _) = build_simple_r1cs();
    let short_wit = vec![fr_from_u64(1), fr_from_u64(9)];
    assert!(!r.is_satisfied(&short_wit), "short witness should not satisfy R1CS");
}

#[test]
fn test_linear_combination_evaluate() {
    // lc = 2*w[0] + 3*w[1], witness=[1, 4] => 2*1 + 3*4 = 14
    let lc = LinearCombination { terms: vec![(0usize, fr_from_u64(2)), (1usize, fr_from_u64(3))] };
    let wit = vec![fr_from_u64(1), fr_from_u64(4)];
    assert_eq!(lc.evaluate(&wit), fr_from_u64(14));
}

#[test]
fn test_linear_combination_coefficient_of() {
    let lc = LinearCombination { terms: vec![(0usize, fr_from_u64(5)), (2usize, fr_from_u64(3))] };
    assert_eq!(lc.coefficient_of(0), fr_from_u64(5));
    assert_eq!(lc.coefficient_of(2), fr_from_u64(3));
    assert_eq!(lc.coefficient_of(1), fr_from_u64(0));
}

#[test]
fn test_qap_reduction_remainder_zero() {
    let (r, wit) = build_simple_r1cs();
    let qp = r1cs_to_qap(&r);
    let (a, b, c) = combined(&qp, &wit);
    let p = a.mul(&b).sub(&c);
    let (_h, rem) = p.div_rem(&qp.z_i);
    assert!(rem.is_zero(), "QAP remainder must be zero for valid witness");
}

#[test]
fn test_qap_domain_size_matches_constraints() {
    let (r, _) = build_simple_r1cs();
    let qp = r1cs_to_qap(&r);
    assert_eq!(qp.domain.len(), r.constraints.len());
}

#[test]
fn test_qap_polynomial_counts_match_variables() {
    let (r, _) = build_simple_r1cs();
    let qp = r1cs_to_qap(&r);
    assert_eq!(qp.a_i.len(), r.num_variables);
    assert_eq!(qp.b_i.len(), r.num_variables);
    assert_eq!(qp.c_i.len(), r.num_variables);
}

#[test]
fn test_valid_proof_verifies() {
    let (r, wit) = build_full_circuit();
    let qp = r1cs_to_qap(&r);
    let (a, b, c) = combined(&qp, &wit);
    let poly = a.mul(&b).sub(&c);
    let (h, _) = poly.div_rem(&qp.z_i);
    let pk = cr_proving_key(qp.z_i.degree() - 1, r.num_public_inputs, r.num_variables, &qp);
    let proof = generate_proof(&pk, &qp, &wit, &h, r.num_public_inputs);
    let result = verify_proof(&pk.vk, &proof, &wit[..r.num_public_inputs]);
    assert!(result, "valid proof should verify");
}

#[test]
fn test_wrong_public_input_fails() {
    let (r, wit) = build_full_circuit();
    let qp = r1cs_to_qap(&r);
    let (a, b, c) = combined(&qp, &wit);
    let poly = a.mul(&b).sub(&c);
    let (h, _) = poly.div_rem(&qp.z_i);
    let pk = cr_proving_key(qp.z_i.degree() - 1, r.num_public_inputs, r.num_variables, &qp);
    let proof = generate_proof(&pk, &qp, &wit, &h, r.num_public_inputs);
    let wrong_public = vec![fr_from_u64(1), fr_from_u64(99)];
    let result = verify_proof(&pk.vk, &proof, &wrong_public);
    assert!(!result, "proof with wrong public input should not verify");
}

#[test]
fn r1cs_new_and_builders() {
    let r = R1cs::new(2, 3);
    assert_eq!(r.num_variables, 6);
    assert_eq!(r.num_public_inputs, 2);
    assert!(r.constraints.is_empty());
    let lc = LinearCombination::zero().term(1, fr_from_u64(4)).term(1, fr_from_u64(6)).term(0, fr_from_u64(2));
    assert_eq!(lc.terms.len(), 3);
    assert_eq!(lc.coefficient_of(1), fr_from_u64(10));
    assert_eq!(lc.evaluate(&[fr_from_u64(1), fr_from_u64(3)]), fr_from_u64(32));
    assert_eq!(LinearCombination::zero().evaluate(&[]), fr_from_u64(0));
}

#[test]
fn r1cs_first_entry_must_be_one() {
    let (r, mut wit) = build_simple_r1cs();
    wit[0] = fr_from_u64(2);
    assert!(!r.is_satisfied(&wit));
}

#[test]
fn full_circuit_is_satisfied_and_stops_at_first_failure() {
    let (r, wit) = build_full_circuit();
    assert!(r.is_satisfied(&wit));
    let mut bad = wit.clone();
    bad[3] = fr_from_u64(10);
    assert!(!r.is_satisfied(&bad));
}

#[test]
fn qap_interpolates_the_constraint_columns() {
    let (r, wit) = build_full_circuit();
    let qp = r1cs_to_qap(&r);
    assert_eq!(qp.domain, vec![fr_from_u64(1), fr_from_u64(2), fr_from_u64(3), fr_from_u64(4)]);
    for (k, con) in r.constraints.iter().enumerate() {
        let x = qp.domain[k];
        for j in 0..r.num_variables {
            assert_eq!(qp.a_i[j].eval(x), con.a.coefficient_of(j));
            assert_eq!(qp.b_i[j].eval(x), con.b.coefficient_of(j));
            assert_eq!(qp.c_i[j].eval(x), con.c.coefficient_of(j));
        }
        assert_eq!(qp.z_i.eval(x), fr_from_u64(0));
    }
    assert_eq!(qp.z_i.degree(), 4);
    assert_eq!(qp.z_i.eval(fr_from_u64(5)), fr_from_u64(24));
    // A(k)·B(k) = C(k) at every domain point for a satisfying witness
    let (a, b, c) = combined(&qp, &wit);
    for x in qp.domain.iter() {
        assert_eq!(a.eval(*x).mul(&b.eval(*x)), c.eval(*x));
    }
}

#[test]
fn qap_remainder_nonzero_for_bad_witness() {
    let (r, mut wit) = build_full_circuit();
    wit[5] = fr_from_u64(31);
    let qp = r1cs_to_qap(&r);
    let (a, b, c) = combined(&qp, &wit);
    let (_h, rem) = a.mul(&b).sub(&c).div_rem(&qp.z_i);
    assert!(!rem.is_zero());
}

#[test]
fn random_fr_is_nonzero() {
    let mut rng = StdRng::seed_from_u64(7);
    let a = random_fr(&mut rng);
    let b = random_fr(&mut rng);
    assert!(!a.is_zero());
    assert!(!b.is_zero());
    assert_ne!(a, b);
}

#[test]
fn fixed_secrets_give_a_verifying_proof() {
    let (r, wit) = build_full_circuit();
    let qp = r1cs_to_qap(&r);
    let (a, b, c) = combined(&qp, &wit);
    let (h, _) = a.mul(&b).sub(&c).div_rem(&qp.z_i);
    let randoms = Randoms {
        alpha: fr_from_u64(3),
        beta: fr_from_u64(5),
        tau: fr_from_u64(7),
        gamma: fr_from_u64(11),
        delta: fr_from_u64(13),
    };
    let pk = cr_proving_key_with(qp.z_i.degree() - 1, r.num_public_inputs, r.num_variables, &qp, &randoms);
    assert_eq!(pk.g1_query.len(), 4);
    assert_eq!(pk.g2_query.len(), 4);
    assert_eq!(pk.h_query.len(), 3);
    assert_eq!(pk.l_query_pv.len(), 4);
    assert_eq!(pk.vk.gamma_abc_g1.len(), 2);
    assert_ne!(pk.g1_query[0], pk.g1_query[1]);
    let proof = generate_proof_with(&pk, &qp, &wit, &h, r.num_public_inputs, &fr_from_u64(17), &fr_from_u64(19));
    assert!(verify_proof(&pk.vk, &proof, &wit[..2]));
    let other = generate_proof_with(&pk, &qp, &wit, &h, r.num_public_inputs, &fr_from_u64(23), &fr_from_u64(19));
    assert_ne!(proof.a, other.a);
    assert!(verify_proof(&pk.vk, &other, &wit[..2]));
    // a wrong number of public inputs is refused before any pairing
    assert!(!verify_proof(&pk.vk, &proof, &wit[..1]));
    // swapping A and C breaks the pairing check
    let forged = groth16::prover::Proof { a: proof.c, b: proof.b, c: proof.a };
    assert!(!verify_proof(&pk.vk, &forged, &wit[..2]));
}

#[test]
fn qap_quotient_divides_exactly_for_a_valid_witness() {
    let (r, wit) = build_full_circuit();
    let qp = r1cs_to_qap(&r);
    let (h, rem) = qap_quotient(&qp, &wit);
    assert!(rem.is_zero());
    let (a, b, c) = combined(&qp, &wit);
    let p = a.mul(&b).sub(&c);
    assert_eq!(h.mul(&qp.z_i).coeff, p.coeff);
    let (h2, _) = p.div_rem(&qp.z_i);
    assert_eq!(h.coeff, h2.coeff);
}

#[test]
fn qap_quotient_leaves_a_remainder_for_a_bad_witness() {
    let (r, mut wit) = build_full_circuit();
    wit[4] = fr_from_u64(28);
    let qp = r1cs_to_qap(&r);
    let (h, rem) = qap_quotient(&qp, &wit);
    assert!(!rem.is_zero());
    assert!(rem.coeff.len() < qp.z_i.coeff.len());
    let (a, b, c) = combined(&qp, &wit);
    let p = a.mul(&b).sub(&c);
    assert_eq!(h.mul(&qp.z_i).add(&rem).coeff, p.coeff);
}

#[test]
fn adding_a_constraint_strengthens_satisfaction() {
    let (mut r, wit) = build_simple_r1cs();
    assert!(r.is_satisfied(&wit));
    // x * 1 = x holds
    r.add_constraint(
        LinearCombination { terms: vec![(2usize, fr_from_u64(1))] },
        LinearCombination { terms: vec![(0usize, fr_from_u64(1))] },
        LinearCombination { terms: vec![(2usize, fr_from_u64(1))] },
    );
    assert!(r.is_satisfied(&wit));
    // x * x = x fails for x = 3
    r.add_constraint(
        LinearCombination { terms: vec![(2usize, fr_from_u64(1))] },
        LinearCombination { terms: vec![(2usize, fr_from_u64(1))] },
        LinearCombination { terms: vec![(2usize, fr_from_u64(1))] },
    );
    assert!(!r.is_satisfied(&wit));
}
