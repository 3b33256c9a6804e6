use ark_bn254::Fr;
use ark_ff::{PrimeField, Zero};
use ark_std::rand::rngs::StdRng;
use ark_std::rand::SeedableRng;
use ark_std::UniformRand;
use groth16::field::{fr_from_u64, random_fr};

#[test]
fn field_operations_on_small_values() {
    let a = fr_from_u64(12);
    let b = fr_from_u64(5);
    assert_eq!(a.add(&b), fr_from_u64(17));
    assert_eq!(a.sub(&b), fr_from_u64(7));
    assert_eq!(a.mul(&b), fr_from_u64(60));
    assert_eq!(fr_from_u64(60).div(&b), a);
    assert!(a.equals(&fr_from_u64(12)));
    assert!(!a.equals(&b));
    assert!(fr_from_u64(0).is_zero());
    assert!(!a.is_zero());
}

#[test]
fn field_wraps_around_the_modulus() {
    let minus_one = fr_from_u64(0).sub(&fr_from_u64(1));
    assert_eq!(minus_one, fr_from_u64(1).neg());
    assert_eq!(minus_one.add(&fr_from_u64(1)), fr_from_u64(0));
    assert_eq!(minus_one.mul(&minus_one), fr_from_u64(1));
    // 1 / 2 times 2 is 1
    let half = fr_from_u64(1).div(&fr_from_u64(2));
    assert_eq!(half.mul(&fr_from_u64(2)), fr_from_u64(1));
    assert_ne!(half, fr_from_u64(1));
}

#[test]
fn from_u64_keeps_large_values() {
    let m = fr_from_u64(u64::MAX);
    assert_eq!(m.add(&fr_from_u64(1)).sub(&m), fr_from_u64(1));
    assert_ne!(m, fr_from_u64(0));
}

#[test]
fn random_draws_follow_the_ark_std_test_generator() {
    let seed = [
        1, 0, 0, 0, 23, 0, 0, 0, 200, 1, 0, 0, 210, 30, 0, 0, 0, 0, 0, 0, 0, 0, 0, 0, 0, 0, 0, 0, 0, 0, 0, 0,
    ];
    let mut ours = StdRng::from_seed(seed);
    let mut theirs = ark_std::test_rng();
    for _ in 0..5 {
        let r = random_fr(&mut ours);
        let mut f = Fr::rand(&mut theirs);
        while f.is_zero() {
            f = Fr::rand(&mut theirs);
        }
        assert_eq!(format!("{:?}", r), format!("ScalarField {{ limbs: {:?} }}", f.into_bigint().0));
    }
}
