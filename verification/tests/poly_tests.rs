use groth16::field::{fr_from_u64, ScalarField};
use groth16::poly::Polynomial;

fn neg(x: u64) -> ScalarField {
    fr_from_u64(0).sub(&fr_from_u64(x))
}

#[test]
fn test_poly_add() {
    // (1 + 2x) + (3 + 4x) = 4 + 6x
    let a = Polynomial::new(vec![fr_from_u64(1), fr_from_u64(2)]);
    let b = Polynomial::new(vec![fr_from_u64(3), fr_from_u64(4)]);
    let c = a.add(&b);
    assert_eq!(c.coeff[0], fr_from_u64(4));
    assert_eq!(c.coeff[1], fr_from_u64(6));
}

#[test]
fn test_poly_mul() {
    // (1 + x) * (1 + x) = 1 + 2x + x²
    let a = Polynomial::new(vec![fr_from_u64(1), fr_from_u64(1)]);
    let b = Polynomial::new(vec![fr_from_u64(1), fr_from_u64(1)]);
    let c = a.mul(&b);
    assert_eq!(c.coeff[0], fr_from_u64(1));
    assert_eq!(c.coeff[1], fr_from_u64(2));
    assert_eq!(c.coeff[2], fr_from_u64(1));
}

#[test]
fn test_poly_eval() {
    // f(x) = 1 + 2x + 3x²  at x=2 => 1 + 4 + 12 = 17
    let f = Polynomial::new(vec![fr_from_u64(1), fr_from_u64(2), fr_from_u64(3)]);
    assert_eq!(f.eval(fr_from_u64(2)), fr_from_u64(17));
}

#[test]
fn test_poly_div_rem_exact() {
    // (x² - 1) / (x - 1) = x + 1, remainder 0
    let num = Polynomial::new(vec![
        fr_from_u64(0).sub(&fr_from_u64(1)),
        fr_from_u64(0),
        fr_from_u64(1),
    ]);
    let den = Polynomial::new(vec![fr_from_u64(0).sub(&fr_from_u64(1)), fr_from_u64(1)]);
    let (q, r) = num.div_rem(&den);
    assert!(r.is_zero(), "remainder should be zero for exact division");
    assert_eq!(q.coeff[0], fr_from_u64(1));
    assert_eq!(q.coeff[1], fr_from_u64(1));
}

#[test]
fn test_poly_is_zero() {
    let z = Polynomial::zero();
    assert!(z.is_zero());
    let nz = Polynomial::new(vec![fr_from_u64(1)]);
    assert!(!nz.is_zero());
}

#[test]
fn new_drops_trailing_zeros() {
    let p = Polynomial::new(vec![fr_from_u64(5), fr_from_u64(0), fr_from_u64(0)]);
    assert_eq!(p.coeff, vec![fr_from_u64(5)]);
    assert_eq!(p.degree(), 0);
    let e = Polynomial::new(vec![]);
    assert_eq!(e.coeff, vec![fr_from_u64(0)]);
    let z = Polynomial::new(vec![fr_from_u64(0), fr_from_u64(0)]);
    assert_eq!(z.coeff, vec![fr_from_u64(0)]);
    let again = Polynomial::new(p.coeff.clone());
    assert_eq!(again.coeff, p.coeff);
}

#[test]
fn zero_and_one() {
    assert_eq!(Polynomial::zero().coeff, vec![fr_from_u64(0)]);
    assert_eq!(Polynomial::one().coeff, vec![fr_from_u64(1)]);
    assert!(!Polynomial::one().is_zero());
    assert!(Polynomial { coeff: vec![] }.is_zero());
}

#[test]
fn degree_counts_coefficients() {
    let p = Polynomial::new(vec![fr_from_u64(1), fr_from_u64(2), fr_from_u64(3)]);
    assert_eq!(p.degree(), 2);
}

#[test]
fn sub_cancels_leading_terms() {
    // (3 + 5x + x²) - (1 + 2x + x²) = 2 + 3x
    let a = Polynomial::new(vec![fr_from_u64(3), fr_from_u64(5), fr_from_u64(1)]);
    let b = Polynomial::new(vec![fr_from_u64(1), fr_from_u64(2), fr_from_u64(1)]);
    let c = a.sub(&b);
    assert_eq!(c.coeff, vec![fr_from_u64(2), fr_from_u64(3)]);
    // (1) - (2 + x) = -1 - x
    let d = Polynomial::one().sub(&Polynomial::new(vec![fr_from_u64(2), fr_from_u64(1)]));
    assert_eq!(d.coeff, vec![neg(1), neg(1)]);
}

#[test]
fn add_of_opposites_is_zero() {
    let a = Polynomial::new(vec![fr_from_u64(7), fr_from_u64(9)]);
    let b = Polynomial::new(vec![neg(7), neg(9)]);
    let c = a.add(&b);
    assert_eq!(c.coeff, vec![fr_from_u64(0)]);
}

#[test]
fn scale_multiplies_each_coefficient() {
    let a = Polynomial::new(vec![fr_from_u64(1), fr_from_u64(2), fr_from_u64(3)]);
    assert_eq!(a.scale(fr_from_u64(4)).coeff, vec![fr_from_u64(4), fr_from_u64(8), fr_from_u64(12)]);
    assert_eq!(a.scale(fr_from_u64(0)).coeff, vec![fr_from_u64(0)]);
}

#[test]
fn mul_by_zero_and_unequal_lengths() {
    // (1 + 2x)(3 + x + x²) = 3 + 7x + 3x² + 2x³
    let a = Polynomial::new(vec![fr_from_u64(1), fr_from_u64(2)]);
    let b = Polynomial::new(vec![fr_from_u64(3), fr_from_u64(1), fr_from_u64(1)]);
    assert_eq!(
        a.mul(&b).coeff,
        vec![fr_from_u64(3), fr_from_u64(7), fr_from_u64(3), fr_from_u64(2)]
    );
    assert_eq!(a.mul(&Polynomial::zero()).coeff, vec![fr_from_u64(0)]);
}

#[test]
fn eval_laws_on_values() {
    let p = Polynomial::new(vec![fr_from_u64(4), fr_from_u64(0), fr_from_u64(2)]);
    let q = Polynomial::new(vec![fr_from_u64(1), fr_from_u64(3)]);
    let x = fr_from_u64(5);
    // p(5) = 54, q(5) = 16
    assert_eq!(p.eval(x), fr_from_u64(54));
    assert_eq!(q.eval(x), fr_from_u64(16));
    assert_eq!(p.add(&q).eval(x), fr_from_u64(70));
    assert_eq!(p.sub(&q).eval(x), fr_from_u64(38));
    assert_eq!(p.mul(&q).eval(x), fr_from_u64(864));
    assert_eq!(p.scale(fr_from_u64(3)).eval(x), fr_from_u64(162));
    assert_eq!(Polynomial { coeff: vec![] }.eval(x), fr_from_u64(0));
}

#[test]
fn div_rem_with_remainder() {
    // x³ + 2x + 5 = (x² + x + 3)(x - 1) + 8
    let a = Polynomial::new(vec![fr_from_u64(5), fr_from_u64(2), fr_from_u64(0), fr_from_u64(1)]);
    let d = Polynomial::new(vec![neg(1), fr_from_u64(1)]);
    let (q, r) = a.div_rem(&d);
    assert_eq!(q.coeff, vec![fr_from_u64(3), fr_from_u64(1), fr_from_u64(1)]);
    assert_eq!(r.coeff, vec![fr_from_u64(8)]);
    let x = fr_from_u64(9);
    assert_eq!(a.eval(x), q.eval(x).mul(&d.eval(x)).add(&r.eval(x)));
}

#[test]
fn div_rem_by_higher_degree_returns_dividend() {
    let a = Polynomial::new(vec![fr_from_u64(5), fr_from_u64(2)]);
    let d = Polynomial::new(vec![fr_from_u64(1), fr_from_u64(0), fr_from_u64(1)]);
    let (q, r) = a.div_rem(&d);
    assert_eq!(q.coeff, vec![fr_from_u64(0)]);
    assert_eq!(r.coeff, a.coeff);
    let (q0, r0) = Polynomial::zero().div_rem(&d);
    assert!(q0.is_zero() && r0.is_zero());
}

#[test]
fn div_rem_by_constant() {
    // (4 + 6x) / 2 = 2 + 3x
    let a = Polynomial::new(vec![fr_from_u64(4), fr_from_u64(6)]);
    let d = Polynomial::new(vec![fr_from_u64(2)]);
    let (q, r) = a.div_rem(&d);
    assert_eq!(q.coeff, vec![fr_from_u64(2), fr_from_u64(3)]);
    assert!(r.is_zero());
}

#[test]
fn div_rem_dividend_with_trailing_zero() {
    // [0, 1, 0] is x; x / x = 1
    let a = Polynomial { coeff: vec![fr_from_u64(0), fr_from_u64(1), fr_from_u64(0)] };
    let d = Polynomial::new(vec![fr_from_u64(0), fr_from_u64(1)]);
    let (q, r) = a.div_rem(&d);
    assert_eq!(q.coeff, vec![fr_from_u64(1)]);
    assert!(r.is_zero());
}
