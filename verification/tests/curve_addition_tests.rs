use ark_bls12_381::Fr;
use ark_ec::{AffineCurve, ProjectiveCurve};
use ark_ed_on_bls12_381::EdwardsAffine;
use ark_ff::UniformRand;
use ark_plonk::curve_addition::{CurveAddition, GateValues};
use ark_plonk::field::Scalar;
use ark_serialize::CanonicalSerialize;
use rand_core::OsRng;

fn from_fr(x: Fr) -> Scalar {
    let mut bytes = Vec::new();
    x.serialize(&mut bytes).unwrap();
    Scalar::from_bytes(&bytes).unwrap()
}

fn addition_values(p1: EdwardsAffine, p2: EdwardsAffine, p3: EdwardsAffine) -> GateValues {
    GateValues {
        left: from_fr(p1.x),
        right: from_fr(p1.y),
        output: from_fr(p2.x),
        fourth: from_fr(p2.y),
        left_next: from_fr(p3.x),
        right_next: from_fr(p3.y),
        fourth_next: from_fr(p1.x * p2.y),
        left_selector: Scalar::zero(),
        right_selector: Scalar::zero(),
        constant_selector: Scalar::zero(),
    }
}

#[test]
fn curve_addition_constraint_holds_on_a_sum() {
    let g = EdwardsAffine::prime_subgroup_generator();
    let p1 = g.mul(Fr::from(3u64)).into_affine();
    let p2 = g.mul(Fr::from(5u64)).into_affine();
    let p3 = (p1.into_projective() + p2.into_projective()).into_affine();
    let values = addition_values(p1, p2, p3);
    for _ in 0..3 {
        let challenge = from_fr(Fr::rand(&mut OsRng));
        assert_eq!(CurveAddition::constraints(challenge, values), Scalar::zero());
    }
}

#[test]
fn curve_addition_constraint_fails_on_a_wrong_sum() {
    let g = EdwardsAffine::prime_subgroup_generator();
    let p1 = g.mul(Fr::from(3u64)).into_affine();
    let p2 = g.mul(Fr::from(5u64)).into_affine();
    let wrong = g.mul(Fr::from(9u64)).into_affine();
    let values = addition_values(p1, p2, wrong);
    assert_ne!(CurveAddition::constraints(Scalar::from_u64(2), values), Scalar::zero());
}

#[test]
fn curve_addition_constraint_on_small_values() {
    // With all wires zero but the consistency wire, only `-x1y2 * s` is
    // left: s = 1, x1y2 = 5 gives -5.
    let v = GateValues {
        left: Scalar::zero(),
        right: Scalar::zero(),
        output: Scalar::zero(),
        fourth: Scalar::zero(),
        left_next: Scalar::zero(),
        right_next: Scalar::zero(),
        fourth_next: Scalar::from_u64(5),
        left_selector: Scalar::zero(),
        right_selector: Scalar::zero(),
        constant_selector: Scalar::zero(),
    };
    // xy: -5; x3: (5 + 0) - 0 = 5, times kappa = 1; y3: 0 - 0 = 0.
    assert_eq!(CurveAddition::constraints(Scalar::one(), v), Scalar::zero());
    // s = 2: (-5 + 5 * 4 + 0) * 2 = 30
    assert_eq!(CurveAddition::constraints(Scalar::from_u64(2), v), Scalar::from_u64(30));
}
