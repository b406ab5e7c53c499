use ark_bls12_381::{Fr, G1Affine, G1Projective};
use ark_ec::{AffineCurve, ProjectiveCurve};
use ark_ff::{Field, PrimeField, UniformRand, Zero};
use ark_plonk::commitment::Commitment;
use ark_plonk::domain::{DensePolynomial, EvaluationDomain};
use ark_plonk::field::Scalar;
use ark_plonk::proof_system::{
    compute_barycentric_eval, compute_first_lagrange_evaluation, Proof, ProofEvaluations, PROOF_SIZE,
};
use ark_serialize::{CanonicalDeserialize, CanonicalSerialize};
use rand_core::OsRng;

fn to_fr(s: Scalar) -> Fr {
    Fr::deserialize(&s.to_bytes()[..]).unwrap()
}

fn from_fr(x: Fr) -> Scalar {
    let mut bytes = Vec::new();
    x.serialize(&mut bytes).unwrap();
    Scalar::from_bytes(&bytes).unwrap()
}

fn s(x: u64) -> Scalar {
    Scalar::from_u64(x)
}

fn point_bytes(p: G1Affine) -> Vec<u8> {
    let mut bytes = Vec::new();
    p.serialize(&mut bytes).unwrap();
    bytes
}

fn commitment(p: G1Affine) -> Commitment {
    Commitment::from_bytes(&point_bytes(p)).unwrap()
}

fn random_commitment() -> Commitment {
    commitment(G1Projective::rand(&mut OsRng).into_affine())
}

fn random_scalar() -> Scalar {
    from_fr(Fr::rand(&mut OsRng))
}

fn evaluations(v: [Scalar; 16]) -> ProofEvaluations {
    ProofEvaluations {
        a_eval: v[0],
        b_eval: v[1],
        c_eval: v[2],
        d_eval: v[3],
        a_next_eval: v[4],
        b_next_eval: v[5],
        d_next_eval: v[6],
        q_arith_eval: v[7],
        q_c_eval: v[8],
        q_l_eval: v[9],
        q_r_eval: v[10],
        left_sigma_eval: v[11],
        right_sigma_eval: v[12],
        out_sigma_eval: v[13],
        linearisation_polynomial_eval: v[14],
        permutation_eval: v[15],
    }
}

fn proof_with(comms: Vec<Commitment>, evals: ProofEvaluations) -> Proof {
    let mut c = comms.into_iter();
    Proof {
        a_comm: c.next().unwrap(),
        b_comm: c.next().unwrap(),
        c_comm: c.next().unwrap(),
        d_comm: c.next().unwrap(),
        z_comm: c.next().unwrap(),
        t_1_comm: c.next().unwrap(),
        t_2_comm: c.next().unwrap(),
        t_3_comm: c.next().unwrap(),
        t_4_comm: c.next().unwrap(),
        w_z_comm: c.next().unwrap(),
        w_zw_comm: c.next().unwrap(),
        evaluations: evals,
    }
}

#[test]
fn test_serde_proof() {
    let comms: Vec<Commitment> = (0..11).map(|_| Default::default()).collect();
    let evals = evaluations([(); 16].map(|_| random_scalar()));
    let proof = proof_with(comms, evals);

    let proof_bytes = proof.to_bytes();
    assert_eq!(proof_bytes.len(), PROOF_SIZE);

    let obtained_proof = Proof::from_bytes(proof_bytes.as_slice()).unwrap();
    assert_eq!(obtained_proof.to_bytes(), proof_bytes);
    assert_eq!(obtained_proof.evaluations.a_eval, proof.evaluations.a_eval);
    assert_eq!(obtained_proof.evaluations.permutation_eval, proof.evaluations.permutation_eval);
    assert_eq!(obtained_proof.w_zw_comm.to_bytes(), proof.w_zw_comm.to_bytes());
}

#[test]
fn proof_bytes_roundtrip_with_points() {
    let comms: Vec<Commitment> = (0..11).map(|_| random_commitment()).collect();
    let evals = evaluations([(); 16].map(|_| random_scalar()));
    let proof = proof_with(comms, evals);
    let bytes = proof.to_bytes();
    // The layout: commitments, then evaluations, in declaration order.
    assert_eq!(&bytes[0..48], proof.a_comm.to_bytes().as_slice());
    assert_eq!(&bytes[480..528], proof.w_zw_comm.to_bytes().as_slice());
    assert_eq!(&bytes[528..560], proof.evaluations.a_eval.to_bytes().as_slice());
    assert_eq!(&bytes[1008..1040], proof.evaluations.permutation_eval.to_bytes().as_slice());
    let back = Proof::from_bytes(&bytes).unwrap();
    assert_eq!(back.to_bytes(), bytes);
    // Trailing bytes are not read.
    let mut longer = bytes.clone();
    longer.extend_from_slice(&[7, 7, 7]);
    assert_eq!(Proof::from_bytes(&longer).unwrap().to_bytes(), bytes);
}

#[test]
fn proof_from_bytes_rejects_bad_input() {
    let comms: Vec<Commitment> = (0..11).map(|_| random_commitment()).collect();
    let evals = evaluations([(); 16].map(|_| random_scalar()));
    let bytes = proof_with(comms, evals).to_bytes();
    // Too short.
    assert!(Proof::from_bytes(&bytes[..PROOF_SIZE - 1]).is_none());
    // An evaluation above the field order.
    let mut bad_eval = bytes.clone();
    for b in bad_eval[1008..1040].iter_mut() {
        *b = 0xff;
    }
    assert!(Proof::from_bytes(&bad_eval).is_none());
    // A commitment that is not a point.
    let mut bad_point = bytes.clone();
    bad_point[48..96].copy_from_slice(&[0x11u8; 48]);
    assert!(Proof::from_bytes(&bad_point).is_none());
}

#[test]
fn commitment_group_operations_match_ark() {
    let g = G1Affine::prime_subgroup_generator();
    let cg = commitment(g);
    let two_g = (g.into_projective() + g.into_projective()).into_affine();
    assert_eq!(cg.add(&cg).to_bytes(), &point_bytes(two_g));
    assert_eq!(cg.mul(s(2)).to_bytes(), &point_bytes(two_g));
    assert_eq!(cg.mul(Scalar::zero()).to_bytes(), Commitment::zero().to_bytes());
    assert_eq!(Commitment::zero().to_bytes(), &point_bytes(G1Affine::zero()));
    let x = Fr::rand(&mut OsRng);
    assert_eq!(cg.mul(from_fr(x)).to_bytes(), &point_bytes(g.mul(x.into_repr()).into_affine()));
}

#[test]
fn commitment_from_bytes_rejects_non_points() {
    assert!(Commitment::from_bytes(&[0u8; 47]).is_none());
    assert!(Commitment::from_bytes(&[0x11u8; 48]).is_none());
    let g = point_bytes(G1Affine::prime_subgroup_generator());
    assert_eq!(Commitment::from_bytes(&g).unwrap().to_bytes(), &g);
}

#[test]
fn first_lagrange_evaluation_value() {
    let domain = EvaluationDomain::new(4).unwrap();
    let z = s(3);
    let z_h = domain.evaluate_vanishing_polynomial(z);
    // (3^4 - 1) / (4 * (3 - 1)) = 80 / 8 = 10
    assert_eq!(compute_first_lagrange_evaluation(&domain, &z_h, &z), s(10));
}

#[test]
fn first_lagrange_evaluation_matches_interpolation() {
    // L_0 interpolates [1, 0, 0, 0]: it agrees with the interpolated
    // polynomial off the domain.
    let domain = EvaluationDomain::new(4).unwrap();
    let l0 = DensePolynomial::from_coefficients_vec(domain.ifft(&[s(1), s(0), s(0), s(0)]));
    let z = random_scalar();
    let z_h = domain.evaluate_vanishing_polynomial(z);
    assert_eq!(compute_first_lagrange_evaluation(&domain, &z_h, &z), l0.evaluate(z));
}

#[test]
fn first_lagrange_evaluation_is_barycentric_of_one() {
    let domain = EvaluationDomain::new(4).unwrap();
    let z = s(3);
    let z_h = domain.evaluate_vanishing_polynomial(z);
    assert_eq!(compute_barycentric_eval(&[s(1)], z, &domain), s(10));
    assert_eq!(
        compute_first_lagrange_evaluation(&domain, &z_h, &z),
        compute_barycentric_eval(&[s(1)], z, &domain)
    );
}

#[test]
fn barycentric_eval_matches_interpolation() {
    let domain = EvaluationDomain::new(8).unwrap();
    let evals = vec![s(3), s(0), s(5), s(0), s(0), s(9)];
    let mut padded = evals.clone();
    padded.resize(8, Scalar::zero());
    let poly = DensePolynomial::from_coefficients_vec(domain.ifft(&padded));
    for _ in 0..5 {
        let point = random_scalar();
        assert_eq!(compute_barycentric_eval(&evals, point, &domain), poly.evaluate(point));
    }
}

#[test]
fn barycentric_eval_of_zeros_is_zero() {
    let domain = EvaluationDomain::new(4).unwrap();
    assert_eq!(compute_barycentric_eval(&[s(0), s(0)], s(5), &domain), Scalar::zero());
    assert_eq!(compute_barycentric_eval(&[], s(5), &domain), Scalar::zero());
}

#[test]
fn quotient_evaluation_formula() {
    let domain = EvaluationDomain::new(4).unwrap();
    let v: [Scalar; 16] = [(); 16].map(|_| random_scalar());
    let evals = evaluations(v);
    let comms: Vec<Commitment> = (0..11).map(|_| Commitment::zero()).collect();
    let proof = proof_with(comms, evals);
    let pub_inputs = vec![s(4), s(0), s(1)];
    let (alpha, beta, gamma, z) = (random_scalar(), random_scalar(), random_scalar(), random_scalar());
    let z_h = domain.evaluate_vanishing_polynomial(z);
    let l1 = compute_first_lagrange_evaluation(&domain, &z_h, &z);
    let z_hat = evals.permutation_eval;
    let t = proof.compute_quotient_evaluation(&domain, &pub_inputs, alpha, beta, gamma, z, z_h, l1, z_hat);

    // The same formula in ark's arithmetic.
    let f = to_fr;
    let pi = f(compute_barycentric_eval(&pub_inputs, z, &domain));
    let e = &evals;
    let a = f(e.linearisation_polynomial_eval) + pi;
    let b_0 = f(e.a_eval) + f(beta) * f(e.left_sigma_eval) + f(gamma);
    let b_1 = f(e.b_eval) + f(beta) * f(e.right_sigma_eval) + f(gamma);
    let b_2 = f(e.c_eval) + f(beta) * f(e.out_sigma_eval) + f(gamma);
    let b_3 = (f(e.d_eval) + f(gamma)) * f(z_hat) * f(alpha);
    let b = b_0 * b_1 * b_2 * b_3;
    let c = f(l1) * f(alpha).square();
    let expected = (a - b - c) * f(z_h).inverse().unwrap();
    assert_eq!(f(t), expected);
}

#[test]
fn quotient_commitment_formula() {
    let comms: Vec<Commitment> = (0..11).map(|_| random_commitment()).collect();
    let evals = evaluations([(); 16].map(|_| random_scalar()));
    let proof = proof_with(comms, evals);
    let z = random_scalar();
    let n = 8usize;
    let t = proof.compute_quotient_commitment(&z, n);

    let pt = |c: &Commitment| G1Affine::deserialize(c.to_bytes().as_slice()).unwrap();
    let zf = to_fr(z);
    let z_n = zf.pow(&[n as u64, 0, 0, 0]);
    let z_two_n = zf.pow(&[2 * n as u64, 0, 0, 0]);
    let z_three_n = zf.pow(&[3 * n as u64, 0, 0, 0]);
    let expected = pt(&proof.t_1_comm).into_projective()
        + pt(&proof.t_2_comm).mul(z_n.into_repr())
        + pt(&proof.t_3_comm).mul(z_two_n.into_repr())
        + pt(&proof.t_4_comm).mul(z_three_n.into_repr());
    assert_eq!(t.to_bytes(), &point_bytes(expected.into_affine()));
    // With z = 1 the commitment is the plain sum of the four parts.
    let t1 = proof.compute_quotient_commitment(&Scalar::one(), n);
    let sum = proof.t_1_comm.add(&proof.t_2_comm).add(&proof.t_3_comm).add(&proof.t_4_comm);
    assert_eq!(t1.to_bytes(), sum.to_bytes());
}

#[test]
fn default_proof_is_zero_points_and_zero_evaluations() {
    let proof = Proof::default();
    let bytes = proof.to_bytes();
    assert_eq!(bytes.len(), PROOF_SIZE);
    assert_eq!(&bytes[0..48], point_bytes(G1Affine::zero()).as_slice());
    assert!(bytes[528..].iter().all(|b| *b == 0));
    assert_eq!(Commitment::default().to_bytes(), Commitment::zero().to_bytes());
    assert_eq!(ProofEvaluations::default().q_c_eval, Scalar::zero());
}

#[test]
fn barycentric_eval_is_linear() {
    let domain = EvaluationDomain::new(8).unwrap();
    let a = vec![s(3), s(0), s(5), s(2)];
    let b = vec![s(1), s(4), s(0), s(6)];
    let c = s(7);
    let combined: Vec<Scalar> = a.iter().zip(b.iter()).map(|(x, y)| x.plus(c.times(*y))).collect();
    let point = random_scalar();
    let lhs = compute_barycentric_eval(&combined, point, &domain);
    let rhs = compute_barycentric_eval(&a, point, &domain).plus(c.times(compute_barycentric_eval(&b, point, &domain)));
    assert_eq!(lhs, rhs);
    let mut padded = a.clone();
    padded.push(Scalar::zero());
    assert_eq!(compute_barycentric_eval(&padded, point, &domain), compute_barycentric_eval(&a, point, &domain));
}
