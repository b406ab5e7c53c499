use ark_bls12_381::Fr;
use ark_ff::One;
use ark_plonk::domain::{DensePolynomial, EvaluationDomain};
use ark_plonk::field::Scalar;
use ark_poly::{EvaluationDomain as ArkDomain, GeneralEvaluationDomain};
use ark_serialize::CanonicalDeserialize;

fn to_fr(s: Scalar) -> Fr {
    Fr::deserialize(&s.to_bytes()[..]).unwrap()
}

fn s(x: u64) -> Scalar {
    Scalar::from_u64(x)
}

#[test]
fn domain_size_is_the_next_power_of_two() {
    assert_eq!(EvaluationDomain::new(0).unwrap().size(), 1);
    assert_eq!(EvaluationDomain::new(1).unwrap().size(), 1);
    assert_eq!(EvaluationDomain::new(3).unwrap().size(), 4);
    assert_eq!(EvaluationDomain::new(4).unwrap().size(), 4);
    assert_eq!(EvaluationDomain::new(5).unwrap().size(), 8);
    assert_eq!(EvaluationDomain::new(1000).unwrap().size(), 1024);
}

#[test]
fn domain_too_large_for_the_field_is_none() {
    // The field has roots of unity of order up to 2^32 only.
    assert!(EvaluationDomain::new((1usize << 32) + 1).is_none());
}

#[test]
fn domain_matches_ark() {
    let d = EvaluationDomain::new(8).unwrap();
    let ark = match GeneralEvaluationDomain::<Fr>::new(8).unwrap() {
        GeneralEvaluationDomain::Radix2(r) => r,
        GeneralEvaluationDomain::MixedRadix(_) => panic!("radix-2 domain expected"),
    };
    assert_eq!(to_fr(d.group_gen()), ark.group_gen);
    assert_eq!(to_fr(d.group_gen_inv()), ark.group_gen_inv);
    assert_eq!(to_fr(d.size_inv()), ark.size_inv);
    assert_eq!(d.size() as u64, ark.size);
}

#[test]
fn generator_has_the_domain_size_as_order() {
    let d = EvaluationDomain::new(16).unwrap();
    let g = d.group_gen();
    assert_eq!(g.pow(16), Scalar::one());
    assert_ne!(g.pow(8), Scalar::one());
    assert_eq!(g.times(d.group_gen_inv()), Scalar::one());
    assert_eq!(d.size_inv().times(s(16)), Scalar::one());
}

#[test]
fn generator_half_power_is_minus_one() {
    for size in [2usize, 4, 8, 64] {
        let d = EvaluationDomain::new(size).unwrap();
        assert_eq!(d.group_gen().pow(size as u64 / 2), Scalar::one().negate());
    }
    assert_eq!(EvaluationDomain::new(1).unwrap().group_gen(), Scalar::one());
}

/// The two-adic root of unity of order 2^32, little-endian.
const TWO_ADIC_ROOT: [u8; 32] = [
    43, 13, 159, 67, 31, 151, 41, 56, 185, 128, 34, 140, 80, 131, 54, 182, 180, 19, 200, 34, 25, 104, 155, 208,
    32, 31, 232, 223, 158, 161, 162, 22,
];

#[test]
fn generator_is_the_two_adic_root_raised_to_two_to_the_32_over_size() {
    let root = Scalar::from_bytes(&TWO_ADIC_ROOT).unwrap();
    assert_eq!(EvaluationDomain::new(1usize << 32).unwrap().group_gen(), root);
    // Size 8: the root raised to 2^29.
    assert_eq!(EvaluationDomain::new(8).unwrap().group_gen(), root.pow(1u64 << 29));
    assert_eq!(EvaluationDomain::new(1).unwrap().group_gen(), root.pow(1u64 << 32));
}

#[test]
fn fft_inverts_ifft() {
    let d = EvaluationDomain::new(8).unwrap();
    let evals: Vec<Scalar> = [5u64, 0, 7, 7, 1, 0, 0, 3].iter().map(|x| s(*x)).collect();
    let coeffs = d.ifft(&evals);
    assert_ne!(coeffs, evals);
    assert_eq!(d.fft(&coeffs), evals);
    // Dropping the trailing zero coefficients changes nothing.
    let p = DensePolynomial::from_coefficients_vec(coeffs);
    assert_eq!(d.fft(p.coeffs()), evals);
}

#[test]
fn elements_are_powers_of_the_generator() {
    let d = EvaluationDomain::new(8).unwrap();
    let e = d.elements();
    assert_eq!(e.len(), 8);
    assert_eq!(e[0], Scalar::one());
    for i in 0..8 {
        assert_eq!(e[i], d.group_gen().pow(i as u64));
    }
}

#[test]
fn vanishing_polynomial_is_zero_on_the_domain() {
    let d = EvaluationDomain::new(4).unwrap();
    for x in d.elements() {
        assert_eq!(d.evaluate_vanishing_polynomial(x), Scalar::zero());
    }
    // 3^4 - 1 = 80
    assert_eq!(d.evaluate_vanishing_polynomial(s(3)), s(80));
}

#[test]
fn fft_evaluates_the_polynomial_on_the_domain() {
    let d = EvaluationDomain::new(4).unwrap();
    // 1 + 2x + 3x^2
    let coeffs = vec![s(1), s(2), s(3)];
    let evals = d.fft(&coeffs);
    assert_eq!(evals.len(), 4);
    let p = DensePolynomial::from_coefficients_vec(coeffs.clone());
    for (i, x) in d.elements().iter().enumerate() {
        assert_eq!(evals[i], p.evaluate(*x));
    }
    assert_eq!(evals[0], s(6));
}

#[test]
fn ifft_inverts_fft() {
    let d = EvaluationDomain::new(8).unwrap();
    let coeffs: Vec<Scalar> = (1..=8).map(s).collect();
    let back = d.ifft(&d.fft(&coeffs));
    assert_eq!(back, coeffs);
}

#[test]
fn fft_truncates_to_the_domain_size() {
    let d = EvaluationDomain::new(2).unwrap();
    // only 1 + 2x counts on a domain of size 2
    let evals = d.fft(&[s(1), s(2), s(100)]);
    assert_eq!(evals, vec![s(3), s(1).minus(s(2))]);
}

#[test]
fn polynomial_drops_trailing_zeros() {
    let p = DensePolynomial::from_coefficients_vec(vec![s(1), s(0), s(2), s(0), s(0)]);
    assert_eq!(p.coeffs().len(), 3);
    assert_eq!(p.coeffs()[2], s(2));
    let z = DensePolynomial::from_coefficients_vec(vec![s(0), s(0)]);
    assert!(z.coeffs().is_empty());
    assert_eq!(z.evaluate(s(5)), Scalar::zero());
}

#[test]
fn polynomial_evaluation_by_horner() {
    // 1 + 2x^2 at 3 is 19
    let p = DensePolynomial::from_coefficients_vec(vec![s(1), s(0), s(2)]);
    assert_eq!(p.evaluate(s(3)), s(19));
    assert_eq!(p.evaluate(Scalar::zero()), s(1));
    let ark_one = Fr::one();
    assert_eq!(to_fr(p.evaluate(Scalar::one())), ark_one + ark_one + ark_one);
}
