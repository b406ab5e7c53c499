use ark_bls12_381::Fr;
use ark_ff::UniformRand;
use ark_plonk::constraint_system::StandardComposer;
use ark_plonk::domain::{DensePolynomial, EvaluationDomain};
use ark_plonk::field::Scalar;
use ark_plonk::permutation::{k1, k2, k3, Permutation, Variable, WireData};
use ark_serialize::CanonicalSerialize;
use rand_core::OsRng;

fn s(x: u64) -> Scalar {
    Scalar::from_u64(x)
}

fn random_scalar() -> Scalar {
    let mut bytes = Vec::new();
    Fr::rand(&mut OsRng).serialize(&mut bytes).unwrap();
    Scalar::from_bytes(&bytes).unwrap()
}

fn product(v: &[Scalar]) -> Scalar {
    v.iter().fold(Scalar::one(), |acc, x| acc.times(*x))
}

#[test]
fn test_permutation_format() {
    let mut perm = Permutation::new();
    let num_variables = 10u8;
    for i in 0..num_variables {
        let var = perm.new_variable();
        assert_eq!(var.0, i as usize);
        assert!(perm.valid_variables(&[Variable(i as usize)]));
        assert!(!perm.valid_variables(&[Variable(i as usize + 1)]));
    }

    let var_one = perm.new_variable();
    let var_two = perm.new_variable();
    let var_three = perm.new_variable();

    let gate_size = 100;
    for i in 0..gate_size {
        perm.add_variables_to_map(var_one, var_one, var_two, var_three, i);
    }

    // Every recorded wire lies in one of the gates: the sigma permutations
    // over `gate_size` gates only name those gates.
    let sigmas = perm.compute_sigma_permutations(gate_size);
    for sigma in sigmas.iter() {
        assert_eq!(sigma.len(), gate_size);
        for wire in sigma.iter() {
            match wire {
                WireData::Left(index)
                | WireData::Right(index)
                | WireData::Output(index)
                | WireData::Fourth(index) => assert!(*index < gate_size),
            };
        }
    }
}

#[test]
fn test_permutation_compute_sigmas_only_left_wires() {
    let mut perm = Permutation::new();

    let var_zero = perm.new_variable();
    let var_two = perm.new_variable();
    let var_three = perm.new_variable();
    let var_four = perm.new_variable();
    let var_five = perm.new_variable();
    let var_six = perm.new_variable();
    let var_seven = perm.new_variable();
    let var_eight = perm.new_variable();
    let var_nine = perm.new_variable();

    let num_wire_mappings = 4;

    perm.add_variables_to_map(var_zero, var_zero, var_five, var_nine, 0);
    perm.add_variables_to_map(var_zero, var_two, var_six, var_nine, 1);
    perm.add_variables_to_map(var_zero, var_three, var_seven, var_nine, 2);
    perm.add_variables_to_map(var_zero, var_four, var_eight, var_nine, 3);

    let sigmas = perm.compute_sigma_permutations(num_wire_mappings);
    let left_sigma = &sigmas[0];
    let right_sigma = &sigmas[1];
    let out_sigma = &sigmas[2];
    let fourth_sigma = &sigmas[3];

    assert_eq!(left_sigma[0], WireData::Right(0));
    assert_eq!(left_sigma[1], WireData::Left(2));
    assert_eq!(left_sigma[2], WireData::Left(3));
    assert_eq!(left_sigma[3], WireData::Left(0));

    assert_eq!(right_sigma[0], WireData::Left(1));
    assert_eq!(right_sigma[1], WireData::Right(1));
    assert_eq!(right_sigma[2], WireData::Right(2));
    assert_eq!(right_sigma[3], WireData::Right(3));

    assert_eq!(out_sigma[0], WireData::Output(0));
    assert_eq!(out_sigma[1], WireData::Output(1));
    assert_eq!(out_sigma[2], WireData::Output(2));
    assert_eq!(out_sigma[3], WireData::Output(3));

    assert_eq!(fourth_sigma[0], WireData::Fourth(1));
    assert_eq!(fourth_sigma[1], WireData::Fourth(2));
    assert_eq!(fourth_sigma[2], WireData::Fourth(3));
    assert_eq!(fourth_sigma[3], WireData::Fourth(0));

    let domain = EvaluationDomain::new(num_wire_mappings).unwrap();
    let w = domain.group_gen();
    let w_squared = w.pow(2);
    let w_cubed = w.pow(3);

    let encoded_left_sigma = perm.compute_permutation_lagrange(left_sigma, &domain);
    assert_eq!(encoded_left_sigma[0], Scalar::one().times(k1()));
    assert_eq!(encoded_left_sigma[1], w_squared);
    assert_eq!(encoded_left_sigma[2], w_cubed);
    assert_eq!(encoded_left_sigma[3], Scalar::one());

    let encoded_right_sigma = perm.compute_permutation_lagrange(right_sigma, &domain);
    assert_eq!(encoded_right_sigma[0], w);
    assert_eq!(encoded_right_sigma[1], w.times(k1()));
    assert_eq!(encoded_right_sigma[2], w_squared.times(k1()));
    assert_eq!(encoded_right_sigma[3], w_cubed.times(k1()));

    let encoded_output_sigma = perm.compute_permutation_lagrange(out_sigma, &domain);
    assert_eq!(encoded_output_sigma[0], Scalar::one().times(k2()));
    assert_eq!(encoded_output_sigma[1], w.times(k2()));
    assert_eq!(encoded_output_sigma[2], w_squared.times(k2()));
    assert_eq!(encoded_output_sigma[3], w_cubed.times(k2()));

    let encoded_fourth_sigma = perm.compute_permutation_lagrange(fourth_sigma, &domain);
    assert_eq!(encoded_fourth_sigma[0], w.times(k3()));
    assert_eq!(encoded_fourth_sigma[1], w_squared.times(k3()));
    assert_eq!(encoded_fourth_sigma[2], w_cubed.times(k3()));
    assert_eq!(encoded_fourth_sigma[3], k3());

    let w_l = vec![s(2), s(2), s(2), s(2)];
    let w_r = vec![s(2), s(1), s(1), s(1)];
    let w_o = vec![s(1), s(1), s(1), s(1)];
    let w_4 = vec![s(1), s(1), s(1), s(1)];

    check_correct_permutation_poly(num_wire_mappings, perm, &domain, w_l, w_r, w_o, w_4);
}

#[test]
fn test_permutation_compute_sigmas() {
    let mut perm = Permutation::new();

    let var_one = perm.new_variable();
    let var_two = perm.new_variable();
    let var_three = perm.new_variable();
    let var_four = perm.new_variable();

    let num_wire_mappings = 4;

    perm.add_variables_to_map(var_one, var_one, var_two, var_four, 0);
    perm.add_variables_to_map(var_two, var_one, var_two, var_four, 1);
    perm.add_variables_to_map(var_three, var_three, var_one, var_four, 2);
    perm.add_variables_to_map(var_two, var_one, var_three, var_four, 3);

    let sigmas = perm.compute_sigma_permutations(num_wire_mappings);
    let left_sigma = &sigmas[0];
    let right_sigma = &sigmas[1];
    let out_sigma = &sigmas[2];
    let fourth_sigma = &sigmas[3];

    assert_eq!(left_sigma[0], WireData::Right(0));
    assert_eq!(left_sigma[1], WireData::Output(1));
    assert_eq!(left_sigma[2], WireData::Right(2));
    assert_eq!(left_sigma[3], WireData::Output(0));

    assert_eq!(right_sigma[0], WireData::Right(1));
    assert_eq!(right_sigma[1], WireData::Output(2));
    assert_eq!(right_sigma[2], WireData::Output(3));
    assert_eq!(right_sigma[3], WireData::Left(0));

    assert_eq!(out_sigma[0], WireData::Left(1));
    assert_eq!(out_sigma[1], WireData::Left(3));
    assert_eq!(out_sigma[2], WireData::Right(3));
    assert_eq!(out_sigma[3], WireData::Left(2));

    assert_eq!(fourth_sigma[0], WireData::Fourth(1));
    assert_eq!(fourth_sigma[1], WireData::Fourth(2));
    assert_eq!(fourth_sigma[2], WireData::Fourth(3));
    assert_eq!(fourth_sigma[3], WireData::Fourth(0));

    let domain = EvaluationDomain::new(num_wire_mappings).unwrap();
    let w = domain.group_gen();
    let w_squared = w.pow(2);
    let w_cubed = w.pow(3);

    let encoded_left_sigma = perm.compute_permutation_lagrange(left_sigma, &domain);
    assert_eq!(encoded_left_sigma[0], k1());
    assert_eq!(encoded_left_sigma[1], w.times(k2()));
    assert_eq!(encoded_left_sigma[2], w_squared.times(k1()));
    assert_eq!(encoded_left_sigma[3], Scalar::one().times(k2()));

    let encoded_right_sigma = perm.compute_permutation_lagrange(right_sigma, &domain);
    assert_eq!(encoded_right_sigma[0], w.times(k1()));
    assert_eq!(encoded_right_sigma[1], w_squared.times(k2()));
    assert_eq!(encoded_right_sigma[2], w_cubed.times(k2()));
    assert_eq!(encoded_right_sigma[3], Scalar::one());

    let encoded_output_sigma = perm.compute_permutation_lagrange(out_sigma, &domain);
    assert_eq!(encoded_output_sigma[0], w);
    assert_eq!(encoded_output_sigma[1], w_cubed);
    assert_eq!(encoded_output_sigma[2], w_cubed.times(k1()));
    assert_eq!(encoded_output_sigma[3], w_squared);

    let encoded_fourth_sigma = perm.compute_permutation_lagrange(fourth_sigma, &domain);
    assert_eq!(encoded_fourth_sigma[0], w.times(k3()));
    assert_eq!(encoded_fourth_sigma[1], w_squared.times(k3()));
    assert_eq!(encoded_fourth_sigma[2], w_cubed.times(k3()));
    assert_eq!(encoded_fourth_sigma[3], k3());
}

#[test]
fn test_basic_slow_permutation_poly() {
    let num_wire_mappings = 2;
    let mut perm = Permutation::new();
    let domain = EvaluationDomain::new(num_wire_mappings).unwrap();

    let var_one = perm.new_variable();
    let var_two = perm.new_variable();
    let var_three = perm.new_variable();
    let var_four = perm.new_variable();

    perm.add_variables_to_map(var_one, var_two, var_three, var_four, 0);
    perm.add_variables_to_map(var_three, var_two, var_one, var_four, 1);

    let w_l = vec![s(1), s(3)];
    let w_r = vec![s(2), s(2)];
    let w_o = vec![s(3), s(1)];
    let w_4 = vec![s(1), s(1)];

    check_correct_permutation_poly(num_wire_mappings, perm, &domain, w_l, w_r, w_o, w_4);
}

/// Shifts the entries by one root of unity.
fn shift_poly_by_one(z_coefficients: Vec<Scalar>) -> Vec<Scalar> {
    let mut shifted_z_coefficients = z_coefficients;
    shifted_z_coefficients.push(shifted_z_coefficients[0]);
    shifted_z_coefficients.remove(0);
    shifted_z_coefficients
}

fn check_correct_permutation_poly(
    n: usize,
    mut perm: Permutation,
    domain: &EvaluationDomain,
    w_l: Vec<Scalar>,
    w_r: Vec<Scalar>,
    w_o: Vec<Scalar>,
    w_4: Vec<Scalar>,
) {
    // 0. The beta and gamma challenges.
    let beta = random_scalar();
    let gamma = random_scalar();
    assert_ne!(gamma, beta);

    // 1. The permutation polynomial by both methods.
    let (left_sigma_poly, right_sigma_poly, out_sigma_poly, fourth_sigma_poly) =
        perm.compute_sigma_polynomials(n, domain);
    let (z_vec, numerator_components, denominator_components) = perm.compute_slow_permutation_poly(
        domain,
        &w_l,
        &w_r,
        &w_o,
        &w_4,
        &beta,
        &gamma,
        (&left_sigma_poly, &right_sigma_poly, &out_sigma_poly, &fourth_sigma_poly),
    );

    let fast_z_vec = perm.compute_fast_permutation_poly(
        domain,
        &w_l,
        &w_r,
        &w_o,
        &w_4,
        beta,
        gamma,
        (&left_sigma_poly, &right_sigma_poly, &out_sigma_poly, &fourth_sigma_poly),
    );
    assert_eq!(fast_z_vec, z_vec);

    // 2. Length n, first entry one, and the products of the numerator and
    // denominator components agree.
    assert_eq!(z_vec.len(), n);
    assert_eq!(z_vec[0], Scalar::one());
    let a_0 = product(&numerator_components);
    let b_0 = product(&denominator_components);
    assert_eq!(a_0.times(b_0.inverse().unwrap()), Scalar::one());

    // 3. z(1) == z(w^n) == 1, the degree is n - 1, and
    // z(Xw) * copy_perm == z(X) * identity_perm on the domain.
    let z_poly = DensePolynomial::from_coefficients_vec(domain.ifft(&z_vec));
    assert_eq!(z_poly.evaluate(Scalar::one()), Scalar::one());
    let elements = domain.elements();
    let n_plus_one = elements[elements.len() - 1].times(domain.group_gen());
    assert_eq!(z_poly.evaluate(n_plus_one), Scalar::one());
    assert_eq!(z_poly.coeffs().len(), n);

    for i in 1..elements.len() {
        let current_root = elements[i];
        let next_root = current_root.times(domain.group_gen());

        let current_identity_perm_product = numerator_components[i];
        assert_ne!(current_identity_perm_product, Scalar::zero());

        let current_copy_perm_product = denominator_components[i];
        assert_ne!(current_copy_perm_product, Scalar::zero());

        assert_ne!(current_copy_perm_product, current_identity_perm_product);

        let z_eval = z_poly.evaluate(current_root);
        assert_ne!(z_eval, Scalar::zero());

        let z_eval_shifted = z_poly.evaluate(next_root);
        assert_ne!(z_eval_shifted, Scalar::zero());

        let lhs = z_eval_shifted.times(current_copy_perm_product);
        let rhs = z_eval.times(current_identity_perm_product);
        assert_eq!(lhs, rhs, "check failed at index: {}", i);
    }

    // The shifted polynomial.
    let shifted_z = shift_poly_by_one(fast_z_vec);
    let shifted_z_poly = DensePolynomial::from_coefficients_vec(domain.ifft(&shifted_z));
    for element in domain.elements() {
        let z_eval = z_poly.evaluate(element.times(domain.group_gen()));
        let shifted_z_eval = shifted_z_poly.evaluate(element);
        assert_eq!(z_eval, shifted_z_eval)
    }
}

#[test]
fn test_multizip_permutation_poly() {
    let mut cs = StandardComposer::new();

    let zero = Scalar::zero();
    let one = Scalar::one();
    let two = one.plus(one);

    let x1 = cs.add_input(s(4));
    let x2 = cs.add_input(s(12));
    let x3 = cs.add_input(s(8));
    let x4 = cs.add_input(s(3));

    // x1 * x4 = x2
    cs.poly_gate(x1, x4, x2, one, zero, zero, one.negate(), zero);
    // x1 + x3 = x2
    cs.poly_gate(x1, x3, x2, zero, one, one, one.negate(), zero);
    // x1 + x2 = 2*x3
    cs.poly_gate(x1, x2, x3, zero, one, one, two.negate(), zero);
    // x3 * x4 = 2*x2
    cs.poly_gate(x3, x4, x2, one, zero, zero, two.negate(), zero);

    let domain = EvaluationDomain::new(cs.circuit_size()).unwrap();
    let pad = vec![Scalar::zero(); domain.size() - cs.w_l.len()];
    let value = |v: &Variable| cs.variable_value(*v).unwrap();
    let mut w_l_scalar: Vec<Scalar> = cs.w_l.iter().map(value).collect();
    let mut w_r_scalar: Vec<Scalar> = cs.w_r.iter().map(value).collect();
    let mut w_o_scalar: Vec<Scalar> = cs.w_o.iter().map(value).collect();
    let mut w_4_scalar: Vec<Scalar> = cs.w_4.iter().map(value).collect();

    w_l_scalar.extend(&pad);
    w_r_scalar.extend(&pad);
    w_o_scalar.extend(&pad);
    w_4_scalar.extend(&pad);

    let mut perm = cs.perm;
    let sigmas: Vec<Vec<Scalar>> = perm
        .compute_sigma_permutations(domain.size())
        .iter()
        .map(|wd| perm.compute_permutation_lagrange(wd, &domain))
        .collect();

    let beta = random_scalar();
    let gamma = random_scalar();

    let sigma_polys: Vec<DensePolynomial> =
        sigmas.iter().map(|v| DensePolynomial::from_coefficients_vec(domain.ifft(v))).collect();

    let mz = perm.compute_permutation_poly(
        &domain,
        (&w_l_scalar, &w_r_scalar, &w_o_scalar, &w_4_scalar),
        beta,
        gamma,
        (&sigma_polys[0], &sigma_polys[1], &sigma_polys[2], &sigma_polys[3]),
    );

    let old_z = DensePolynomial::from_coefficients_vec(domain.ifft(&perm.compute_fast_permutation_poly(
        &domain,
        &w_l_scalar,
        &w_r_scalar,
        &w_o_scalar,
        &w_4_scalar,
        beta,
        gamma,
        (&sigma_polys[0], &sigma_polys[1], &sigma_polys[2], &sigma_polys[3]),
    )));

    assert_eq!(mz.coeffs(), old_z.coeffs());
}

#[test]
fn sigma_of_a_single_wire_is_itself() {
    // A variable on one slot only is a cycle of length one.
    let mut perm = Permutation::new();
    let a = perm.new_variable();
    let b = perm.new_variable();
    perm.add_variables_to_map(a, b, b, b, 0);
    let sigmas = perm.compute_sigma_permutations(1);
    assert_eq!(sigmas[0][0], WireData::Left(0));
    assert_eq!(sigmas[1][0], WireData::Output(0));
    assert_eq!(sigmas[2][0], WireData::Fourth(0));
    assert_eq!(sigmas[3][0], WireData::Right(0));
}

#[test]
fn irreducibles_by_value() {
    // w + beta * k * root + gamma = 5 + 2 * 7 * 3 + 11 = 58
    assert_eq!(Permutation::numerator_irreducible(s(3), s(5), s(7), s(2), s(11)), s(58));
    // w + beta * sigma + gamma = 5 + 2 * 13 + 11 = 42
    assert_eq!(Permutation::denominator_irreducible(s(3), s(5), s(13), s(2), s(11)), s(42));
    assert_eq!(k1(), s(7));
    assert_eq!(k2(), s(13));
    assert_eq!(k3(), s(17));
}

#[test]
fn grand_product_closes_when_copy_constraints_hold() {
    // Two gates whose wire values respect the copy constraints: the last
    // running product returns to one, so the slow method's whole numerator
    // equals its whole denominator.
    let mut perm = Permutation::new();
    let a = perm.new_variable();
    let b = perm.new_variable();
    let c = perm.new_variable();
    let d = perm.new_variable();
    perm.add_variables_to_map(a, b, c, d, 0);
    perm.add_variables_to_map(c, a, b, d, 1);
    let domain = EvaluationDomain::new(2).unwrap();
    let (p0, p1, p2, p3) = perm.compute_sigma_polynomials(2, &domain);
    // a = 5, b = 6, c = 7, d = 8
    let w_l = vec![s(5), s(7)];
    let w_r = vec![s(6), s(5)];
    let w_o = vec![s(7), s(6)];
    let w_4 = vec![s(8), s(8)];
    let beta = random_scalar();
    let gamma = random_scalar();
    let (z, nums, dens) =
        perm.compute_slow_permutation_poly(&domain, &w_l, &w_r, &w_o, &w_4, &beta, &gamma, (&p0, &p1, &p2, &p3));
    assert_eq!(z[0], Scalar::one());
    assert_eq!(product(&nums), product(&dens));
    let last = z[1].times(nums[1]).times(dens[1].inverse().unwrap());
    assert_eq!(last, Scalar::one());
}

#[test]
fn wire_encodings_are_distinct() {
    // Over a domain of 8 elements, the 32 wire slots of 8 gates encode to
    // 32 different field elements: the cosets H, K1 H, K2 H, K3 H are
    // disjoint.
    let domain = EvaluationDomain::new(8).unwrap();
    let perm = Permutation::new();
    let mut slots = Vec::new();
    for i in 0..8 {
        slots.push(WireData::Left(i));
        slots.push(WireData::Right(i));
        slots.push(WireData::Output(i));
        slots.push(WireData::Fourth(i));
    }
    let encodings = perm.compute_permutation_lagrange(&slots, &domain);
    assert_eq!(encodings.len(), 32);
    for a in 0..32 {
        for b in 0..a {
            assert_ne!(encodings[a], encodings[b]);
        }
    }
    assert_eq!(encodings[1], k1());
    assert_eq!(encodings[2], k2());
    assert_eq!(encodings[3], k3());
}
