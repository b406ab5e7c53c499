use ark_plonk::constraint_system::StandardComposer;
use ark_plonk::field::Scalar;
use ark_plonk::permutation::Variable;

fn s(x: u64) -> Scalar {
    Scalar::from_u64(x)
}

/// The value of the accumulator that the range gate's equality gate (the
/// last gate with the arithmetic selector on) constrains to equal the
/// witness, on its left wire, and the witness value, on its right wire.
fn linked_values(cs: &StandardComposer) -> (Scalar, Scalar) {
    let mut g = cs.circuit_size() - 1;
    while cs.q_arith[g] != Scalar::one() {
        g -= 1;
    }
    let acc = cs.w_l[g];
    let wit = cs.w_r[g];
    (cs.variable_value(acc).unwrap(), cs.variable_value(wit).unwrap())
}

fn range_holds(value: Scalar, num_bits: usize) -> bool {
    let mut cs = StandardComposer::new();
    let witness = cs.add_input(value);
    cs.range_gate(witness, num_bits);
    let (acc, wit) = linked_values(&cs);
    acc == wit
}

#[test]
fn test_range_constraint() {
    // Not 32 bits.
    assert!(!range_holds(s((u32::MAX as u64) + 1), 32));
    // Greater than 32 bits.
    assert!(!range_holds(s(u64::MAX), 32));
    // Within 34 bits.
    assert!(range_holds(s(2u64.pow(34) - 1), 34));
}

#[test]
fn range_gate_accepts_the_bounds_of_the_range() {
    assert!(range_holds(Scalar::zero(), 2));
    assert!(range_holds(s(3), 2));
    assert!(!range_holds(s(4), 2));
    assert!(range_holds(s(u32::MAX as u64), 32));
    assert!(range_holds(s(u64::MAX), 64));
    // The largest field element fits in 256 bits.
    assert!(range_holds(Scalar::one().negate(), 256));
}

#[test]
fn range_gate_accumulator_is_the_witness_modulo_the_range() {
    let mut cs = StandardComposer::new();
    let witness = cs.add_input(s(0x1234));
    cs.range_gate(witness, 8);
    let (acc, wit) = linked_values(&cs);
    assert_eq!(acc, s(0x34));
    assert_eq!(wit, s(0x1234));
}

fn range_gate_size(num_bits: usize) -> usize {
    let mut cs = StandardComposer::new();
    let witness = cs.add_input(s(5));
    cs.range_gate(witness, num_bits);
    cs.circuit_size()
}

#[test]
fn range_gate_adds_the_expected_gates() {
    // 32 bits: 4 full gates, one more for the genesis quad, the equality
    // gate, then two zero gates: 32 / 4 = 8 gates.
    let mut cs = StandardComposer::new();
    let witness = cs.add_input(s(5));
    cs.range_gate(witness, 32);
    assert_eq!(cs.circuit_size(), 8);
    assert_eq!(cs.w_l.len(), 8);
    assert_eq!(cs.w_r.len(), 8);
    assert_eq!(cs.w_o.len(), 8);
    assert_eq!(cs.w_4.len(), 8);
    assert_eq!(cs.q_range.len(), 8);
    assert_eq!(cs.q_m.len(), 8);
    // The range selector is on for all but the last range gate.
    for i in 0..4 {
        assert_eq!(cs.q_range[i], Scalar::one());
    }
    assert_eq!(cs.q_range[4], Scalar::zero());
    assert_eq!(cs.q_range[5], Scalar::zero());
    // Gate 5 is the arithmetic equality gate.
    assert_eq!(cs.q_arith[5], Scalar::one());
    assert_eq!(cs.q_l[5], Scalar::one());
    assert_eq!(cs.q_r[5], Scalar::one().negate());
    // The first slot of the first gate's fourth wire is the zero pad.
    assert_eq!(cs.w_4[0], cs.zero_var);
    // The last two gates constrain nothing.
    for g in 6..8 {
        assert_eq!(cs.w_l[g], cs.zero_var);
        assert_eq!(cs.w_r[g], cs.zero_var);
        assert_eq!(cs.w_o[g], cs.zero_var);
        assert_eq!(cs.w_4[g], cs.zero_var);
        for q in [
            &cs.q_m, &cs.q_l, &cs.q_r, &cs.q_o, &cs.q_4, &cs.q_c, &cs.q_arith, &cs.q_range, &cs.q_logic,
            &cs.q_fixed_group_add, &cs.q_variable_group_add,
        ] {
            assert_eq!(q[g], Scalar::zero());
        }
    }

    // 34 bits: 5 gates of quads, one for padding, the equality gate, then
    // one zero gate: 34 / 4 = 8 gates.
    assert_eq!(range_gate_size(34), 8);
    assert_eq!(range_gate_size(16), 4);
    assert_eq!(range_gate_size(20), 5);
    assert_eq!(range_gate_size(64), 16);
    assert_eq!(range_gate_size(256), 64);
}

#[test]
fn narrow_range_gates_need_their_rows() {
    // Below 16 bits, and at 18, the rows of digits and the equality gate
    // need more than num_bits / 4 gates.
    assert_eq!(range_gate_size(2), 3);
    assert_eq!(range_gate_size(8), 3);
    assert_eq!(range_gate_size(14), 4);
    assert_eq!(range_gate_size(18), 5);
}

#[test]
fn range_gate_accumulators_grow_by_base_four_digits() {
    // 0b11_10_01 = 57 over 6 bits: 3 quads, the accumulators are 3, 14, 57.
    let mut cs = StandardComposer::new();
    let witness = cs.add_input(s(57));
    cs.range_gate(witness, 6);
    let mut accs = Vec::new();
    for i in 0..cs.circuit_size() - 1 {
        for v in [cs.w_4[i], cs.w_o[i], cs.w_r[i], cs.w_l[i]] {
            if v != cs.zero_var {
                accs.push(cs.variable_value(v).unwrap());
            }
        }
    }
    assert_eq!(accs, vec![s(3), s(14), s(57)]);
}

#[test]
fn composer_starts_with_the_zero_variable() {
    let mut cs = StandardComposer::new();
    assert_eq!(cs.circuit_size(), 0);
    assert_eq!(cs.zero_var, Variable(0));
    assert_eq!(cs.variable_value(cs.zero_var).unwrap(), Scalar::zero());
    let x = cs.add_input(s(9));
    assert_eq!(x, Variable(1));
    assert_eq!(cs.variable_value(x).unwrap(), s(9));
    assert!(cs.variable_value(Variable(2)).is_none());
}

#[test]
fn poly_gate_and_assert_equal_record_wires_and_selectors() {
    let mut cs = StandardComposer::new();
    let a = cs.add_input(s(2));
    let b = cs.add_input(s(3));
    let c = cs.add_input(s(6));
    let r = cs.poly_gate(a, b, c, Scalar::one(), Scalar::zero(), Scalar::zero(), Scalar::one().negate(), Scalar::zero());
    assert_eq!(r, (a, b, c));
    assert_eq!(cs.circuit_size(), 1);
    assert_eq!(cs.w_l[0], a);
    assert_eq!(cs.w_r[0], b);
    assert_eq!(cs.w_o[0], c);
    assert_eq!(cs.w_4[0], cs.zero_var);
    assert_eq!(cs.q_m[0], Scalar::one());
    assert_eq!(cs.q_o[0], Scalar::one().negate());
    assert_eq!(cs.q_arith[0], Scalar::one());
    cs.assert_equal(a, b);
    assert_eq!(cs.circuit_size(), 2);
    assert_eq!(cs.w_l[1], a);
    assert_eq!(cs.w_r[1], b);
    assert_eq!(cs.w_o[1], cs.zero_var);
    assert_eq!(cs.q_l[1], Scalar::one());
    assert_eq!(cs.q_r[1], Scalar::one().negate());
}
