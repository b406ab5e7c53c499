//! The range gate: constrains a variable to lie in `[0, 2^num_bits)` by
//! accumulating its base-4 digits, four per gate.
use crate::constraint_system::{value_map_contents, value_map_get, values, StandardComposer};
use crate::field::{bit, fadd, fmul, fneg, modulus, Scalar};
use vstd::arithmetic::div_mod::*;
use vstd::arithmetic::mul::*;
use vstd::arithmetic::power::*;
use crate::permutation::{add_wire, Variable, WireData};
use vstd::prelude::*;

verus! {

/// The number of full-width gates the digits of `num_bits` bits need.
pub open spec fn range_num_gates(num_bits: nat) -> nat {
    num_bits / 8 + if num_bits % 8 != 0 { 1nat } else { 0nat }
}

/// Four digit slots per gate.
pub open spec fn range_num_quads(num_bits: nat) -> nat {
    4 * range_num_gates(num_bits)
}

/// The zero digits put in front so that the last gate holds exactly one
/// digit (at least one: the genesis digit).
pub open spec fn range_pad(num_bits: nat) -> nat {
    1 + ((2 * range_num_quads(num_bits) - num_bits) / 2) as nat
}

/// The gates the range gate adds, not counting the closing equality gate.
pub open spec fn range_used_gates(num_bits: nat) -> nat {
    range_num_gates(num_bits) + 1
}

/// The gates the range gate adds in all: `num_bits / 4`, or, where the rows
/// of digits and the equality gate need more, that many.
pub open spec fn range_total_gates(num_bits: nat) -> nat {
    if num_bits / 4 > range_used_gates(num_bits) + 1 {
        num_bits / 4
    } else {
        range_used_gates(num_bits) + 1
    }
}

/// The all-zero gates that follow the equality gate.
pub open spec fn range_extra_gates(num_bits: nat) -> nat {
    (range_total_gates(num_bits) - range_used_gates(num_bits) - 1) as nat
}

/// One bit as a number.
pub open spec fn bit_value(b: bool) -> nat {
    if b { 1 } else { 0 }
}

/// The base-4 digit that slot `i` accumulates: bits `2 (q - i)` and
/// `2 (q - i) + 1` of `value`, where `q` is the number of slots.
pub open spec fn range_quad(value: nat, num_quads: nat, i: nat) -> nat {
    let bit_index = ((num_quads - i) * 2) as nat;
    bit_value(bit(value, bit_index)) + 2 * bit_value(bit(value, bit_index + 1))
}

/// The accumulator after `c` digits, most significant first:
/// `acc_c = 4 acc_(c-1) + digit`, in the field.
pub open spec fn range_accumulator(value: nat, num_bits: nat, c: nat) -> nat
    decreases c,
{
    if c == 0 {
        0
    } else {
        fadd(
            fmul(4, range_accumulator(value, num_bits, (c - 1) as nat)),
            range_quad(value, range_num_quads(num_bits), (range_pad(num_bits) + c - 1) as nat),
        )
    }
}

/// The variable in slot `i`: the zero variable in the padding, otherwise the
/// accumulator variable created for that slot (numbered from `base`).
pub open spec fn range_slot_var(zero: Variable, base: nat, pad: nat, i: nat) -> Variable {
    if i < pad {
        zero
    } else {
        Variable((base + i - pad) as usize)
    }
}

/// The wire of slot `i`, counting gates from `n`: four slots per gate, in
/// the order fourth, output, right, left.
pub open spec fn range_slot_wire(n: nat, i: nat) -> WireData {
    let g = (n + i / 4) as usize;
    if i % 4 == 0 {
        WireData::Fourth(g)
    } else if i % 4 == 1 {
        WireData::Output(g)
    } else if i % 4 == 2 {
        WireData::Right(g)
    } else {
        WireData::Left(g)
    }
}

/// The variables the range gate puts in one wire column (`offset` 0 for
/// the fourth wire, 1 output, 2 right, 3 left): one per used gate, the last
/// gate holding a digit only on its fourth wire.
pub open spec fn range_column(zero: Variable, base: nat, num_bits: nat, offset: nat) -> Seq<Variable> {
    let g = range_num_gates(num_bits);
    Seq::new(
        g + 1,
        |k: int|
            if offset == 0 || k < g {
                range_slot_var(zero, base, range_pad(num_bits), (4 * k + offset) as nat)
            } else {
                zero
            },
    )
}

/// The permutation after the first `upto` slots have been recorded.
pub open spec fn range_wires(
    perm: Seq<Seq<WireData>>,
    zero: Variable,
    base: nat,
    num_bits: nat,
    n: nat,
    upto: nat,
) -> Seq<Seq<WireData>>
    decreases upto,
{
    if upto == 0 {
        perm
    } else {
        add_wire(
            range_wires(perm, zero, base, num_bits, n, (upto - 1) as nat),
            range_slot_var(zero, base, range_pad(num_bits), (upto - 1) as nat).0 as int,
            range_slot_wire(n, (upto - 1) as nat),
        )
    }
}

/// `k` zeros.
pub open spec fn zeros(k: nat) -> Seq<nat> {
    Seq::new(k, |i: int| 0nat)
}

/// The selector values the range gate appends to `q_range`: one for every
/// used gate but the last.
pub open spec fn range_selector(num_bits: nat) -> Seq<nat> {
    Seq::new(range_used_gates(num_bits), |i: int| if i + 1 < range_used_gates(num_bits) { 1nat } else { 0nat })
}


/// `perm` after the equality gate `last = witness` at gate `m`: the last
/// accumulator on the left wire, the witness on the right, zero on the
/// output and fourth wires.
pub open spec fn range_equality_wires(
    perm: Seq<Seq<WireData>>,
    last: Variable,
    witness: Variable,
    zero: Variable,
    m: nat,
) -> Seq<Seq<WireData>> {
    add_wire(
        add_wire(
            add_wire(
                add_wire(perm, last.0 as int, WireData::Left(m as usize)),
                witness.0 as int,
                WireData::Right(m as usize),
            ),
            zero.0 as int,
            WireData::Output(m as usize),
        ),
        zero.0 as int,
        WireData::Fourth(m as usize),
    )
}

/// `perm` after `k` all-zero gates from gate `n`: the zero variable on the
/// four wires of each, in the order left, right, output, fourth.
pub open spec fn zero_gate_wires(perm: Seq<Seq<WireData>>, zero: Variable, n: nat, k: nat) -> Seq<Seq<WireData>>
    decreases k,
{
    if k == 0 {
        perm
    } else {
        let g = (n + k - 1) as usize;
        add_wire(
            add_wire(
                add_wire(
                    add_wire(zero_gate_wires(perm, zero, n, (k - 1) as nat), zero.0 as int, WireData::Left(g)),
                    zero.0 as int,
                    WireData::Right(g),
                ),
                zero.0 as int,
                WireData::Output(g),
            ),
            zero.0 as int,
            WireData::Fourth(g),
        )
    }
}

/// `perm` followed by `k` variables with no wires.
pub open spec fn with_empties(perm: Seq<Seq<WireData>>, k: nat) -> Seq<Seq<WireData>> {
    perm + Seq::new(k, |i: int| Seq::<WireData>::empty())
}

/// The selectors of two composers agree.
pub open spec fn same_selectors(a: &StandardComposer, b: &StandardComposer) -> bool {
    &&& a.q_m == b.q_m && a.q_l == b.q_l && a.q_r == b.q_r && a.q_o == b.q_o
    &&& a.q_4 == b.q_4 && a.q_c == b.q_c && a.q_arith == b.q_arith && a.q_range == b.q_range
    &&& a.q_logic == b.q_logic && a.q_fixed_group_add == b.q_fixed_group_add
    &&& a.q_variable_group_add == b.q_variable_group_add
}

proof fn lemma_range_wires_push(
    perm: Seq<Seq<WireData>>,
    e: Seq<WireData>,
    zero: Variable,
    base: nat,
    num_bits: nat,
    n: nat,
    upto: nat,
)
    requires
        forall|j: nat| j < upto ==> (#[trigger] range_slot_var(zero, base, range_pad(num_bits), j)).0 < perm.len(),
    ensures
        range_wires(perm.push(e), zero, base, num_bits, n, upto) == range_wires(perm, zero, base, num_bits, n, upto).push(e),
        range_wires(perm, zero, base, num_bits, n, upto).len() == perm.len(),
    decreases upto,
{
    if upto > 0 {
        let u = (upto - 1) as nat;
        lemma_range_wires_push(perm, e, zero, base, num_bits, n, u);
        let prev = range_wires(perm, zero, base, num_bits, n, u);
        let v = range_slot_var(zero, base, range_pad(num_bits), u).0 as int;
        assert(v < perm.len());
        assert(add_wire(prev.push(e), v, range_slot_wire(n, u)) =~= add_wire(prev, v, range_slot_wire(n, u)).push(e));
    }
}

/// Pushing a zero extends a run of zeros.
proof fn lemma_push_zero(a: Seq<Scalar>, b: Seq<Scalar>, i: nat, z: Scalar)
    requires
        values(a) == values(b) + zeros(i),
        z@ == 0,
    ensures
        values(a.push(z)) == values(b) + zeros(i + 1),
{
    assert(values(a.push(z)) =~= values(a).push(0));
    assert(values(b) + zeros(i + 1) =~= (values(b) + zeros(i)).push(0));
}

/// Appends `k` copies of `x`.
fn push_copies(v: &mut Vec<Scalar>, x: Scalar, k: usize)
    ensures
        final(v)@ == old(v)@ + Seq::new(k as nat, |i: int| x),
        values(final(v)@) == values(old(v)@) + Seq::new(k as nat, |i: int| x@),
{
    let ghost start = v@;
    let mut i: usize = 0;
    while i < k
        invariant
            i <= k,
            v@ == start + Seq::new(i as nat, |j: int| x),
        decreases k - i,
    {
        v.push(x);
        i = i + 1;
        proof {
            assert(v@ =~= start + Seq::new(i as nat, |j: int| x));
        }
    }
    proof {
        assert(values(v@) =~= values(start) + Seq::new(k as nat, |i: int| x@));
    }
}

/// The arithmetic of the slot counts, for an even number of bits between 2
/// and 256.
pub proof fn lemma_range_counts(num_bits: nat)
    requires
        num_bits % 2 == 0,
        2 <= num_bits <= 256,
    ensures
        1 <= range_pad(num_bits) <= 4,
        range_pad(num_bits) <= range_num_quads(num_bits),
        range_num_quads(num_bits) + 1 - range_pad(num_bits) == num_bits / 2,
        range_num_gates(num_bits) <= 32,
        range_num_quads(num_bits) == 4 * range_num_gates(num_bits),
        2 * range_num_quads(num_bits) >= num_bits,
{
}

/// Two consecutive bits starting at an even position form a base-4 digit.
proof fn lemma_quad_is_digit(v: nat, e: nat)
    ensures
        bit_value(bit(v, 2 * e)) + 2 * bit_value(bit(v, 2 * e + 1)) == (v as int / pow(4, e)) % 4,
{
    lemma_pow_multiplies(2, 2, e);
    assert(pow(2, 2) == 4) by {
        reveal_with_fuel(pow, 3);
    }
    let d = pow(2, 2 * e);
    lemma_pow_positive(2, 2 * e);
    let y = v as int / d;
    lemma_div_pos_is_pos(v as int, d);
    assert(pow(2, 2 * e + 1) == d * 2) by {
        lemma_pow_adds(2, 2 * e, 1);
        reveal_with_fuel(pow, 2);
    }
    lemma_div_denominator(v as int, d, 2);
    lemma_breakdown(y, 2, 2);
    assert(bit_value(bit(v, 2 * e)) == y % 2);
    assert(bit_value(bit(v, 2 * e + 1)) == (y / 2) % 2);
}

/// Below the `h`-th base-4 digit, `v` and `v mod 4^h` have the same digits.
proof fn lemma_low_digit(v: nat, h: nat, e: nat)
    requires
        e < h,
    ensures
        (v as int / pow(4, e)) % 4 == ((v as int % pow(4, h)) / pow(4, e)) % 4,
{
    let m = pow(4, h);
    let d = pow(4, e);
    lemma_pow_positive(4, h);
    lemma_pow_positive(4, e);
    lemma_pow_positive(4, (h - e) as nat);
    lemma_pow_adds(4, e, (h - e) as nat);
    let q = v as int / m;
    let x = v as int % m;
    lemma_fundamental_div_mod(v as int, m);
    // v = d * (4^(h-e) q) + x, so v / d = 4^(h-e) q + x / d
    let t = pow(4, (h - e) as nat);
    lemma_mul_is_associative(d, t, q);
    lemma_fundamental_div_mod(x, d);
    lemma_mod_bound(x, d);
    lemma_div_pos_is_pos(x, m);
    assert(v as int == d * (t * q + x / d) + x % d) by {
        lemma_mul_is_distributive_add(d, t * q, x / d);
    }
    lemma_div_multiples_vanish_fancy(t * q + x / d, x % d, d);
    // 4 divides 4^(h-e)
    lemma_pow_adds(4, 1, (h - e - 1) as nat);
    assert(pow(4, 1) == 4) by {
        reveal_with_fuel(pow, 2);
    }
    let t1 = pow(4, (h - e - 1) as nat);
    lemma_mul_is_associative(4, t1, q);
    lemma_mod_multiples_vanish(t1 * q, x / d, 4);
}

/// `x / 4^e` is four times `x / 4^(e+1)` plus the `e`-th digit.
proof fn lemma_digit_step(x: nat, e: nat)
    ensures
        x as int / pow(4, e) == 4 * (x as int / pow(4, e + 1)) + (x as int / pow(4, e)) % 4,
{
    let d = pow(4, e);
    lemma_pow_positive(4, e);
    lemma_pow_adds(4, e, 1);
    assert(pow(4, 1) == 4) by {
        reveal_with_fuel(pow, 2);
    }
    lemma_div_denominator(x as int, d, 4);
    lemma_div_pos_is_pos(x as int, d);
    lemma_fundamental_div_mod(x as int / d, 4);
}

/// After `c` of the `h = num_bits / 2` digits, the accumulator holds the top
/// `c` digits of `value mod 2^num_bits`.
pub proof fn lemma_range_accumulator(value: nat, num_bits: nat, c: nat)
    requires
        value < modulus(),
        num_bits % 2 == 0,
        2 <= num_bits <= 256,
        c <= num_bits / 2,
    ensures
        range_accumulator(value, num_bits, c) == (value as int % pow(2, num_bits)) / pow(4, (num_bits / 2 - c) as nat),
    decreases c,
{
    let h = num_bits / 2;
    lemma_range_counts(num_bits);
    lemma_pow_multiplies(2, 2, h);
    assert(pow(2, 2) == 4) by {
        reveal_with_fuel(pow, 3);
    }
    assert(pow(4, h) == pow(2, num_bits));
    let m = pow(2, num_bits);
    lemma_pow_positive(2, num_bits);
    let x = value as int % m;
    lemma_mod_bound(value as int, m);
    assert(x <= value) by {
        lemma_mod_decreases(value, m as nat);
    }
    if c == 0 {
        lemma_pow_positive(4, h);
        assert(x / pow(4, h) == 0) by {
            lemma_basic_div(x, pow(4, h));
        }
    } else {
        lemma_range_accumulator(value, num_bits, (c - 1) as nat);
        let e = (h - c) as nat;
        let prev = range_accumulator(value, num_bits, (c - 1) as nat);
        assert(prev == x / pow(4, e + 1));
        let i = (range_pad(num_bits) + c - 1) as nat;
        assert((range_num_quads(num_bits) - i) * 2 == 2 * e);
        lemma_quad_is_digit(value, e);
        lemma_low_digit(value, h, e);
        lemma_digit_step(x as nat, e);
        let digit = range_quad(value, range_num_quads(num_bits), i);
        assert(digit == (x / pow(4, e)) % 4);
        lemma_pow_positive(4, e);
        lemma_div_pos_is_pos(x, pow(4, e));
        assert(x / pow(4, e) <= x) by {
            lemma_div_is_ordered_by_denominator(x, 1, pow(4, e));
        }
        assert(4 * prev + digit < modulus());
        lemma_small_mod((4 * prev) as nat, modulus());
        lemma_small_mod((4 * prev + digit) as nat, modulus());
    }
}

/// The number of gates the range gate adds. The rows of digits, eight bits
/// each (rounded up), one more row for the genesis digit or the padding,
/// and the equality gate come to `ceil(num_bits / 8) + 2` gates; all-zero
/// gates make up the rest of `num_bits / 4`. That is the count for 16 bits
/// and from 20 bits on; below (2 to 14 bits, and 18) `num_bits / 4` gates
/// cannot hold the digits and the equality, and the count is
/// `ceil(num_bits / 8) + 2`.
pub proof fn lemma_range_gate_count(num_bits: nat)
    requires
        num_bits % 2 == 0,
        2 <= num_bits,
    ensures
        range_used_gates(num_bits) + 1 == (num_bits + 7) / 8 + 2,
        range_total_gates(num_bits) == range_used_gates(num_bits) + 1 + range_extra_gates(num_bits),
        range_total_gates(num_bits) >= num_bits / 4,
        num_bits == 16 || num_bits >= 20 ==> range_total_gates(num_bits) == num_bits / 4,
        num_bits <= 14 || num_bits == 18 ==> range_total_gates(num_bits) == (num_bits + 7) / 8 + 2 > num_bits / 4,
{
}

impl StandardComposer {
    /// Adds a range gate that constrains `witness` to lie in
    /// `[0, 2^num_bits)`: `num_bits / 2` accumulator variables, four
    /// base-4 digits per gate, the last of which is made equal to the
    /// witness. `num_bits` must be even.
    ///
    /// It adds `num_bits / 4` gates: `ceil(num_bits / 8) + 1` rows of
    /// digits, the equality gate, then gates with every selector zero. For
    /// 2 to 14 bits and for 18 the rows of digits and the equality need
    /// more than `num_bits / 4` gates, `ceil(num_bits / 8) + 2`, and it adds
    /// those (see `lemma_range_gate_count`).
    #[verifier::rlimit(50)]
    pub fn range_gate(&mut self, witness: Variable, num_bits: usize)
        requires
            old(self).wf(),
            witness.0 < old(self).perm@.len(),
            num_bits % 2 == 0,
            2 <= num_bits <= 256,
            old(self).n + 64 < usize::MAX,
            old(self).perm@.len() + 256 < usize::MAX,
        ensures
            final(self).wf(),
            final(self).n == old(self).n + range_total_gates(num_bits as nat),
            final(self).zero_var == old(self).zero_var,
            final(self).w_4@ == old(self).w_4@ + range_column(old(self).zero_var, old(self).perm@.len(), num_bits as nat, 0)
                + seq![old(self).zero_var] + Seq::new(range_extra_gates(num_bits as nat), |i: int| old(self).zero_var),
            final(self).w_o@ == old(self).w_o@ + range_column(old(self).zero_var, old(self).perm@.len(), num_bits as nat, 1)
                + seq![old(self).zero_var] + Seq::new(range_extra_gates(num_bits as nat), |i: int| old(self).zero_var),
            final(self).w_r@ == old(self).w_r@ + range_column(old(self).zero_var, old(self).perm@.len(), num_bits as nat, 2)
                + seq![witness] + Seq::new(range_extra_gates(num_bits as nat), |i: int| old(self).zero_var),
            final(self).w_l@ == old(self).w_l@ + range_column(old(self).zero_var, old(self).perm@.len(), num_bits as nat, 3)
                + seq![Variable((old(self).perm@.len() + num_bits / 2 - 1) as usize)] + Seq::new(range_extra_gates(num_bits as nat), |i: int| old(self).zero_var),
            values(final(self).q_m@) == values(old(self).q_m@) + zeros(range_used_gates(num_bits as nat)) + seq![0nat] + zeros(range_extra_gates(num_bits as nat)),
            values(final(self).q_l@) == values(old(self).q_l@) + zeros(range_used_gates(num_bits as nat)) + seq![1nat] + zeros(range_extra_gates(num_bits as nat)),
            values(final(self).q_r@) == values(old(self).q_r@) + zeros(range_used_gates(num_bits as nat)) + seq![fneg(1)] + zeros(range_extra_gates(num_bits as nat)),
            values(final(self).q_o@) == values(old(self).q_o@) + zeros(range_used_gates(num_bits as nat)) + seq![0nat] + zeros(range_extra_gates(num_bits as nat)),
            values(final(self).q_c@) == values(old(self).q_c@) + zeros(range_used_gates(num_bits as nat)) + seq![0nat] + zeros(range_extra_gates(num_bits as nat)),
            values(final(self).q_4@) == values(old(self).q_4@) + zeros(range_used_gates(num_bits as nat)) + seq![0nat] + zeros(range_extra_gates(num_bits as nat)),
            values(final(self).q_arith@) == values(old(self).q_arith@) + zeros(range_used_gates(num_bits as nat)) + seq![1nat] + zeros(range_extra_gates(num_bits as nat)),
            values(final(self).q_range@) == values(old(self).q_range@) + range_selector(num_bits as nat) + seq![0nat] + zeros(range_extra_gates(num_bits as nat)),
            values(final(self).q_logic@) == values(old(self).q_logic@) + zeros(range_used_gates(num_bits as nat)) + seq![0nat] + zeros(range_extra_gates(num_bits as nat)),
            values(final(self).q_fixed_group_add@) == values(old(self).q_fixed_group_add@) + zeros(
                range_used_gates(num_bits as nat),
            ) + seq![0nat] + zeros(range_extra_gates(num_bits as nat)),
            values(final(self).q_variable_group_add@) == values(old(self).q_variable_group_add@) + zeros(
                range_used_gates(num_bits as nat),
            ) + seq![0nat] + zeros(range_extra_gates(num_bits as nat)),
            final(self).perm@ == zero_gate_wires(
                range_equality_wires(
                    range_wires(
                        with_empties(old(self).perm@, num_bits as nat / 2),
                        old(self).zero_var,
                        old(self).perm@.len(),
                        num_bits as nat,
                        old(self).n as nat,
                        range_num_quads(num_bits as nat) + 1,
                    ),
                    Variable((old(self).perm@.len() + num_bits / 2 - 1) as usize),
                    witness,
                    old(self).zero_var,
                    (old(self).n + range_used_gates(num_bits as nat)) as nat,
                ),
                old(self).zero_var,
                (old(self).n + range_used_gates(num_bits as nat) + 1) as nat,
                range_extra_gates(num_bits as nat),
            ),
            final(self).perm@.len() == old(self).perm@.len() + num_bits / 2,
            forall|k: usize|
                (k as nat) < old(self).perm@.len() ==> #[trigger] value_map_contents(final(self).variables)[k]
                    == value_map_contents(old(self).variables)[k],
            forall|c: nat|
                c < num_bits / 2 ==> #[trigger] final(self).value_of(Variable((old(self).perm@.len() + c) as usize))
                    == range_accumulator(old(self).value_of(witness), num_bits as nat, c + 1),
            final(self).value_of(Variable((old(self).perm@.len() + num_bits / 2 - 1) as usize)) == old(self).value_of(
                witness,
            ) as int % pow(2, num_bits as nat),
            final(self).value_of(witness) == old(self).value_of(witness),
            (final(self).value_of(Variable((old(self).perm@.len() + num_bits / 2 - 1) as usize)) == final(self).value_of(
                witness,
            )) <==> old(self).value_of(witness) < pow(2, num_bits as nat),
    {
        let ghost s0 = *self;
        let ghost base = self.perm@.len();
        let ghost value = self.value_of(witness);
        let ghost nb = num_bits as nat;
        proof {
            lemma_range_counts(nb);
        }

        // Bits of the witness, least significant first.
        let witness_value = *value_map_get(&self.variables, witness.0).unwrap();
        proof {
            use_type_invariant(&witness_value);
            witness_value.lemma_canonical();
        }
        let bits = witness_value.to_bits_le();

        // One gate holds four digits, that is eight bits; a partial gate for
        // the rest.
        let mut num_gates = num_bits / 8;
        if num_bits % 8 != 0 {
            num_gates = num_gates + 1;
        }
        let num_quads = num_gates * 4;

        // Pad with zero digits (the genesis digit and enough more) so that
        // the last gate holds exactly one digit, on its fourth wire.
        let pad = 1 + (num_quads * 2 - num_bits) / 2;

        // One gate more than the digits fill.
        let used_gates = num_gates + 1;

        let mut accumulators: Vec<Variable> = Vec::new();
        let mut accumulator = Scalar::zero();
        let four = Scalar::from_u64(4);

        proof {
            assert(num_quads == range_num_quads(nb));
            assert(pad == range_pad(nb));
            assert(with_empties(s0.perm@, 0) =~= s0.perm@);
        }

        let mut i: usize = 0;
        while i < pad
            invariant
                i <= pad,
                pad == range_pad(nb),
                num_quads == range_num_quads(nb),
                1 <= pad <= 4,
                self.perm.wf(),
                value_map_contents(self.variables) == value_map_contents(s0.variables),
                self.variables == s0.variables,
                self.n == s0.n,
                self.n + 64 < usize::MAX,
                self.zero_var == s0.zero_var,
                s0.zero_var.0 < base,
                base == s0.perm@.len(),
                same_selectors(self, &s0),
                self.w_4@ == s0.w_4@ + Seq::new(((i + 3) / 4) as nat, |k: int| range_slot_var(s0.zero_var, base, pad as nat, (4 * k) as nat)),
                self.w_o@ == s0.w_o@ + Seq::new(((i + 2) / 4) as nat, |k: int| range_slot_var(s0.zero_var, base, pad as nat, (4 * k + 1) as nat)),
                self.w_r@ == s0.w_r@ + Seq::new(((i + 1) / 4) as nat, |k: int| range_slot_var(s0.zero_var, base, pad as nat, (4 * k + 2) as nat)),
                self.w_l@ == s0.w_l@ + Seq::new((i / 4) as nat, |k: int| range_slot_var(s0.zero_var, base, pad as nat, (4 * k + 3) as nat)),
                self.perm@ == range_wires(s0.perm@, s0.zero_var, base, nb, s0.n as nat, i as nat),
                self.perm@.len() == base,
            decreases pad - i,
        {
            let ghost before = *self;
            proof {
                assert forall|j: nat| j < i implies (#[trigger] range_slot_var(s0.zero_var, base, range_pad(nb), j)).0 < s0.perm@.len() by {}
                lemma_range_wires_push(s0.perm@, Seq::empty(), s0.zero_var, base, nb, s0.n as nat, i as nat);
            }
            let zero_var = self.zero_var;
            self.range_add_wire(i, zero_var);
            i = i + 1;
            proof {
                assert(self.w_4@ =~= s0.w_4@ + Seq::new(((i + 3) / 4) as nat, |k: int| range_slot_var(s0.zero_var, base, pad as nat, (4 * k) as nat)));
                assert(self.w_o@ =~= s0.w_o@ + Seq::new(((i + 2) / 4) as nat, |k: int| range_slot_var(s0.zero_var, base, pad as nat, (4 * k + 1) as nat)));
                assert(self.w_r@ =~= s0.w_r@ + Seq::new(((i + 1) / 4) as nat, |k: int| range_slot_var(s0.zero_var, base, pad as nat, (4 * k + 2) as nat)));
                assert(self.w_l@ =~= s0.w_l@ + Seq::new((i / 4) as nat, |k: int| range_slot_var(s0.zero_var, base, pad as nat, (4 * k + 3) as nat)));
            }
        }
        proof {
            assert(with_empties(s0.perm@, 0) =~= s0.perm@);
        }

        // Each remaining slot takes the next digit, most significant first,
        // and a fresh accumulator variable.
        let mut i: usize = pad;
        while i <= num_quads
            invariant
                pad <= i <= num_quads + 1,
                pad == range_pad(nb),
                num_quads == range_num_quads(nb),
                num_quads + 1 - pad == nb / 2,
                num_quads <= 128,
                1 <= pad <= 4,
                nb == num_bits,
                2 <= nb <= 256,
                self.perm.wf(),
                value_map_contents(self.variables).dom().finite(),
                forall|k: usize| #[trigger] value_map_contents(self.variables).dom().contains(k) <==> (k as nat) < self.perm@.len(),
                forall|k: usize| (k as nat) < base ==> #[trigger] value_map_contents(self.variables)[k] == value_map_contents(s0.variables)[k],
                forall|c: nat| c < i - pad ==> #[trigger] value_map_contents(self.variables)[(base + c) as usize]@ == range_accumulator(value, nb, c + 1),
                value == s0.value_of(witness),
                self.n == s0.n,
                self.n + 64 < usize::MAX,
                self.zero_var == s0.zero_var,
                s0.zero_var.0 < base,
                base == s0.perm@.len(),
                base + 256 < usize::MAX,
                same_selectors(self, &s0),
                bits@.len() == 256,
                forall|k: int| 0 <= k < 256 ==> bits@[k] == bit(value, k as nat),
                four@ == 4,
                accumulator@ == range_accumulator(value, nb, (i - pad) as nat),
                accumulators@ == Seq::new((i - pad) as nat, |c: int| Variable((base + c) as usize)),
                self.w_4@ == s0.w_4@ + Seq::new(((i + 3) / 4) as nat, |k: int| range_slot_var(s0.zero_var, base, pad as nat, (4 * k) as nat)),
                self.w_o@ == s0.w_o@ + Seq::new(((i + 2) / 4) as nat, |k: int| range_slot_var(s0.zero_var, base, pad as nat, (4 * k + 1) as nat)),
                self.w_r@ == s0.w_r@ + Seq::new(((i + 1) / 4) as nat, |k: int| range_slot_var(s0.zero_var, base, pad as nat, (4 * k + 2) as nat)),
                self.w_l@ == s0.w_l@ + Seq::new((i / 4) as nat, |k: int| range_slot_var(s0.zero_var, base, pad as nat, (4 * k + 3) as nat)),
                self.perm@ == range_wires(with_empties(s0.perm@, (i - pad) as nat), s0.zero_var, base, nb, s0.n as nat, i as nat),
                self.perm@.len() == base + (i - pad),
            decreases num_quads + 1 - i,
        {
            // Turn the next pair of bits into a base-4 digit.
            let bit_index = (num_quads - i) * 2;
            let q_0: u64 = if bits[bit_index] { 1 } else { 0 };
            let q_1: u64 = if bits[bit_index + 1] { 1 } else { 0 };
            let quad = q_0 + 2 * q_1;

            // The next accumulator.
            let ghost c = (i - pad) as nat;
            let ghost acc_before = accumulator@;
            accumulator = four.times(accumulator);
            accumulator = accumulator.plus(Scalar::from_u64(quad));
            proof {
                assert(quad as nat == range_quad(value, num_quads as nat, i as nat));
                assert((range_pad(nb) + (c + 1) - 1) as nat == i as nat);
                assert(range_accumulator(value, nb, c + 1) == fadd(fmul(4, range_accumulator(value, nb, c)), range_quad(value, range_num_quads(nb), i as nat)));
                assert(acc_before == range_accumulator(value, nb, c));
                assert(accumulator@ == fadd(fmul(4, acc_before), quad as nat));
                assert(accumulator@ == range_accumulator(value, nb, c + 1));
                assert forall|j: nat| j < i implies (#[trigger] range_slot_var(s0.zero_var, base, range_pad(nb), j)).0
                    < with_empties(s0.perm@, c).len() by {}
                lemma_range_wires_push(with_empties(s0.perm@, c), Seq::empty(), s0.zero_var, base, nb, s0.n as nat, i as nat);
                assert(with_empties(s0.perm@, c).push(Seq::empty()) =~= with_empties(s0.perm@, c + 1));
            }

            let accumulator_var = self.add_input_unchecked(accumulator);
            accumulators.push(accumulator_var);
            self.range_add_wire(i, accumulator_var);
            i = i + 1;
            proof {
                assert(accumulators@ =~= Seq::new((i - pad) as nat, |c: int| Variable((base + c) as usize)));
                assert(self.w_4@ =~= s0.w_4@ + Seq::new(((i + 3) / 4) as nat, |k: int| range_slot_var(s0.zero_var, base, pad as nat, (4 * k) as nat)));
                assert(self.w_o@ =~= s0.w_o@ + Seq::new(((i + 2) / 4) as nat, |k: int| range_slot_var(s0.zero_var, base, pad as nat, (4 * k + 1) as nat)));
                assert(self.w_r@ =~= s0.w_r@ + Seq::new(((i + 1) / 4) as nat, |k: int| range_slot_var(s0.zero_var, base, pad as nat, (4 * k + 2) as nat)));
                assert(self.w_l@ =~= s0.w_l@ + Seq::new((i / 4) as nat, |k: int| range_slot_var(s0.zero_var, base, pad as nat, (4 * k + 3) as nat)));
                assert forall|cc: nat| cc < i - pad implies #[trigger] value_map_contents(self.variables)[(base + cc) as usize]@ == range_accumulator(value, nb, cc + 1) by {
                    if cc == c {
                    } else {
                        assert((base + cc) as usize != (base + c) as usize);
                    }
                }
            }
        }

        // The selectors of the gates used: zero everywhere but the range
        // selector.
        push_copies(&mut self.q_m, Scalar::zero(), used_gates);
        push_copies(&mut self.q_l, Scalar::zero(), used_gates);
        push_copies(&mut self.q_r, Scalar::zero(), used_gates);
        push_copies(&mut self.q_o, Scalar::zero(), used_gates);
        push_copies(&mut self.q_c, Scalar::zero(), used_gates);
        push_copies(&mut self.q_arith, Scalar::zero(), used_gates);
        push_copies(&mut self.q_4, Scalar::zero(), used_gates);
        push_copies(&mut self.q_fixed_group_add, Scalar::zero(), used_gates);
        push_copies(&mut self.q_variable_group_add, Scalar::zero(), used_gates);
        push_copies(&mut self.q_range, Scalar::one(), used_gates);
        push_copies(&mut self.q_logic, Scalar::zero(), used_gates);
        self.n = self.n + used_gates;

        // The last row holds one digit, on its fourth wire, which the row
        // before it reads: switch the range selector off there and put zero
        // on its other wires.
        let last_gate = self.q_range.len() - 1;
        self.q_range.set(last_gate, Scalar::zero());
        let zero_var = self.zero_var;
        self.w_l.push(zero_var);
        self.w_r.push(zero_var);
        self.w_o.push(zero_var);

        proof {
            let g = range_num_gates(nb);
            assert(used_gates == g + 1);
            assert(values(self.q_range@) =~= values(s0.q_range@) + range_selector(nb));
            assert(self.w_4@ =~= s0.w_4@ + range_column(s0.zero_var, base, nb, 0));
            assert(self.w_o@ =~= s0.w_o@ + range_column(s0.zero_var, base, nb, 1));
            assert(self.w_r@ =~= s0.w_r@ + range_column(s0.zero_var, base, nb, 2));
            assert(self.w_l@ =~= s0.w_l@ + range_column(s0.zero_var, base, nb, 3));
        }

        // Link the last accumulator to the witness: the constraint holds
        // exactly when the witness fits in `num_bits` bits.
        let last_accumulator = accumulators.len() - 1;
        self.assert_equal(accumulators[last_accumulator], witness);
        accumulators.set(last_accumulator, witness);
        proof {
            assert(values(self.q_range@) =~= values(s0.q_range@) + range_selector(nb) + seq![0nat]);
            assert(self.w_4@ =~= s0.w_4@ + range_column(s0.zero_var, base, nb, 0) + seq![s0.zero_var]);
            assert(self.w_o@ =~= s0.w_o@ + range_column(s0.zero_var, base, nb, 1) + seq![s0.zero_var]);
            assert(self.w_r@ =~= s0.w_r@ + range_column(s0.zero_var, base, nb, 2) + seq![witness]);
            assert(self.w_l@ =~= s0.w_l@ + range_column(s0.zero_var, base, nb, 3) + seq![Variable((base + nb / 2 - 1) as usize)]);
            assert(values(self.q_m@) =~= values(s0.q_m@) + zeros(range_used_gates(nb)) + seq![0nat]);
            assert(values(self.q_l@) =~= values(s0.q_l@) + zeros(range_used_gates(nb)) + seq![1nat]);
            assert(values(self.q_r@) =~= values(s0.q_r@) + zeros(range_used_gates(nb)) + seq![fneg(1)]);
            assert(values(self.q_o@) =~= values(s0.q_o@) + zeros(range_used_gates(nb)) + seq![0nat]);
            assert(values(self.q_c@) =~= values(s0.q_c@) + zeros(range_used_gates(nb)) + seq![0nat]);
            assert(values(self.q_4@) =~= values(s0.q_4@) + zeros(range_used_gates(nb)) + seq![0nat]);
            assert(values(self.q_arith@) =~= values(s0.q_arith@) + zeros(range_used_gates(nb)) + seq![1nat]);
            assert(values(self.q_logic@) =~= values(s0.q_logic@) + zeros(range_used_gates(nb)) + seq![0nat]);
            assert(values(self.q_fixed_group_add@) =~= values(s0.q_fixed_group_add@) + zeros(range_used_gates(nb)) + seq![0nat]);
            assert(values(self.q_variable_group_add@) =~= values(s0.q_variable_group_add@) + zeros(range_used_gates(nb)) + seq![0nat]);
            assert(value < modulus());
            lemma_range_accumulator(value, nb, nb / 2);
            assert(pow(4, 0) == 1) by {
                reveal_with_fuel(pow, 1);
            }
            let last = ((nb / 2 - 1) as nat);
            assert(self.value_of(Variable((base + last) as usize)) == range_accumulator(value, nb, last + 1));
            assert(self.value_of(witness) == value);
            lemma_pow_positive(2, nb);
            if value < pow(2, nb) {
                lemma_small_mod(value, pow(2, nb) as nat);
            } else {
                lemma_mod_bound(value as int, pow(2, nb));
            }
        }

        // All-zero gates after the equality gate, so that the range gate
        // takes `num_bits / 4` gates wherever the rows above fit in them.
        let mut total_gates = used_gates + 1;
        if num_bits / 4 > total_gates {
            total_gates = num_bits / 4;
        }
        self.add_zero_gates(total_gates - used_gates - 1);
    }

    /// Appends `k` gates with every selector zero and the zero variable on
    /// every wire: they constrain nothing.
    fn add_zero_gates(&mut self, k: usize)
        requires
            old(self).wf(),
            old(self).n + k < usize::MAX,
        ensures
            final(self).wf(),
            final(self).n == old(self).n + k,
            final(self).zero_var == old(self).zero_var,
            final(self).variables == old(self).variables,
            final(self).w_l@ == old(self).w_l@ + Seq::new(k as nat, |i: int| old(self).zero_var),
            final(self).w_r@ == old(self).w_r@ + Seq::new(k as nat, |i: int| old(self).zero_var),
            final(self).w_o@ == old(self).w_o@ + Seq::new(k as nat, |i: int| old(self).zero_var),
            final(self).w_4@ == old(self).w_4@ + Seq::new(k as nat, |i: int| old(self).zero_var),
            values(final(self).q_m@) == values(old(self).q_m@) + zeros(k as nat),
            values(final(self).q_l@) == values(old(self).q_l@) + zeros(k as nat),
            values(final(self).q_r@) == values(old(self).q_r@) + zeros(k as nat),
            values(final(self).q_o@) == values(old(self).q_o@) + zeros(k as nat),
            values(final(self).q_c@) == values(old(self).q_c@) + zeros(k as nat),
            values(final(self).q_4@) == values(old(self).q_4@) + zeros(k as nat),
            values(final(self).q_arith@) == values(old(self).q_arith@) + zeros(k as nat),
            values(final(self).q_range@) == values(old(self).q_range@) + zeros(k as nat),
            values(final(self).q_logic@) == values(old(self).q_logic@) + zeros(k as nat),
            values(final(self).q_fixed_group_add@) == values(old(self).q_fixed_group_add@) + zeros(k as nat),
            values(final(self).q_variable_group_add@) == values(old(self).q_variable_group_add@) + zeros(k as nat),
            final(self).perm@ == zero_gate_wires(old(self).perm@, old(self).zero_var, old(self).n as nat, k as nat),
            final(self).perm@.len() == old(self).perm@.len(),
    {
        let ghost s0 = *self;
        let zero_var = self.zero_var;
        let mut i: usize = 0;
        while i < k
            invariant
                self.wf(),
                i <= k,
                s0.n + k < usize::MAX,
                self.n == s0.n + i,
                self.zero_var == zero_var,
                zero_var == s0.zero_var,
                self.variables == s0.variables,
                self.perm@.len() == s0.perm@.len(),
                self.w_l@ == s0.w_l@ + Seq::new(i as nat, |j: int| zero_var),
                self.w_r@ == s0.w_r@ + Seq::new(i as nat, |j: int| zero_var),
                self.w_o@ == s0.w_o@ + Seq::new(i as nat, |j: int| zero_var),
                self.w_4@ == s0.w_4@ + Seq::new(i as nat, |j: int| zero_var),
                values(self.q_m@) == values(s0.q_m@) + zeros(i as nat),
                values(self.q_l@) == values(s0.q_l@) + zeros(i as nat),
                values(self.q_r@) == values(s0.q_r@) + zeros(i as nat),
                values(self.q_o@) == values(s0.q_o@) + zeros(i as nat),
                values(self.q_c@) == values(s0.q_c@) + zeros(i as nat),
                values(self.q_4@) == values(s0.q_4@) + zeros(i as nat),
                values(self.q_arith@) == values(s0.q_arith@) + zeros(i as nat),
                values(self.q_range@) == values(s0.q_range@) + zeros(i as nat),
                values(self.q_logic@) == values(s0.q_logic@) + zeros(i as nat),
                values(self.q_fixed_group_add@) == values(s0.q_fixed_group_add@) + zeros(i as nat),
                values(self.q_variable_group_add@) == values(s0.q_variable_group_add@) + zeros(i as nat),
                self.perm@ == zero_gate_wires(s0.perm@, zero_var, s0.n as nat, i as nat),
            decreases k - i,
        {
            let ghost before = *self;
            let z = Scalar::zero();
            self.w_l.push(zero_var);
            self.w_r.push(zero_var);
            self.w_o.push(zero_var);
            self.w_4.push(zero_var);
            self.q_m.push(z);
            self.q_l.push(z);
            self.q_r.push(z);
            self.q_o.push(z);
            self.q_c.push(z);
            self.q_4.push(z);
            self.q_arith.push(z);
            self.q_range.push(z);
            self.q_logic.push(z);
            self.q_fixed_group_add.push(z);
            self.q_variable_group_add.push(z);
            self.perm.add_variables_to_map(zero_var, zero_var, zero_var, zero_var, self.n);
            self.n = self.n + 1;
            i = i + 1;
            proof {
                assert(self.w_l@ =~= s0.w_l@ + Seq::new(i as nat, |j: int| zero_var));
                assert(self.w_r@ =~= s0.w_r@ + Seq::new(i as nat, |j: int| zero_var));
                assert(self.w_o@ =~= s0.w_o@ + Seq::new(i as nat, |j: int| zero_var));
                assert(self.w_4@ =~= s0.w_4@ + Seq::new(i as nat, |j: int| zero_var));
                lemma_push_zero(before.q_m@, s0.q_m@, (i - 1) as nat, z);
                lemma_push_zero(before.q_l@, s0.q_l@, (i - 1) as nat, z);
                lemma_push_zero(before.q_r@, s0.q_r@, (i - 1) as nat, z);
                lemma_push_zero(before.q_o@, s0.q_o@, (i - 1) as nat, z);
                lemma_push_zero(before.q_c@, s0.q_c@, (i - 1) as nat, z);
                lemma_push_zero(before.q_4@, s0.q_4@, (i - 1) as nat, z);
                lemma_push_zero(before.q_arith@, s0.q_arith@, (i - 1) as nat, z);
                lemma_push_zero(before.q_range@, s0.q_range@, (i - 1) as nat, z);
                lemma_push_zero(before.q_logic@, s0.q_logic@, (i - 1) as nat, z);
                lemma_push_zero(before.q_fixed_group_add@, s0.q_fixed_group_add@, (i - 1) as nat, z);
                lemma_push_zero(before.q_variable_group_add@, s0.q_variable_group_add@, (i - 1) as nat, z);
            }
        }
    }

    /// Puts `variable` in slot `i` of the range gate: the wire column is
    /// chosen by `i % 4`, the row by `i / 4` counted from the current size.
    fn range_add_wire(&mut self, i: usize, variable: Variable)
        requires
            old(self).perm.wf(),
            variable.0 < old(self).perm@.len(),
            old(self).n + i / 4 <= usize::MAX,
        ensures
            final(self).perm.wf(),
            final(self).perm@ == add_wire(old(self).perm@, variable.0 as int, range_slot_wire(old(self).n as nat, i as nat)),
            final(self).w_4@ == if i % 4 == 0 { old(self).w_4@.push(variable) } else { old(self).w_4@ },
            final(self).w_o@ == if i % 4 == 1 { old(self).w_o@.push(variable) } else { old(self).w_o@ },
            final(self).w_r@ == if i % 4 == 2 { old(self).w_r@.push(variable) } else { old(self).w_r@ },
            final(self).w_l@ == if i % 4 == 3 { old(self).w_l@.push(variable) } else { old(self).w_l@ },
            final(self).n == old(self).n,
            final(self).zero_var == old(self).zero_var,
            final(self).variables == old(self).variables,
            same_selectors(final(self), old(self)),
    {
        // Four digits fit in one gate, so the row changes every four
        // slots.
        let gate_index = self.circuit_size() + (i / 4);
        let wire_data = match i % 4 {
            0 => {
                self.w_4.push(variable);
                WireData::Fourth(gate_index)
            },
            1 => {
                self.w_o.push(variable);
                WireData::Output(gate_index)
            },
            2 => {
                self.w_r.push(variable);
                WireData::Right(gate_index)
            },
            _ => {
                self.w_l.push(variable);
                WireData::Left(gate_index)
            },
        };
        self.perm.add_variable_to_map(variable, wire_data);
    }
}

} // verus!
