//! The part of the PLONK composer that the range gate works on: the wire
//! columns, the selector columns, the witness values of the variables and
//! the copy-constraint permutation.
use crate::field::{fneg, Scalar};
use crate::permutation::{add_wire, Permutation, Variable, WireData};
use vstd::prelude::*;

verus! {

/// The witness value of every variable, by variable index.
#[verifier::external_body]
pub struct ValueMap {
    inner: hashbrown::HashMap<usize, Scalar>,
}

/// What a `ValueMap` holds: each variable index with its value.
pub uninterp spec fn value_map_contents(m: ValueMap) -> Map<usize, Scalar>;

/// The map with no keys.
pub open spec fn empty_value_map() -> Map<usize, Scalar> {
    Map::empty()
}

/// Calls `hashbrown::HashMap::with_capacity`: an empty map.
#[verifier::external_body]
fn value_map_with_capacity(capacity: usize) -> (r: ValueMap)
    ensures
        value_map_contents(r) == empty_value_map(),
{
    ValueMap { inner: hashbrown::HashMap::with_capacity(capacity) }
}

/// Calls `hashbrown::HashMap::insert`: the key now maps to the value, all
/// other keys are unchanged.
#[verifier::external_body]
fn value_map_insert(m: &mut ValueMap, k: usize, v: Scalar)
    ensures
        value_map_contents(*final(m)) == value_map_contents(*old(m)).insert(k, v),
{
    m.inner.insert(k, v);
}

/// Calls `hashbrown::HashMap::get`: the value of the key, if present.
#[verifier::external_body]
pub(crate) fn value_map_get(m: &ValueMap, k: usize) -> (r: Option<&Scalar>)
    ensures
        r.is_some() == value_map_contents(*m).dom().contains(k),
        r.is_some() ==> *r.unwrap() == value_map_contents(*m)[k],
{
    m.inner.get(&k)
}

/// The views of a sequence of field elements.
pub open spec fn values(s: Seq<Scalar>) -> Seq<nat> {
    s.map_values(|x: Scalar| x@)
}

/// The composer: gates as rows of wire variables and selector values, the
/// witness values, and the copy constraints between wires.
pub struct StandardComposer {
    /// Number of gates in the circuit.
    pub n: usize,
    /// Multiplication selector.
    pub q_m: Vec<Scalar>,
    /// Left wire selector.
    pub q_l: Vec<Scalar>,
    /// Right wire selector.
    pub q_r: Vec<Scalar>,
    /// Output wire selector.
    pub q_o: Vec<Scalar>,
    /// Fourth wire selector.
    pub q_4: Vec<Scalar>,
    /// Constant selector.
    pub q_c: Vec<Scalar>,
    /// Arithmetic gate selector.
    pub q_arith: Vec<Scalar>,
    /// Range gate selector.
    pub q_range: Vec<Scalar>,
    /// Logic gate selector.
    pub q_logic: Vec<Scalar>,
    /// Fixed-base group addition selector.
    pub q_fixed_group_add: Vec<Scalar>,
    /// Variable-base group addition selector.
    pub q_variable_group_add: Vec<Scalar>,
    /// Left wire variables.
    pub w_l: Vec<Variable>,
    /// Right wire variables.
    pub w_r: Vec<Variable>,
    /// Output wire variables.
    pub w_o: Vec<Variable>,
    /// Fourth wire variables.
    pub w_4: Vec<Variable>,
    /// A variable whose value is zero.
    pub zero_var: Variable,
    /// The witness value of each variable.
    pub variables: ValueMap,
    /// The copy constraints.
    pub perm: Permutation,
}

impl StandardComposer {
    /// The values of the variables, by index.
    pub open spec fn value_of(&self, v: Variable) -> nat {
        value_map_contents(self.variables)[v.0]@
    }

    /// The composer's invariant: every column has one entry per gate, the
    /// values and the permutation know the same variables, and the zero
    /// variable is one of them.
    pub open spec fn wf(&self) -> bool {
        &&& self.perm.wf()
        &&& value_map_contents(self.variables).dom().finite()
        &&& forall|k: usize| #[trigger] value_map_contents(self.variables).dom().contains(k) <==> (k as nat)
            < self.perm@.len()
        &&& self.zero_var.0 < self.perm@.len()
        &&& self.w_l@.len() == self.n && self.w_r@.len() == self.n
        &&& self.w_o@.len() == self.n && self.w_4@.len() == self.n
        &&& self.q_m@.len() == self.n && self.q_l@.len() == self.n && self.q_r@.len() == self.n
        &&& self.q_o@.len() == self.n && self.q_4@.len() == self.n && self.q_c@.len() == self.n
        &&& self.q_arith@.len() == self.n && self.q_range@.len() == self.n
        &&& self.q_logic@.len() == self.n && self.q_fixed_group_add@.len() == self.n
        &&& self.q_variable_group_add@.len() == self.n
    }

    /// A composer with no gates and a single variable, `zero_var`, whose
    /// value is zero.
    pub fn new() -> (r: StandardComposer)
        ensures
            r.wf(),
            r.n == 0,
            r.perm@.len() == 1,
            r.zero_var.0 == 0,
            r.value_of(r.zero_var) == 0,
    {
        let mut composer = StandardComposer {
            n: 0,
            q_m: Vec::new(),
            q_l: Vec::new(),
            q_r: Vec::new(),
            q_o: Vec::new(),
            q_4: Vec::new(),
            q_c: Vec::new(),
            q_arith: Vec::new(),
            q_range: Vec::new(),
            q_logic: Vec::new(),
            q_fixed_group_add: Vec::new(),
            q_variable_group_add: Vec::new(),
            w_l: Vec::new(),
            w_r: Vec::new(),
            w_o: Vec::new(),
            w_4: Vec::new(),
            zero_var: Variable(0),
            variables: value_map_with_capacity(0),
            perm: Permutation::new(),
        };
        proof {
            assert(value_map_contents(composer.variables).dom() =~= Set::<usize>::empty());
        }
        let zero = composer.add_input_unchecked(Scalar::zero());
        composer.zero_var = zero;
        composer
    }

    pub(crate) fn add_input_unchecked(&mut self, s: Scalar) -> (r: Variable)
        requires
            old(self).perm.wf(),
            value_map_contents(old(self).variables).dom().finite(),
            forall|k: usize| #[trigger] value_map_contents(old(self).variables).dom().contains(k) <==> (k as nat)
                < old(self).perm@.len(),
            old(self).perm@.len() < usize::MAX,
        ensures
            final(self).perm.wf(),
            value_map_contents(final(self).variables).dom().finite(),
            forall|k: usize| #[trigger] value_map_contents(final(self).variables).dom().contains(k) <==> (k as nat)
                < final(self).perm@.len(),
            r.0 == old(self).perm@.len(),
            final(self).perm@ == old(self).perm@.push(Seq::<WireData>::empty()),
            value_map_contents(final(self).variables) == value_map_contents(old(self).variables).insert(r.0, s),
            final(self).n == old(self).n,
            final(self).zero_var == old(self).zero_var,
            final(self).w_l == old(self).w_l && final(self).w_r == old(self).w_r,
            final(self).w_o == old(self).w_o && final(self).w_4 == old(self).w_4,
            final(self).q_m == old(self).q_m && final(self).q_l == old(self).q_l,
            final(self).q_r == old(self).q_r && final(self).q_o == old(self).q_o,
            final(self).q_4 == old(self).q_4 && final(self).q_c == old(self).q_c,
            final(self).q_arith == old(self).q_arith && final(self).q_range == old(self).q_range,
            final(self).q_logic == old(self).q_logic,
            final(self).q_fixed_group_add == old(self).q_fixed_group_add,
            final(self).q_variable_group_add == old(self).q_variable_group_add,
    {
        let var = self.perm.new_variable();
        value_map_insert(&mut self.variables, var.0, s);
        proof {
            let m = value_map_contents(self.variables);
            assert forall|k: usize| #[trigger] m.dom().contains(k) <==> (k as nat) < self.perm@.len() by {
                if k == var.0 {
                } else {
                }
            }
        }
        var
    }

    /// Adds a variable with value `s` to the circuit.
    pub fn add_input(&mut self, s: Scalar) -> (r: Variable)
        requires
            old(self).wf(),
            old(self).perm@.len() < usize::MAX,
        ensures
            final(self).wf(),
            r.0 == old(self).perm@.len(),
            final(self).perm@ == old(self).perm@.push(Seq::<WireData>::empty()),
            value_map_contents(final(self).variables) == value_map_contents(old(self).variables).insert(r.0, s),
            final(self).n == old(self).n,
            final(self).zero_var == old(self).zero_var,
            final(self).w_l == old(self).w_l && final(self).w_r == old(self).w_r,
            final(self).w_o == old(self).w_o && final(self).w_4 == old(self).w_4,
            final(self).q_m == old(self).q_m && final(self).q_l == old(self).q_l,
            final(self).q_r == old(self).q_r && final(self).q_o == old(self).q_o,
            final(self).q_4 == old(self).q_4 && final(self).q_c == old(self).q_c,
            final(self).q_arith == old(self).q_arith && final(self).q_range == old(self).q_range,
            final(self).q_logic == old(self).q_logic,
            final(self).q_fixed_group_add == old(self).q_fixed_group_add,
            final(self).q_variable_group_add == old(self).q_variable_group_add,
    {
        self.add_input_unchecked(s)
    }

    /// Adds a gate `q_m * a * b + q_l * a + q_r * b + q_o * c + q_c = 0`,
    /// with the zero variable on the fourth wire, and records its wires in
    /// the permutation.
    pub fn poly_gate(
        &mut self,
        a: Variable,
        b: Variable,
        c: Variable,
        q_m: Scalar,
        q_l: Scalar,
        q_r: Scalar,
        q_o: Scalar,
        q_c: Scalar,
    ) -> (r: (Variable, Variable, Variable))
        requires
            old(self).wf(),
            a.0 < old(self).perm@.len(),
            b.0 < old(self).perm@.len(),
            c.0 < old(self).perm@.len(),
            old(self).n < usize::MAX,
        ensures
            final(self).wf(),
            r == (a, b, c),
            final(self).n == old(self).n + 1,
            final(self).zero_var == old(self).zero_var,
            final(self).variables == old(self).variables,
            final(self).w_l@ == old(self).w_l@.push(a),
            final(self).w_r@ == old(self).w_r@.push(b),
            final(self).w_o@ == old(self).w_o@.push(c),
            final(self).w_4@ == old(self).w_4@.push(old(self).zero_var),
            values(final(self).q_m@) == values(old(self).q_m@).push(q_m@),
            values(final(self).q_l@) == values(old(self).q_l@).push(q_l@),
            values(final(self).q_r@) == values(old(self).q_r@).push(q_r@),
            values(final(self).q_o@) == values(old(self).q_o@).push(q_o@),
            values(final(self).q_c@) == values(old(self).q_c@).push(q_c@),
            values(final(self).q_4@) == values(old(self).q_4@).push(0),
            values(final(self).q_arith@) == values(old(self).q_arith@).push(1),
            values(final(self).q_range@) == values(old(self).q_range@).push(0),
            values(final(self).q_logic@) == values(old(self).q_logic@).push(0),
            values(final(self).q_fixed_group_add@) == values(old(self).q_fixed_group_add@).push(0),
            values(final(self).q_variable_group_add@) == values(old(self).q_variable_group_add@).push(0),
            final(self).perm@ == add_wire(
                add_wire(
                    add_wire(
                        add_wire(old(self).perm@, a.0 as int, WireData::Left(old(self).n as usize)),
                        b.0 as int,
                        WireData::Right(old(self).n as usize),
                    ),
                    c.0 as int,
                    WireData::Output(old(self).n as usize),
                ),
                old(self).zero_var.0 as int,
                WireData::Fourth(old(self).n as usize),
            ),
    {
        self.w_l.push(a);
        self.w_r.push(b);
        self.w_o.push(c);
        self.w_4.push(self.zero_var);
        self.q_l.push(q_l);
        self.q_r.push(q_r);
        self.q_m.push(q_m);
        self.q_o.push(q_o);
        self.q_c.push(q_c);
        self.q_4.push(Scalar::zero());
        self.q_arith.push(Scalar::one());
        self.q_range.push(Scalar::zero());
        self.q_logic.push(Scalar::zero());
        self.q_fixed_group_add.push(Scalar::zero());
        self.q_variable_group_add.push(Scalar::zero());
        let zero_var = self.zero_var;
        self.perm.add_variables_to_map(a, b, c, zero_var, self.n);
        self.n = self.n + 1;
        proof {
            assert(values(self.q_m@) =~= values(old(self).q_m@).push(q_m@));
            assert(values(self.q_l@) =~= values(old(self).q_l@).push(q_l@));
            assert(values(self.q_r@) =~= values(old(self).q_r@).push(q_r@));
            assert(values(self.q_o@) =~= values(old(self).q_o@).push(q_o@));
            assert(values(self.q_c@) =~= values(old(self).q_c@).push(q_c@));
            assert(values(self.q_4@) =~= values(old(self).q_4@).push(0));
            assert(values(self.q_arith@) =~= values(old(self).q_arith@).push(1));
            assert(values(self.q_range@) =~= values(old(self).q_range@).push(0));
            assert(values(self.q_logic@) =~= values(old(self).q_logic@).push(0));
            assert(values(self.q_fixed_group_add@) =~= values(old(self).q_fixed_group_add@).push(0));
            assert(values(self.q_variable_group_add@) =~= values(old(self).q_variable_group_add@).push(0));
        }
        (a, b, c)
    }

    /// Constrains `a` and `b` to hold the same value: a gate `a - b = 0`.
    pub fn assert_equal(&mut self, a: Variable, b: Variable)
        requires
            old(self).wf(),
            a.0 < old(self).perm@.len(),
            b.0 < old(self).perm@.len(),
            old(self).n < usize::MAX,
        ensures
            final(self).wf(),
            final(self).n == old(self).n + 1,
            final(self).zero_var == old(self).zero_var,
            final(self).variables == old(self).variables,
            final(self).w_l@ == old(self).w_l@.push(a),
            final(self).w_r@ == old(self).w_r@.push(b),
            final(self).w_o@ == old(self).w_o@.push(old(self).zero_var),
            final(self).w_4@ == old(self).w_4@.push(old(self).zero_var),
            values(final(self).q_m@) == values(old(self).q_m@).push(0),
            values(final(self).q_l@) == values(old(self).q_l@).push(1),
            values(final(self).q_r@) == values(old(self).q_r@).push(fneg(1)),
            values(final(self).q_o@) == values(old(self).q_o@).push(0),
            values(final(self).q_c@) == values(old(self).q_c@).push(0),
            values(final(self).q_4@) == values(old(self).q_4@).push(0),
            values(final(self).q_arith@) == values(old(self).q_arith@).push(1),
            values(final(self).q_range@) == values(old(self).q_range@).push(0),
            values(final(self).q_logic@) == values(old(self).q_logic@).push(0),
            values(final(self).q_fixed_group_add@) == values(old(self).q_fixed_group_add@).push(0),
            values(final(self).q_variable_group_add@) == values(old(self).q_variable_group_add@).push(0),
            final(self).perm@ == add_wire(
                add_wire(
                    add_wire(
                        add_wire(old(self).perm@, a.0 as int, WireData::Left(old(self).n as usize)),
                        b.0 as int,
                        WireData::Right(old(self).n as usize),
                    ),
                    old(self).zero_var.0 as int,
                    WireData::Output(old(self).n as usize),
                ),
                old(self).zero_var.0 as int,
                WireData::Fourth(old(self).n as usize),
            ),
    {
        let zero_var = self.zero_var;
        self.poly_gate(
            a,
            b,
            zero_var,
            Scalar::zero(),
            Scalar::one(),
            Scalar::one().negate(),
            Scalar::zero(),
            Scalar::zero(),
        );
    }

    /// The number of gates.
    pub fn circuit_size(&self) -> (r: usize)
        ensures
            r == self.n,
    {
        self.n
    }

    /// The witness value of a variable, if the circuit has it.
    pub fn variable_value(&self, var: Variable) -> (r: Option<Scalar>)
        ensures
            r.is_some() == value_map_contents(self.variables).dom().contains(var.0),
            r.is_some() ==> r.unwrap() == value_map_contents(self.variables)[var.0],
    {
        match value_map_get(&self.variables, var.0) {
            Some(v) => Some(*v),
            None => None,
        }
    }
}

} // verus!
