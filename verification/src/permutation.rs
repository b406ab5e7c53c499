//! The copy-constraint permutation: which wires every variable sits on,
//! the sigma permutations that shift each variable's wires by one, their
//! encodings over the evaluation domain, and the grand-product polynomial.
use crate::domain::{
    fft_spec, ifft_spec, sview, trim_zeros, DensePolynomial, EvaluationDomain,
};
use crate::dft::lemma_fft_inverts_interpolation;
use crate::field::{fadd, finv, fmul, fpow, modulus, Scalar};
use vstd::prelude::*;

verus! {

/// A variable of the constraint system, named by its index.
#[derive(Clone, Copy, Debug, PartialEq, Eq, Hash, Structural)]
pub struct Variable(pub usize);

/// A wire slot: one of the four wires of a gate, by gate index.
#[derive(Clone, Copy, Debug, PartialEq, Eq, Hash, Structural)]
pub enum WireData {
    /// The left wire of a gate.
    Left(usize),
    /// The right wire of a gate.
    Right(usize),
    /// The output wire of a gate.
    Output(usize),
    /// The fourth wire of a gate.
    Fourth(usize),
}

/// Which of the four wire columns a slot lies in (left, right, output,
/// fourth).
pub open spec fn wire_column(w: WireData) -> int {
    match w {
        WireData::Left(_) => 0,
        WireData::Right(_) => 1,
        WireData::Output(_) => 2,
        WireData::Fourth(_) => 3,
    }
}

/// Which gate a slot belongs to.
pub open spec fn wire_gate(w: WireData) -> nat {
    match w {
        WireData::Left(i) => i as nat,
        WireData::Right(i) => i as nat,
        WireData::Output(i) => i as nat,
        WireData::Fourth(i) => i as nat,
    }
}

/// The map from variable indices to the wires they sit on.
#[verifier::external_body]
pub struct WireMap {
    inner: hashbrown::HashMap<usize, Vec<WireData>>,
}

/// What a `WireMap` holds: each variable index with its wires, in the order
/// they were added.
pub uninterp spec fn wire_map_contents(m: WireMap) -> Map<usize, Seq<WireData>>;

/// The map with no keys.
pub open spec fn empty_wire_map() -> Map<usize, Seq<WireData>> {
    Map::empty()
}

/// Calls `hashbrown::HashMap::with_capacity`: an empty map.
#[verifier::external_body]
fn wire_map_with_capacity(capacity: usize) -> (r: WireMap)
    ensures
        wire_map_contents(r) == empty_wire_map(),
{
    WireMap { inner: hashbrown::HashMap::with_capacity(capacity) }
}

/// Calls `hashbrown::HashMap::len`: the number of keys.
#[verifier::external_body]
fn wire_map_len(m: &WireMap) -> (r: usize)
    ensures
        r == wire_map_contents(*m).len(),
{
    m.inner.len()
}

/// Calls `hashbrown::HashMap::insert`: the key now maps to the value, all
/// other keys are unchanged.
#[verifier::external_body]
fn wire_map_insert(m: &mut WireMap, k: usize, v: Vec<WireData>)
    ensures
        wire_map_contents(*final(m)) == wire_map_contents(*old(m)).insert(k, v@),
{
    m.inner.insert(k, v);
}

/// Calls `hashbrown::HashMap::contains_key`.
#[verifier::external_body]
fn wire_map_contains_key(m: &WireMap, k: usize) -> (r: bool)
    ensures
        r == wire_map_contents(*m).dom().contains(k),
{
    m.inner.contains_key(&k)
}

/// Calls `hashbrown::HashMap::get`: the wires of the key, if it is present.
#[verifier::external_body]
fn wire_map_get(m: &WireMap, k: usize) -> (r: Option<&Vec<WireData>>)
    ensures
        r.is_some() == wire_map_contents(*m).dom().contains(k),
        r.is_some() ==> r.unwrap()@ == wire_map_contents(*m)[k],
{
    m.inner.get(&k)
}

/// Calls `hashbrown::HashMap::remove`: takes the key's wires out of the map.
#[verifier::external_body]
fn wire_map_remove(m: &mut WireMap, k: usize) -> (r: Option<Vec<WireData>>)
    ensures
        r.is_some() == wire_map_contents(*old(m)).dom().contains(k),
        r.is_some() ==> r.unwrap()@ == wire_map_contents(*old(m))[k],
        wire_map_contents(*final(m)) == wire_map_contents(*old(m)).remove(k),
{
    m.inner.remove(&k)
}

/// The keys of the map are exactly `0 .. len`.
pub open spec fn keys_are_prefix(m: Map<usize, Seq<WireData>>) -> bool {
    &&& m.dom().finite()
    &&& m.len() <= usize::MAX
    &&& forall|k: usize| #[trigger] m.dom().contains(k) <==> (k as nat) < m.len()
}

/// The wire lists of a map whose keys are `0 .. len`, by variable index.
pub open spec fn map_as_seq(m: Map<usize, Seq<WireData>>) -> Seq<Seq<WireData>> {
    Seq::new(m.len(), |i: int| m[i as usize])
}

/// `s` with the wire `w` added to the list of variable `v`.
pub open spec fn add_wire(s: Seq<Seq<WireData>>, v: int, w: WireData) -> Seq<Seq<WireData>> {
    s.update(v, s[v].push(w))
}

/// The identity assignment on the `4 * n` wire slots of `n` gates, one
/// sequence per column.
pub open spec fn identity_sigmas(n: nat) -> Seq<Seq<WireData>> {
    seq![
        Seq::new(n, |i: int| WireData::Left(i as usize)),
        Seq::new(n, |i: int| WireData::Right(i as usize)),
        Seq::new(n, |i: int| WireData::Output(i as usize)),
        Seq::new(n, |i: int| WireData::Fourth(i as usize)),
    ]
}

/// The wire after position `pos` in a variable's list, wrapping around to
/// the first.
pub open spec fn next_in_cycle(list: Seq<WireData>, pos: int) -> WireData {
    list[if pos == list.len() - 1 { 0 } else { pos + 1 }]
}

/// `sig` with the slot of wire `w` set to `target`.
pub open spec fn set_slot(sig: Seq<Seq<WireData>>, w: WireData, target: WireData) -> Seq<
    Seq<WireData>,
> {
    sig.update(wire_column(w), sig[wire_column(w)].update(wire_gate(w) as int, target))
}

/// `sig` after mapping each of the first `upto` wires of `list` to its
/// successor in the list.
pub open spec fn shift_wires(sig: Seq<Seq<WireData>>, list: Seq<WireData>, upto: nat) -> Seq<
    Seq<WireData>,
>
    decreases upto,
{
    if upto == 0 {
        sig
    } else {
        set_slot(
            shift_wires(sig, list, (upto - 1) as nat),
            list[upto - 1],
            next_in_cycle(list, upto - 1),
        )
    }
}

/// `sig` after shifting the wires of the first `upto` variables, in order of
/// variable index.
pub open spec fn shift_variables(sig: Seq<Seq<WireData>>, vars: Seq<Seq<WireData>>, upto: nat) -> Seq<
    Seq<WireData>,
>
    decreases upto,
{
    if upto == 0 {
        sig
    } else {
        shift_wires(
            shift_variables(sig, vars, (upto - 1) as nat),
            vars[upto - 1],
            vars[upto - 1].len(),
        )
    }
}

/// The four sigma permutations of `n` gates: each wire slot holding a
/// variable maps to the next slot of that variable, cyclically; slots that
/// hold no variable map to themselves.
pub open spec fn sigma_permutations(vars: Seq<Seq<WireData>>, n: nat) -> Seq<Seq<WireData>> {
    shift_variables(identity_sigmas(n), vars, vars.len())
}

/// Every wire recorded for a variable lies in one of the first `n` gates.
pub open spec fn wires_below(vars: Seq<Seq<WireData>>, n: nat) -> bool {
    forall|v: int, pos: int|
        0 <= v < vars.len() && 0 <= pos < vars[v].len() ==> wire_gate(#[trigger] vars[v][pos]) < n
}

/// The constant that names the coset of a wire column: one for the left
/// wires, then `K1`, `K2`, `K3` for the right, output and fourth wires.
pub open spec fn coset_constant(column: int) -> nat {
    if column == 0 {
        1
    } else if column == 1 {
        7
    } else if column == 2 {
        13
    } else {
        17
    }
}

/// The field element that encodes a wire slot over a domain with generator
/// `gen`: its gate's root of unity times its column's coset constant.
pub open spec fn wire_encoding(w: WireData, gen: nat) -> nat {
    match w {
        WireData::Left(i) => fpow(gen, i as nat),
        _ => fmul(coset_constant(wire_column(w)), fpow(gen, wire_gate(w))),
    }
}

/// The encodings of a sequence of wire slots.
pub open spec fn wire_encodings(ws: Seq<WireData>, gen: nat) -> Seq<nat> {
    ws.map_values(|w: WireData| wire_encoding(w, gen))
}

/// The first coset constant, `K1 = 7`.
pub fn k1() -> (r: Scalar)
    ensures
        r@ == coset_constant(1),
{
    Scalar::from_u64(7)
}

/// The second coset constant, `K2 = 13`.
pub fn k2() -> (r: Scalar)
    ensures
        r@ == coset_constant(2),
{
    Scalar::from_u64(13)
}

/// The third coset constant, `K3 = 17`.
pub fn k3() -> (r: Scalar)
    ensures
        r@ == coset_constant(3),
{
    Scalar::from_u64(17)
}

/// `w + beta * k * root + gamma`: one factor of a gate's numerator.
pub open spec fn numerator_factor(root: nat, w: nat, k: nat, beta: nat, gamma: nat) -> nat {
    fadd(fadd(w, fmul(fmul(beta, k), root)), gamma)
}

/// `w + beta * sigma + gamma`: one factor of a gate's denominator.
pub open spec fn denominator_factor(w: nat, sigma: nat, beta: nat, gamma: nat) -> nat {
    fadd(fadd(w, fmul(beta, sigma)), gamma)
}

/// The product of four field elements, multiplied up from one.
pub open spec fn product4(a: nat, b: nat, c: nat, d: nat) -> nat {
    fmul(fmul(fmul(fmul(1, a), b), c), d)
}

/// The numerator of gate `i`: the wire values against the identity
/// permutation (root of unity times coset constant).
pub open spec fn gate_numerator(
    gen: nat,
    w: Seq<Seq<nat>>,
    i: int,
    beta: nat,
    gamma: nat,
) -> nat {
    let root = fpow(gen, i as nat);
    product4(
        numerator_factor(root, w[0][i], coset_constant(0), beta, gamma),
        numerator_factor(root, w[1][i], coset_constant(1), beta, gamma),
        numerator_factor(root, w[2][i], coset_constant(2), beta, gamma),
        numerator_factor(root, w[3][i], coset_constant(3), beta, gamma),
    )
}

/// The denominator of gate `i`: the wire values against the sigma
/// permutations' values `sig`.
pub open spec fn gate_denominator(
    w: Seq<Seq<nat>>,
    sig: Seq<Seq<nat>>,
    i: int,
    beta: nat,
    gamma: nat,
) -> nat {
    product4(
        denominator_factor(w[0][i], sig[0][i], beta, gamma),
        denominator_factor(w[1][i], sig[1][i], beta, gamma),
        denominator_factor(w[2][i], sig[2][i], beta, gamma),
        denominator_factor(w[3][i], sig[3][i], beta, gamma),
    )
}

/// Gate `i`'s numerator over its denominator.
pub open spec fn gate_ratio(
    gen: nat,
    w: Seq<Seq<nat>>,
    sig: Seq<Seq<nat>>,
    i: int,
    beta: nat,
    gamma: nat,
) -> nat {
    fmul(gate_numerator(gen, w, i, beta, gamma), finv(gate_denominator(w, sig, i, beta, gamma)))
}

/// Entry `i` of the grand product: one, times the ratios of gates
/// `0 .. i`.
pub open spec fn grand_product(
    gen: nat,
    w: Seq<Seq<nat>>,
    sig: Seq<Seq<nat>>,
    i: nat,
    beta: nat,
    gamma: nat,
) -> nat
    decreases i,
{
    if i == 0 {
        1
    } else {
        fmul(
            grand_product(gen, w, sig, (i - 1) as nat, beta, gamma),
            gate_ratio(gen, w, sig, i - 1, beta, gamma),
        )
    }
}

/// The first `n` entries of the grand product.
pub open spec fn grand_products(
    gen: nat,
    w: Seq<Seq<nat>>,
    sig: Seq<Seq<nat>>,
    n: nat,
    beta: nat,
    gamma: nat,
) -> Seq<nat> {
    Seq::new(n, |i: int| grand_product(gen, w, sig, i as nat, beta, gamma))
}

/// The values of four wire columns.
pub open spec fn wire_values(w0: &[Scalar], w1: &[Scalar], w2: &[Scalar], w3: &[Scalar]) -> Seq<Seq<nat>> {
    seq![sview(w0@), sview(w1@), sview(w2@), sview(w3@)]
}

/// Encodings are canonical field elements.
proof fn lemma_wire_encodings_canonical(ws: Seq<WireData>, gen: nat)
    ensures
        forall|k: int| 0 <= k < ws.len() ==> #[trigger] wire_encodings(ws, gen)[k] < modulus(),
{
}

/// The encodings of the sigma permutations, one sequence per column.
pub open spec fn sigma_encodings(sigma: Seq<Seq<WireData>>, gen: nat) -> Seq<Seq<nat>> {
    Seq::new(4, |c: int| wire_encodings(sigma[c], gen))
}

/// The values over domain `d` of four sigma polynomials.
pub open spec fn sigma_values(
    d: EvaluationDomain,
    s0: &DensePolynomial,
    s1: &DensePolynomial,
    s2: &DensePolynomial,
    s3: &DensePolynomial,
) -> Seq<Seq<nat>> {
    seq![fft_spec(d, s0@), fft_spec(d, s1@), fft_spec(d, s2@), fft_spec(d, s3@)]
}

/// `sig` has four columns of `n` slots, each naming a wire of the first
/// `n` gates.
pub open spec fn sigmas_shaped(sig: Seq<Seq<WireData>>, n: nat) -> bool {
    &&& sig.len() == 4
    &&& forall|c: int| 0 <= c < 4 ==> #[trigger] sig[c].len() == n
    &&& forall|c: int, i: int| 0 <= c < 4 && 0 <= i < n ==> wire_gate(#[trigger] sig[c][i]) < n
}

proof fn lemma_shift_wires_shape(sig: Seq<Seq<WireData>>, list: Seq<WireData>, upto: nat, n: nat)
    requires
        sigmas_shaped(sig, n),
        upto <= list.len(),
        forall|pos: int| 0 <= pos < list.len() ==> wire_gate(#[trigger] list[pos]) < n,
    ensures
        sigmas_shaped(shift_wires(sig, list, upto), n),
    decreases upto,
{
    if upto > 0 {
        lemma_shift_wires_shape(sig, list, (upto - 1) as nat, n);
        let prev = shift_wires(sig, list, (upto - 1) as nat);
        let w = list[upto - 1];
        let nw = next_in_cycle(list, upto - 1);
        assert(wire_gate(w) < n);
        assert(wire_gate(nw) < n);
        let cur = set_slot(prev, w, nw);
        assert forall|c: int, i: int| 0 <= c < 4 && 0 <= i < n implies wire_gate(#[trigger] cur[c][i]) < n by {
            if c == wire_column(w) && i == wire_gate(w) {
            } else {
                assert(cur[c][i] == prev[c][i]);
            }
        }
    }
}

proof fn lemma_shift_variables_shape(sig: Seq<Seq<WireData>>, vars: Seq<Seq<WireData>>, upto: nat, n: nat)
    requires
        sigmas_shaped(sig, n),
        upto <= vars.len(),
        wires_below(vars, n),
    ensures
        sigmas_shaped(shift_variables(sig, vars, upto), n),
    decreases upto,
{
    if upto > 0 {
        lemma_shift_variables_shape(sig, vars, (upto - 1) as nat, n);
        let v = upto - 1;
        assert forall|pos: int| 0 <= pos < vars[v].len() implies wire_gate(#[trigger] vars[v][pos]) < n by {
            assert(wire_gate(vars[v][pos]) < n);
        }
        lemma_shift_wires_shape(shift_variables(sig, vars, (upto - 1) as nat), vars[v], vars[v].len(), n);
    }
}

/// Each sigma permutation of `n` gates has `n` entries.
pub proof fn lemma_sigma_lengths(vars: Seq<Seq<WireData>>, n: nat)
    requires
        wires_below(vars, n),
    ensures
        sigmas_shaped(sigma_permutations(vars, n), n),
{
    lemma_shift_variables_shape(identity_sigmas(n), vars, vars.len(), n);
}

/// No wire slot is recorded twice, for one variable or for two.
pub open spec fn wires_distinct(vars: Seq<Seq<WireData>>) -> bool {
    forall|v1: int, p1: int, v2: int, p2: int|
        0 <= v1 < vars.len() && 0 <= p1 < vars[v1].len() && 0 <= v2 < vars.len() && 0 <= p2 < vars[v2].len() && (v1
            != v2 || p1 != p2) ==> #[trigger] vars[v1][p1] != #[trigger] vars[v2][p2]
}

/// The entry of `sig` at the slot of wire `w`.
pub open spec fn slot_entry(sig: Seq<Seq<WireData>>, w: WireData) -> WireData {
    sig[wire_column(w)][wire_gate(w) as int]
}

/// Wire `w` sits in column `c` of gate `i`.
pub open spec fn at_slot(w: WireData, c: int, i: int) -> bool {
    wire_column(w) == c && wire_gate(w) == i
}

/// A slot is named by its column and gate.
pub(crate) proof fn lemma_slot_determines_wire(a: WireData, b: WireData)
    requires
        wire_column(a) == wire_column(b),
        wire_gate(a) == wire_gate(b),
    ensures
        a == b,
{
}

/// Shifting the first `upto` wires of a list sets each of their slots to the
/// next wire of the list and leaves every other slot as it was.
proof fn lemma_shift_wires_slots(sig: Seq<Seq<WireData>>, list: Seq<WireData>, upto: nat, n: nat)
    requires
        sigmas_shaped(sig, n),
        upto <= list.len(),
        forall|pos: int| 0 <= pos < list.len() ==> wire_gate(#[trigger] list[pos]) < n,
        forall|p1: int, p2: int|
            0 <= p1 < list.len() && 0 <= p2 < list.len() && p1 != p2 ==> #[trigger] list[p1] != #[trigger] list[p2],
    ensures
        forall|pos: int|
            0 <= pos < upto ==> #[trigger] slot_entry(shift_wires(sig, list, upto), list[pos]) == next_in_cycle(
                list,
                pos,
            ),
        forall|c: int, i: int|
            0 <= c < 4 && 0 <= i < n && (forall|pos: int| 0 <= pos < upto ==> !#[trigger] at_slot(list[pos], c, i))
                ==> #[trigger] shift_wires(sig, list, upto)[c][i] == sig[c][i],
    decreases upto,
{
    if upto > 0 {
        let u = upto - 1;
        lemma_shift_wires_slots(sig, list, u as nat, n);
        lemma_shift_wires_shape(sig, list, u as nat, n);
        let prev = shift_wires(sig, list, u as nat);
        let cur = shift_wires(sig, list, upto);
        let w = list[u];
        assert(wire_gate(w) < n);
        assert(cur == set_slot(prev, w, next_in_cycle(list, u)));
        assert forall|pos: int| 0 <= pos < upto implies #[trigger] slot_entry(cur, list[pos]) == next_in_cycle(list, pos) by {
            if pos < u {
                assert(list[pos] != list[u]);
                if at_slot(list[pos], wire_column(w), wire_gate(w) as int) {
                    lemma_slot_determines_wire(list[pos], w);
                }
                assert(slot_entry(prev, list[pos]) == next_in_cycle(list, pos));
            }
        }
        assert forall|c: int, i: int|
            0 <= c < 4 && 0 <= i < n && (forall|pos: int| 0 <= pos < upto ==> !#[trigger] at_slot(list[pos], c, i))
            implies #[trigger] cur[c][i] == sig[c][i] by {
            assert(!at_slot(list[u], c, i));
            assert(forall|pos: int| 0 <= pos < u ==> !#[trigger] at_slot(list[pos], c, i));
            assert(cur[c][i] == prev[c][i]);
        }
    }
}

/// Shifting the wires of the first `upto` variables sets each of their
/// slots to the next wire of the same variable and leaves every other slot as
/// it was.
proof fn lemma_shift_variables_slots(sig: Seq<Seq<WireData>>, vars: Seq<Seq<WireData>>, upto: nat, n: nat)
    requires
        sigmas_shaped(sig, n),
        upto <= vars.len(),
        wires_below(vars, n),
        wires_distinct(vars),
    ensures
        forall|v: int, pos: int|
            0 <= v < upto && 0 <= pos < vars[v].len() ==> #[trigger] slot_entry(
                shift_variables(sig, vars, upto),
                vars[v][pos],
            ) == next_in_cycle(vars[v], pos),
        forall|c: int, i: int|
            0 <= c < 4 && 0 <= i < n && (forall|v: int, pos: int|
                0 <= v < upto && 0 <= pos < vars[v].len() ==> !#[trigger] at_slot(vars[v][pos], c, i)) ==> #[trigger] shift_variables(
                sig,
                vars,
                upto,
            )[c][i] == sig[c][i],
    decreases upto,
{
    if upto > 0 {
        let u = upto - 1;
        lemma_shift_variables_slots(sig, vars, u as nat, n);
        lemma_shift_variables_shape(sig, vars, u as nat, n);
        let prev = shift_variables(sig, vars, u as nat);
        let cur = shift_variables(sig, vars, upto);
        let list = vars[u];
        assert forall|pos: int| 0 <= pos < list.len() implies wire_gate(#[trigger] list[pos]) < n by {
            assert(wire_gate(vars[u][pos]) < n);
        }
        assert forall|p1: int, p2: int|
            0 <= p1 < list.len() && 0 <= p2 < list.len() && p1 != p2 implies #[trigger] list[p1] != #[trigger] list[p2] by {
            assert(vars[u][p1] != vars[u][p2]);
        }
        lemma_shift_wires_slots(prev, list, list.len(), n);
        assert(cur == shift_wires(prev, list, list.len()));
        assert forall|v: int, pos: int| 0 <= v < upto && 0 <= pos < vars[v].len() implies #[trigger] slot_entry(
            cur,
            vars[v][pos],
        ) == next_in_cycle(vars[v], pos) by {
            if v < u {
                let w = vars[v][pos];
                assert forall|q: int| 0 <= q < list.len() implies !#[trigger] at_slot(list[q], wire_column(w), wire_gate(w) as int) by {
                    assert(vars[u][q] != vars[v][pos]);
                    if at_slot(list[q], wire_column(w), wire_gate(w) as int) {
                        lemma_slot_determines_wire(list[q], w);
                    }
                }
                assert(0 <= wire_column(w) < 4);
                assert(wire_gate(w) < n);
                assert(cur[wire_column(w)][wire_gate(w) as int] == prev[wire_column(w)][wire_gate(w) as int]);
                assert(slot_entry(prev, vars[v][pos]) == next_in_cycle(vars[v], pos));
            } else {
                assert(slot_entry(cur, list[pos]) == next_in_cycle(list, pos));
            }
        }
        assert forall|c: int, i: int|
            0 <= c < 4 && 0 <= i < n && (forall|v: int, pos: int|
                0 <= v < upto && 0 <= pos < vars[v].len() ==> !#[trigger] at_slot(vars[v][pos], c, i)) implies #[trigger] cur[c][i]
            == sig[c][i] by {
            assert forall|q: int| 0 <= q < list.len() implies !#[trigger] at_slot(list[q], c, i) by {
                assert(!at_slot(vars[u][q], c, i));
            }
            assert(cur[c][i] == prev[c][i]);
            assert(forall|v: int, pos: int|
                0 <= v < u && 0 <= pos < vars[v].len() ==> !#[trigger] at_slot(vars[v][pos], c, i));
        }
    }
}

/// The sigma permutations shift each variable's wires by one: when no wire
/// slot is recorded twice, the slot of a variable's wire maps to the next
/// wire of that variable (the last back to the first), and every slot that
/// holds no variable maps to itself.
pub proof fn lemma_sigma_shift_by_one(vars: Seq<Seq<WireData>>, n: nat)
    requires
        wires_below(vars, n),
        wires_distinct(vars),
    ensures
        forall|v: int, pos: int|
            0 <= v < vars.len() && 0 <= pos < vars[v].len() ==> #[trigger] slot_entry(
                sigma_permutations(vars, n),
                vars[v][pos],
            ) == next_in_cycle(vars[v], pos),
        forall|c: int, i: int|
            0 <= c < 4 && 0 <= i < n && (forall|v: int, pos: int|
                0 <= v < vars.len() && 0 <= pos < vars[v].len() ==> !#[trigger] at_slot(vars[v][pos], c, i))
                ==> #[trigger] sigma_permutations(vars, n)[c][i] == identity_sigmas(n)[c][i],
{
    let id = identity_sigmas(n);
    assert(sigmas_shaped(id, n)) by {
        assert forall|c: int, i: int| 0 <= c < 4 && 0 <= i < n implies wire_gate(#[trigger] id[c][i]) < n by {
        }
    }
    lemma_shift_variables_slots(id, vars, vars.len(), n);
}

/// Permutation provides the state needed to build the permutation
/// polynomial: for every variable, the wires it is associated with.
pub struct Permutation {
    variable_map: WireMap,
}

impl View for Permutation {
    type V = Seq<Seq<WireData>>;

    closed spec fn view(&self) -> Seq<Seq<WireData>> {
        map_as_seq(wire_map_contents(self.variable_map))
    }
}

proof fn lemma_insert_fresh(m: Map<usize, Seq<WireData>>, v: Seq<WireData>)
    requires
        keys_are_prefix(m),
        m.len() < usize::MAX,
    ensures
        keys_are_prefix(m.insert(m.len() as usize, v)),
        m.insert(m.len() as usize, v).len() == m.len() + 1,
        map_as_seq(m.insert(m.len() as usize, v)) == map_as_seq(m).push(v),
{
    let k = m.len() as usize;
    assert(!m.dom().contains(k));
    let m2 = m.insert(k, v);
    assert(m2.dom() == m.dom().insert(k));
    assert(m2.len() == m.len() + 1);
    assert forall|j: usize| #[trigger] m2.dom().contains(j) <==> (j as nat) < m2.len() by {
        if j == k {
        } else {
            assert(m2.dom().contains(j) == m.dom().contains(j));
        }
    }
    assert(map_as_seq(m2) =~= map_as_seq(m).push(v));
}

impl Permutation {
    /// The map's keys are exactly the variable indices handed out so far.
    pub closed spec fn wf(&self) -> bool {
        keys_are_prefix(wire_map_contents(self.variable_map))
    }

    /// A permutation with no variables.
    pub fn new() -> (r: Permutation)
        ensures
            r.wf(),
            r@ == Seq::<Seq<WireData>>::empty(),
    {
        Permutation::with_capacity(0)
    }

    /// A permutation with no variables, with room for `expected_size`.
    pub fn with_capacity(expected_size: usize) -> (r: Permutation)
        ensures
            r.wf(),
            r@ == Seq::<Seq<WireData>>::empty(),
    {
        let r = Permutation { variable_map: wire_map_with_capacity(expected_size) };
        proof {
            assert(wire_map_contents(r.variable_map).dom() =~= Set::<usize>::empty());
            assert(r@ =~= Seq::<Seq<WireData>>::empty());
        }
        r
    }

    /// A fresh variable, the next index, with no wires yet.
    pub fn new_variable(&mut self) -> (r: Variable)
        requires
            old(self).wf(),
            old(self)@.len() < usize::MAX,
        ensures
            final(self).wf(),
            r.0 == old(self)@.len(),
            final(self)@ == old(self)@.push(Seq::<WireData>::empty()),
    {
        let var = Variable(wire_map_len(&self.variable_map));
        proof {
            lemma_insert_fresh(wire_map_contents(self.variable_map), Seq::<WireData>::empty());
        }
        wire_map_insert(&mut self.variable_map, var.0, Vec::with_capacity(16usize));
        var
    }

    /// Whether every given variable has been added to the system.
    pub fn valid_variables(&self, variables: &[Variable]) -> (r: bool)
        requires
            self.wf(),
        ensures
            r == forall|i: int| 0 <= i < variables@.len() ==> variables@[i].0 < self@.len(),
    {
        let mut i: usize = 0;
        while i < variables.len()
            invariant
                self.wf(),
                0 <= i <= variables@.len(),
                forall|j: int| 0 <= j < i ==> variables@[j].0 < self@.len(),
            decreases variables@.len() - i,
        {
            if !wire_map_contains_key(&self.variable_map, variables[i].0) {
                return false;
            }
            i = i + 1;
        }
        true
    }

    /// Records that `var` sits on the wire `wire_data`.
    pub fn add_variable_to_map(&mut self, var: Variable, wire_data: WireData)
        requires
            old(self).wf(),
            var.0 < old(self)@.len(),
        ensures
            final(self).wf(),
            final(self)@ == add_wire(old(self)@, var.0 as int, wire_data),
    {
        let ok = self.valid_variables(&[var]);
        assert(ok);
        let ghost m = wire_map_contents(self.variable_map);
        let mut vec_wire_data = wire_map_remove(&mut self.variable_map, var.0).unwrap();
        vec_wire_data.push(wire_data);
        wire_map_insert(&mut self.variable_map, var.0, vec_wire_data);
        proof {
            let m2 = wire_map_contents(self.variable_map);
            assert(m2 =~= m.insert(var.0, m[var.0].push(wire_data)));
            assert(m2.dom() =~= m.dom());
            assert(m2.len() == m.len());
            let s1 = map_as_seq(m2);
            let s2 = add_wire(map_as_seq(m), var.0 as int, wire_data);
            assert forall|i: int| 0 <= i < s1.len() implies s1[i] == s2[i] by {
                if i == var.0 as int {
                } else {
                    assert(i as usize != var.0);
                }
            }
            assert(s1 =~= s2);
        }
    }

    /// Maps the variables `a, b, c, d` to the left, right, output and fourth
    /// wires of gate `gate_index`.
    pub fn add_variables_to_map(
        &mut self,
        a: Variable,
        b: Variable,
        c: Variable,
        d: Variable,
        gate_index: usize,
    )
        requires
            old(self).wf(),
            a.0 < old(self)@.len(),
            b.0 < old(self)@.len(),
            c.0 < old(self)@.len(),
            d.0 < old(self)@.len(),
        ensures
            final(self).wf(),
            final(self)@ == add_wire(
                add_wire(
                    add_wire(
                        add_wire(old(self)@, a.0 as int, WireData::Left(gate_index)),
                        b.0 as int,
                        WireData::Right(gate_index),
                    ),
                    c.0 as int,
                    WireData::Output(gate_index),
                ),
                d.0 as int,
                WireData::Fourth(gate_index),
            ),
    {
        let left: WireData = WireData::Left(gate_index);
        let right: WireData = WireData::Right(gate_index);
        let output: WireData = WireData::Output(gate_index);
        let fourth: WireData = WireData::Fourth(gate_index);
        self.add_variable_to_map(a, left);
        self.add_variable_to_map(b, right);
        self.add_variable_to_map(c, output);
        self.add_variable_to_map(d, fourth);
    }

    /// Performs the shift-by-one permutation and computes the sigma
    /// permutations of the left, right, output and fourth wires of `n`
    /// gates.
    pub fn compute_sigma_permutations(&mut self, n: usize) -> (r: [Vec<WireData>; 4])
        requires
            old(self).wf(),
            wires_below(old(self)@, n as nat),
        ensures
            *final(self) == *old(self),
            forall|c: int| 0 <= c < 4 ==> #[trigger] r[c]@ == sigma_permutations(old(self)@, n as nat)[c],
    {
        let ghost vars = self@;
        let ghost m = wire_map_contents(self.variable_map);
        let mut sigma_1: Vec<WireData> = Vec::new();
        let mut sigma_2: Vec<WireData> = Vec::new();
        let mut sigma_3: Vec<WireData> = Vec::new();
        let mut sigma_4: Vec<WireData> = Vec::new();
        let mut i: usize = 0;
        while i < n
            invariant
                i <= n,
                sigma_1@ == Seq::new(i as nat, |j: int| WireData::Left(j as usize)),
                sigma_2@ == Seq::new(i as nat, |j: int| WireData::Right(j as usize)),
                sigma_3@ == Seq::new(i as nat, |j: int| WireData::Output(j as usize)),
                sigma_4@ == Seq::new(i as nat, |j: int| WireData::Fourth(j as usize)),
            decreases n - i,
        {
            sigma_1.push(WireData::Left(i));
            sigma_2.push(WireData::Right(i));
            sigma_3.push(WireData::Output(i));
            sigma_4.push(WireData::Fourth(i));
            i = i + 1;
            proof {
                assert(sigma_1@ =~= Seq::new(i as nat, |j: int| WireData::Left(j as usize)));
                assert(sigma_2@ =~= Seq::new(i as nat, |j: int| WireData::Right(j as usize)));
                assert(sigma_3@ =~= Seq::new(i as nat, |j: int| WireData::Output(j as usize)));
                assert(sigma_4@ =~= Seq::new(i as nat, |j: int| WireData::Fourth(j as usize)));
            }
        }
        proof {
            assert(seq![sigma_1@, sigma_2@, sigma_3@, sigma_4@] =~= shift_variables(identity_sigmas(n as nat), vars, 0));
        }
        let num_vars = wire_map_len(&self.variable_map);
        let mut v: usize = 0;
        while v < num_vars
            invariant
                self.wf(),
                self@ == vars,
                wire_map_contents(self.variable_map) == m,
                num_vars == vars.len(),
                v <= num_vars,
                wires_below(vars, n as nat),
                seq![sigma_1@, sigma_2@, sigma_3@, sigma_4@] == shift_variables(identity_sigmas(n as nat), vars, v as nat),
                sigma_1@.len() == n && sigma_2@.len() == n && sigma_3@.len() == n && sigma_4@.len() == n,
            decreases num_vars - v,
        {
            let wire_data = wire_map_get(&self.variable_map, v).unwrap();
            proof {
                assert(wire_data@ == vars[v as int]);
            }
            let ghost start = seq![sigma_1@, sigma_2@, sigma_3@, sigma_4@];
            let mut wire_index: usize = 0;
            while wire_index < wire_data.len()
                invariant
                    wire_data@ == vars[v as int],
                    0 <= v < vars.len(),
                    wire_index <= wire_data@.len(),
                    wires_below(vars, n as nat),
                    seq![sigma_1@, sigma_2@, sigma_3@, sigma_4@] == shift_wires(start, wire_data@, wire_index as nat),
                    sigma_1@.len() == n && sigma_2@.len() == n && sigma_3@.len() == n && sigma_4@.len() == n,
                decreases wire_data@.len() - wire_index,
            {
                let next_index = if wire_index == wire_data.len() - 1 {
                    0
                } else {
                    wire_index + 1
                };
                let next_wire = wire_data[next_index];
                let current_wire = wire_data[wire_index];
                proof {
                    assert(wire_gate(vars[v as int][wire_index as int]) < n);
                }
                let ghost before = seq![sigma_1@, sigma_2@, sigma_3@, sigma_4@];
                match current_wire {
                    WireData::Left(index) => sigma_1.set(index, next_wire),
                    WireData::Right(index) => sigma_2.set(index, next_wire),
                    WireData::Output(index) => sigma_3.set(index, next_wire),
                    WireData::Fourth(index) => sigma_4.set(index, next_wire),
                };
                wire_index = wire_index + 1;
                proof {
                    assert(seq![sigma_1@, sigma_2@, sigma_3@, sigma_4@] =~= set_slot(before, current_wire, next_wire));
                }
            }
            v = v + 1;
        }
        [sigma_1, sigma_2, sigma_3, sigma_4]
    }

    /// Encodes each wire slot of a sigma mapping as its root of unity times
    /// its column's coset constant.
    pub fn compute_permutation_lagrange(
        &self,
        sigma_mapping: &[WireData],
        domain: &EvaluationDomain,
    ) -> (r: Vec<Scalar>)
        requires
            domain.wf(),
            forall|i: int|
                0 <= i < sigma_mapping@.len() ==> wire_gate(#[trigger] sigma_mapping@[i])
                    < domain.spec_size(),
        ensures
            sview(r@) == wire_encodings(sigma_mapping@, domain.gen()),
    {
        let roots = domain.elements();
        let mut lagrange_poly: Vec<Scalar> = Vec::new();
        let mut i: usize = 0;
        while i < sigma_mapping.len()
            invariant
                i <= sigma_mapping@.len(),
                domain.wf(),
                roots@.len() == domain.spec_size(),
                forall|j: int| 0 <= j < domain.spec_size() ==> #[trigger] roots@[j]@ == fpow(domain.gen(), j as nat),
                forall|j: int|
                    0 <= j < sigma_mapping@.len() ==> wire_gate(#[trigger] sigma_mapping@[j])
                        < domain.spec_size(),
                sview(lagrange_poly@) == wire_encodings(sigma_mapping@.take(i as int), domain.gen()),
            decreases sigma_mapping@.len() - i,
        {
            let x = sigma_mapping[i];
            proof {
                assert(wire_gate(sigma_mapping@[i as int]) < domain.spec_size());
            }
            let value = match x {
                WireData::Left(index) => roots[index],
                WireData::Right(index) => k1().times(roots[index]),
                WireData::Output(index) => k2().times(roots[index]),
                WireData::Fourth(index) => k3().times(roots[index]),
            };
            proof {
                assert(value@ == wire_encoding(x, domain.gen()));
            }
            let ghost prev = lagrange_poly@;
            lagrange_poly.push(value);
            i = i + 1;
            proof {
                assert(sview(lagrange_poly@) =~= sview(prev).push(value@));
                assert(sigma_mapping@.take(i as int) =~= sigma_mapping@.take(i - 1).push(x));
                assert(wire_encodings(sigma_mapping@.take(i - 1).push(x), domain.gen()) =~= wire_encodings(
                    sigma_mapping@.take(i - 1),
                    domain.gen(),
                ).push(wire_encoding(x, domain.gen())));
                assert(sview(lagrange_poly@) =~= wire_encodings(sigma_mapping@.take(i as int), domain.gen()));
            }
        }
        proof {
            assert(sigma_mapping@.take(i as int) =~= sigma_mapping@);
        }
        lagrange_poly
    }

    /// The sigma polynomials: for each wire column, the polynomial that
    /// takes the encodings of the sigma permutation over the domain.
    pub fn compute_sigma_polynomials(&mut self, n: usize, domain: &EvaluationDomain) -> (r: (
        DensePolynomial,
        DensePolynomial,
        DensePolynomial,
        DensePolynomial,
    ))
        requires
            old(self).wf(),
            domain.wf(),
            wires_below(old(self)@, n as nat),
            n <= domain.spec_size(),
        ensures
            *final(self) == *old(self),
            r.0@ == trim_zeros(ifft_spec(*domain, wire_encodings(sigma_permutations(old(self)@, n as nat)[0], domain.gen()))),
            r.1@ == trim_zeros(ifft_spec(*domain, wire_encodings(sigma_permutations(old(self)@, n as nat)[1], domain.gen()))),
            r.2@ == trim_zeros(ifft_spec(*domain, wire_encodings(sigma_permutations(old(self)@, n as nat)[2], domain.gen()))),
            r.3@ == trim_zeros(ifft_spec(*domain, wire_encodings(sigma_permutations(old(self)@, n as nat)[3], domain.gen()))),
            n == domain.spec_size() ==> sigma_values(*domain, &r.0, &r.1, &r.2, &r.3) == sigma_encodings(
                sigma_permutations(old(self)@, n as nat),
                domain.gen(),
            ),
    {
        let sigmas = self.compute_sigma_permutations(n);
        proof {
            lemma_sigma_lengths(self@, n as nat);
        }
        assert(sigmas[0].len() == n);
        assert(sigmas[1].len() == n);
        assert(sigmas[2].len() == n);
        assert(sigmas[3].len() == n);

        let left_sigma = self.compute_permutation_lagrange(sigmas[0].as_slice(), domain);
        let right_sigma = self.compute_permutation_lagrange(sigmas[1].as_slice(), domain);
        let out_sigma = self.compute_permutation_lagrange(sigmas[2].as_slice(), domain);
        let fourth_sigma = self.compute_permutation_lagrange(sigmas[3].as_slice(), domain);

        let left_sigma_poly = DensePolynomial::from_coefficients_vec(domain.ifft(left_sigma.as_slice()));
        let right_sigma_poly = DensePolynomial::from_coefficients_vec(domain.ifft(right_sigma.as_slice()));
        let out_sigma_poly = DensePolynomial::from_coefficients_vec(domain.ifft(out_sigma.as_slice()));
        let fourth_sigma_poly = DensePolynomial::from_coefficients_vec(domain.ifft(fourth_sigma.as_slice()));

        proof {
            if n == domain.spec_size() {
                let sg = sigma_permutations(self@, n as nat);
                assert forall|c: int| 0 <= c < 4 implies #[trigger] fft_spec(*domain, trim_zeros(
                    ifft_spec(*domain, wire_encodings(sg[c], domain.gen())),
                )) == wire_encodings(sg[c], domain.gen()) by {
                    lemma_wire_encodings_canonical(sg[c], domain.gen());
                    lemma_fft_inverts_interpolation(*domain, wire_encodings(sg[c], domain.gen()));
                }
                assert(sigma_values(*domain, &left_sigma_poly, &right_sigma_poly, &out_sigma_poly, &fourth_sigma_poly)
                    =~= sigma_encodings(sg, domain.gen()));
            }
        }
        (left_sigma_poly, right_sigma_poly, out_sigma_poly, fourth_sigma_poly)
    }

    /// `w + beta * k * root + gamma`: one factor of a gate's numerator.
    pub fn numerator_irreducible(root: Scalar, w: Scalar, k: Scalar, beta: Scalar, gamma: Scalar) -> (r: Scalar)
        ensures
            r@ == numerator_factor(root@, w@, k@, beta@, gamma@),
    {
        w.plus(beta.times(k).times(root)).plus(gamma)
    }

    /// `w + beta * sigma + gamma`: one factor of a gate's denominator.
    pub fn denominator_irreducible(root: Scalar, w: Scalar, sigma: Scalar, beta: Scalar, gamma: Scalar) -> (r: Scalar)
        ensures
            r@ == denominator_factor(w@, sigma@, beta@, gamma@),
    {
        w.plus(beta.times(sigma)).plus(gamma)
    }

    /// The permutation (grand product) polynomial: over the domain it takes
    /// the running product, from one, of each gate's numerator over its
    /// denominator.
    pub fn compute_permutation_poly(
        &self,
        domain: &EvaluationDomain,
        wires: (&[Scalar], &[Scalar], &[Scalar], &[Scalar]),
        beta: Scalar,
        gamma: Scalar,
        sigma_polys: (&DensePolynomial, &DensePolynomial, &DensePolynomial, &DensePolynomial),
    ) -> (r: DensePolynomial)
        requires
            domain.wf(),
            wires.0@.len() >= domain.spec_size(),
            wires.1@.len() >= domain.spec_size(),
            wires.2@.len() >= domain.spec_size(),
            wires.3@.len() >= domain.spec_size(),
            forall|i: int|
                0 <= i < domain.spec_size() ==> gate_denominator(
                    wire_values(wires.0, wires.1, wires.2, wires.3),
                    sigma_values(*domain, sigma_polys.0, sigma_polys.1, sigma_polys.2, sigma_polys.3),
                    i,
                    beta@,
                    gamma@,
                ) != 0,
        ensures
            r@ == trim_zeros(
                ifft_spec(
                    *domain,
                    grand_products(
                        domain.gen(),
                        wire_values(wires.0, wires.1, wires.2, wires.3),
                        sigma_values(*domain, sigma_polys.0, sigma_polys.1, sigma_polys.2, sigma_polys.3),
                        domain.spec_size(),
                        beta@,
                        gamma@,
                    ),
                ),
            ),
    {
        let ghost w = wire_values(wires.0, wires.1, wires.2, wires.3);
        let ghost sig = sigma_values(*domain, sigma_polys.0, sigma_polys.1, sigma_polys.2, sigma_polys.3);
        let ghost gen = domain.gen();
        let n = domain.size();

        // Constants defining the cosets H, k1 H, k2 H, k3 H.
        let ks0 = Scalar::one();
        let ks1 = k1();
        let ks2 = k2();
        let ks3 = k3();

        let s0 = domain.fft(sigma_polys.0.coeffs().as_slice());
        let s1 = domain.fft(sigma_polys.1.coeffs().as_slice());
        let s2 = domain.fft(sigma_polys.2.coeffs().as_slice());
        let s3 = domain.fft(sigma_polys.3.coeffs().as_slice());
        let roots = domain.elements();

        // One scalar per gate: its numerator over its denominator.
        let mut product_argument: Vec<Scalar> = Vec::new();
        let mut i: usize = 0;
        while i < n
            invariant
                n == domain.spec_size(),
                i <= n,
                domain.wf(),
                gen == domain.gen(),
                w == wire_values(wires.0, wires.1, wires.2, wires.3),
                sig == seq![sview(s0@), sview(s1@), sview(s2@), sview(s3@)],
                s0@.len() == n && s1@.len() == n && s2@.len() == n && s3@.len() == n,
                wires.0@.len() >= n && wires.1@.len() >= n && wires.2@.len() >= n && wires.3@.len() >= n,
                roots@.len() == n,
                forall|j: int| 0 <= j < n ==> #[trigger] roots@[j]@ == fpow(gen, j as nat),
                ks0@ == coset_constant(0) && ks1@ == coset_constant(1) && ks2@ == coset_constant(2)
                    && ks3@ == coset_constant(3),
                forall|j: int| 0 <= j < n ==> gate_denominator(w, sig, j, beta@, gamma@) != 0,
                product_argument@.len() == i,
                forall|j: int|
                    0 <= j < i ==> #[trigger] product_argument@[j]@ == gate_ratio(gen, w, sig, j, beta@, gamma@),
            decreases n - i,
        {
            let root = roots[i];
            let numerator = Scalar::one()
                .times(Permutation::numerator_irreducible(root, wires.0[i], ks0, beta, gamma))
                .times(Permutation::numerator_irreducible(root, wires.1[i], ks1, beta, gamma))
                .times(Permutation::numerator_irreducible(root, wires.2[i], ks2, beta, gamma))
                .times(Permutation::numerator_irreducible(root, wires.3[i], ks3, beta, gamma));
            let denominator = Scalar::one()
                .times(Permutation::denominator_irreducible(root, wires.0[i], s0[i], beta, gamma))
                .times(Permutation::denominator_irreducible(root, wires.1[i], s1[i], beta, gamma))
                .times(Permutation::denominator_irreducible(root, wires.2[i], s2[i], beta, gamma))
                .times(Permutation::denominator_irreducible(root, wires.3[i], s3[i], beta, gamma));
            proof {
                assert(numerator@ == gate_numerator(gen, w, i as int, beta@, gamma@));
                assert(denominator@ == gate_denominator(w, sig, i as int, beta@, gamma@));
            }
            let inverse = denominator.inverse().unwrap();
            product_argument.push(numerator.times(inverse));
            i = i + 1;
        }

        // Accumulate by successive multiplication, starting from one.
        let mut z: Vec<Scalar> = Vec::with_capacity(n);
        let mut state = Scalar::one();
        z.push(state);
        let mut k: usize = 0;
        while k < n
            invariant
                n == domain.spec_size(),
                k <= n,
                product_argument@.len() == n,
                forall|j: int|
                    0 <= j < n ==> #[trigger] product_argument@[j]@ == gate_ratio(gen, w, sig, j, beta@, gamma@),
                z@.len() == k + 1,
                state@ == grand_product(gen, w, sig, k as nat, beta@, gamma@),
                forall|j: int|
                    0 <= j <= k ==> #[trigger] z@[j]@ == grand_product(gen, w, sig, j as nat, beta@, gamma@),
            decreases n - k,
        {
            state = state.times(product_argument[k]);
            z.push(state);
            k = k + 1;
        }

        // Drop the last (n+1-th) entry.
        z.remove(n);
        proof {
            assert(sview(z@) =~= grand_products(gen, w, sig, n as nat, beta@, gamma@));
        }
        DensePolynomial::from_coefficients_vec(domain.ifft(z.as_slice()))
    }
}

} // verus!
