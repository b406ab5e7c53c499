//! Why the permutation argument works: when the wire values respect the copy
//! constraints, the running numerator and denominator of the grand product
//! agree over the whole domain, so the grand product closes at one.
use crate::dft::lemma_fft_inverts_interpolation;
use crate::domain::{fft_spec, ifft_spec, trim_zeros, DensePolynomial, EvaluationDomain};
use crate::field::{fadd, fmul, fpow, lemma_fmul_assoc, lemma_fmul_comm, lemma_fmul_mod, lemma_fmul_rotate, modulus};
use crate::grand_product::{
    denominator_coefficient, denominators_invertible, fprod, invertible, lemma_denominators_from_coefficient,
    lemma_fprod4, lemma_fprod_concat,
    lemma_paired_components, lemma_paired_prefix, numerator_coefficient,
};
use crate::permutation::{
    at_slot, coset_constant, denominator_factor, gate_denominator, gate_numerator, grand_product, identity_sigmas,
    lemma_sigma_lengths, lemma_sigma_shift_by_one, lemma_slot_determines_wire, next_in_cycle, numerator_factor,
    product4, sigma_encodings, sigma_permutations, sigma_values, slot_entry, wire_column, wire_encoding,
    wire_encodings, wire_gate, wires_below, wires_distinct, WireData,
};
use vstd::prelude::*;

verus! {

/// Exchanging the last entry with any other leaves the product unchanged.
proof fn lemma_fprod_swap_last(s: Seq<nat>, j: int)
    requires
        0 <= j < s.len(),
    ensures
        fprod(s.update(j, s.last()).update(s.len() - 1, s[j])) == fprod(s),
{
    let l = s.len() - 1;
    if j == l {
        assert(s.update(j, s.last()).update(l, s[j]) =~= s);
    } else {
        let a = s.take(j);
        let x = s[j];
        let b = s.subrange(j + 1, l);
        let y = s[l];
        let s1 = a.push(x);
        let t1 = a.push(y);
        assert(s =~= (s1 + b).push(y));
        assert(s.update(j, s.last()).update(l, s[j]) =~= (t1 + b).push(x));
        assert(s1.drop_last() =~= a);
        assert(t1.drop_last() =~= a);
        assert((s1 + b).push(y).drop_last() =~= s1 + b);
        assert((t1 + b).push(x).drop_last() =~= t1 + b);
        crate::grand_product::lemma_fprod_concat(s1, b);
        crate::grand_product::lemma_fprod_concat(t1, b);
        let fa = fprod(a);
        let fb = fprod(b);
        lemma_fmul_rotate(fmul(fa, x), fb, y);
        lemma_fmul_rotate(fa, x, y);
        lemma_fmul_rotate(fmul(fa, y), x, fb);
    }
}

/// Reordering the factors of a product by a permutation `p` of `0 .. m`
/// (with inverse `q`) leaves the product unchanged.
proof fn lemma_fprod_reindex(f: spec_fn(int) -> nat, p: spec_fn(int) -> int, q: spec_fn(int) -> int, m: nat)
    requires
        forall|k: int| 0 <= k < m ==> 0 <= #[trigger] p(k) < m,
        forall|t: int| 0 <= t < m ==> 0 <= #[trigger] q(t) < m && p(q(t)) == t,
        forall|k1: int, k2: int| 0 <= k1 < m && 0 <= k2 < m && #[trigger] p(k1) == #[trigger] p(k2) ==> k1 == k2,
    ensures
        fprod(Seq::new(m, |k: int| f(p(k)))) == fprod(Seq::new(m, |k: int| f(k))),
    decreases m,
{
    if m > 0 {
        let l = m - 1;
        let j = q(l);
        assert(0 <= j < m && p(j) == l);
        let p2 = |k: int| if k == j { p(l) } else { p(k) };
        let q2 = |t: int| if q(t) == l { j } else { q(t) };
        assert forall|k: int| 0 <= k < l implies 0 <= #[trigger] p2(k) < l by {
            if k == j {
                assert(p(l) != p(j));
            } else {
                assert(p(k) != p(j));
            }
        }
        assert forall|t: int| 0 <= t < l implies 0 <= #[trigger] q2(t) < l && p2(q2(t)) == t by {
            assert(p(q(t)) == t);
            if q(t) == l {
                assert(j != l);
            } else if q(t) == j {
                assert(false);
            }
        }
        assert forall|k1: int, k2: int| 0 <= k1 < l && 0 <= k2 < l && #[trigger] p2(k1) == #[trigger] p2(k2) implies k1
            == k2 by {
            if k1 == j && k2 != j {
                assert(p(l) == p(k2));
            } else if k2 == j && k1 != j {
                assert(p(l) == p(k1));
            } else if k1 != j && k2 != j {
                assert(p(k1) == p(k2));
            }
        }
        lemma_fprod_reindex(f, p2, q2, l as nat);
        let s = Seq::new(m, |k: int| f(p(k)));
        let s2 = Seq::new(l as nat, |k: int| f(p2(k)));
        lemma_fprod_swap_last(s, j);
        assert(s.update(j, s.last()).update(l, s[j]) =~= s2.push(f(l)));
        assert(s2.push(f(l)).drop_last() =~= s2);
        let id = Seq::new(m, |k: int| f(k));
        assert(id.drop_last() =~= Seq::new(l as nat, |k: int| f(k)));
    }
}

/// The wire in column `c` of gate `i`.
pub open spec fn slot_wire(c: int, i: int) -> WireData {
    if c == 0 {
        WireData::Left(i as usize)
    } else if c == 1 {
        WireData::Right(i as usize)
    } else if c == 2 {
        WireData::Output(i as usize)
    } else {
        WireData::Fourth(i as usize)
    }
}

/// The position of a wire slot when the slots are listed gate by gate, four
/// to a gate.
pub open spec fn slot_index(x: WireData) -> int {
    4 * wire_gate(x) + wire_column(x)
}

/// The wire slot at position `k` of that listing.
pub open spec fn slot_at(k: int) -> WireData {
    slot_wire(k % 4, k / 4)
}

/// The value that the wire values `w` (one sequence per column) give slot
/// `x`.
pub open spec fn wire_value(w: Seq<Seq<nat>>, x: WireData) -> nat {
    w[wire_column(x)][wire_gate(x) as int]
}

/// The copy constraints hold: all the wires of one variable carry the same
/// value.
pub open spec fn copy_constraints_hold(vars: Seq<Seq<WireData>>, w: Seq<Seq<nat>>) -> bool {
    forall|v: int, p1: int, p2: int|
        0 <= v < vars.len() && 0 <= p1 < vars[v].len() && 0 <= p2 < vars[v].len() ==> wire_value(
            w,
            #[trigger] vars[v][p1],
        ) == wire_value(w, #[trigger] vars[v][p2])
}

/// Some variable sits on wire slot `x`.
pub open spec fn is_listed(vars: Seq<Seq<WireData>>, x: WireData) -> bool {
    exists|v: int, pos: int| 0 <= v < vars.len() && 0 <= pos < vars[v].len() && #[trigger] vars[v][pos] == x
}

/// Where wire slot `x` is listed: a variable and a position in its list.
pub open spec fn list_position(vars: Seq<Seq<WireData>>, x: WireData) -> (int, int) {
    choose|v: int, pos: int| 0 <= v < vars.len() && 0 <= pos < vars[v].len() && #[trigger] vars[v][pos] == x
}

/// The slot that the sigma permutations send to `x`: the previous wire of
/// the variable on `x`, or `x` itself when no variable sits there.
pub open spec fn sigma_preimage(vars: Seq<Seq<WireData>>, x: WireData) -> WireData {
    if is_listed(vars, x) {
        let (v, pos) = list_position(vars, x);
        vars[v][if pos == 0 { vars[v].len() - 1 } else { pos - 1 }]
    } else {
        x
    }
}

/// Listing positions and slots correspond one to one.
proof fn lemma_slot_at(k: int, n: nat)
    requires
        0 <= k < 4 * n,
        n <= usize::MAX,
    ensures
        wire_gate(slot_at(k)) == k / 4,
        wire_gate(slot_at(k)) < n,
        wire_column(slot_at(k)) == k % 4,
        slot_index(slot_at(k)) == k,
{
    assert(k == 4 * (k / 4) + k % 4);
    assert(k / 4 < n);
}

/// A slot is found at its own position.
proof fn lemma_slot_index(x: WireData, n: nat)
    requires
        wire_gate(x) < n,
    ensures
        0 <= slot_index(x) < 4 * n,
        slot_at(slot_index(x)) == x,
{
    let g = wire_gate(x) as int;
    let c = wire_column(x);
    assert((4 * g + c) % 4 == c && (4 * g + c) / 4 == g);
    lemma_slot_determines_wire(slot_at(slot_index(x)), x);
}

/// What the sigma permutations hold at slot `x`.
proof fn lemma_sigma_entry(vars: Seq<Seq<WireData>>, n: nat, x: WireData)
    requires
        wires_below(vars, n),
        wires_distinct(vars),
        wire_gate(x) < n,
    ensures
        is_listed(vars, x) ==> {
            let (v, pos) = list_position(vars, x);
            &&& 0 <= v < vars.len() && 0 <= pos < vars[v].len() && vars[v][pos] == x
            &&& slot_entry(sigma_permutations(vars, n), x) == next_in_cycle(vars[v], pos)
        },
        !is_listed(vars, x) ==> slot_entry(sigma_permutations(vars, n), x) == x,
{
    lemma_sigma_shift_by_one(vars, n);
    let c = wire_column(x);
    let i = wire_gate(x) as int;
    if is_listed(vars, x) {
        let (v, pos) = list_position(vars, x);
        assert(slot_entry(sigma_permutations(vars, n), vars[v][pos]) == next_in_cycle(vars[v], pos));
    } else {
        assert forall|v: int, pos: int| 0 <= v < vars.len() && 0 <= pos < vars[v].len() implies !#[trigger] at_slot(
            vars[v][pos],
            c,
            i,
        ) by {
            if at_slot(vars[v][pos], c, i) {
                lemma_slot_determines_wire(vars[v][pos], x);
            }
        }
        assert(sigma_permutations(vars, n)[c][i] == identity_sigmas(n)[c][i]);
        lemma_slot_determines_wire(identity_sigmas(n)[c][i], x);
    }
}

/// The sigma permutations keep each slot's value, stay within the gates,
/// and are one to one with the inverse `sigma_preimage`.
proof fn lemma_sigma_bijective(vars: Seq<Seq<WireData>>, w: Seq<Seq<nat>>, n: nat, x: WireData, y: WireData)
    requires
        wires_below(vars, n),
        wires_distinct(vars),
        copy_constraints_hold(vars, w),
        wire_gate(x) < n,
        wire_gate(y) < n,
    ensures
        wire_gate(slot_entry(sigma_permutations(vars, n), x)) < n,
        wire_value(w, slot_entry(sigma_permutations(vars, n), x)) == wire_value(w, x),
        wire_gate(sigma_preimage(vars, x)) < n,
        slot_entry(sigma_permutations(vars, n), sigma_preimage(vars, x)) == x,
        slot_entry(sigma_permutations(vars, n), x) == slot_entry(sigma_permutations(vars, n), y) ==> x == y,
{
    let sg = sigma_permutations(vars, n);
    lemma_sigma_entry(vars, n, x);
    lemma_sigma_entry(vars, n, y);
    if is_listed(vars, x) {
        let (v, pos) = list_position(vars, x);
        let len = vars[v].len();
        let nx = if pos == len - 1 { 0 } else { pos + 1 };
        assert(wire_gate(vars[v][nx]) < n);
        let pv = if pos == 0 { len - 1 } else { pos - 1 };
        let pre = vars[v][pv];
        assert(sigma_preimage(vars, x) == pre);
        assert(wire_gate(pre) < n);
        assert(is_listed(vars, pre));
        lemma_sigma_entry(vars, n, pre);
        let (v2, p2) = list_position(vars, pre);
        assert(v2 == v && p2 == pv);
        if slot_entry(sg, x) == slot_entry(sg, y) {
            if is_listed(vars, y) {
                let (vy, py) = list_position(vars, y);
                let ny = if py == vars[vy].len() - 1 { 0 } else { py + 1 };
                assert(vars[vy][ny] == vars[v][nx]);
                assert(vy == v && ny == nx);
            } else {
                assert(vars[v][nx] == y);
                assert(is_listed(vars, y));
            }
        }
    } else {
        assert(sigma_preimage(vars, x) == x);
        if slot_entry(sg, x) == slot_entry(sg, y) && is_listed(vars, y) {
            let (vy, py) = list_position(vars, y);
            let ny = if py == vars[vy].len() - 1 { 0 } else { py + 1 };
            assert(vars[vy][ny] == x);
            assert(is_listed(vars, x));
        }
    }
}

/// The value of slot `x` plus `beta` times its encoding plus `gamma`: the
/// factor that slot contributes to the grand product's numerator.
pub open spec fn slot_factor(gen: nat, w: Seq<Seq<nat>>, x: WireData, beta: nat, gamma: nat) -> nat {
    fadd(fadd(wire_value(w, x), fmul(beta, wire_encoding(x, gen))), gamma)
}

/// The product of the first `4 t` entries, gate by gate.
proof fn lemma_fprod_gate_step(g: spec_fn(int) -> nat, t: nat)
    requires
        t > 0,
    ensures
        fprod(Seq::new(4 * t, g)) == fmul(
            fprod(Seq::new(4 * (t - 1) as nat, g)),
            product4(g(4 * (t - 1)), g(4 * (t - 1) + 1), g(4 * (t - 1) + 2), g(4 * (t - 1) + 3)),
        ),
{
    let b = 4 * (t - 1);
    let head = Seq::new(b as nat, g);
    let tail = seq![g(b), g(b + 1), g(b + 2), g(b + 3)];
    assert(Seq::new(4 * t, g) =~= head + tail);
    lemma_fprod_concat(head, tail);
    lemma_fprod4(tail);
}

/// A numerator factor of gate `j` is the factor of its slot.
proof fn lemma_numerator_slot(gen: nat, w: Seq<Seq<nat>>, c: int, j: int, beta: nat, gamma: nat, n: nat)
    requires
        0 <= c < 4,
        0 <= j < n,
        n <= usize::MAX,
    ensures
        numerator_factor(fpow(gen, j as nat), w[c][j], coset_constant(c), beta, gamma) == slot_factor(
            gen,
            w,
            slot_at(4 * j + c),
            beta,
            gamma,
        ),
{
    lemma_slot_at(4 * j + c, n);
    assert((4 * j + c) % 4 == c && (4 * j + c) / 4 == j);
    let root = fpow(gen, j as nat);
    if c == 0 {
        assert(fmul(beta, 1) == beta % modulus());
        lemma_fmul_mod(beta, root);
    } else {
        lemma_fmul_assoc(beta, coset_constant(c), root);
    }
}

/// Up to gate `t`, the running numerator is the product of the slot factors.
proof fn lemma_numerator_slots(gen: nat, w: Seq<Seq<nat>>, t: nat, n: nat, beta: nat, gamma: nat)
    requires
        t <= n,
        n <= usize::MAX,
    ensures
        numerator_coefficient(gen, w, t, beta, gamma) == fprod(
            Seq::new(4 * t, |k: int| slot_factor(gen, w, slot_at(k), beta, gamma)),
        ),
    decreases t,
{
    if t > 0 {
        let j = t - 1;
        lemma_numerator_slots(gen, w, (t - 1) as nat, n, beta, gamma);
        let g = |k: int| slot_factor(gen, w, slot_at(k), beta, gamma);
        lemma_fprod_gate_step(g, t);
        lemma_paired_components(gen, w, w, j, beta, gamma);
        lemma_numerator_slot(gen, w, 0, j, beta, gamma, n);
        lemma_numerator_slot(gen, w, 1, j, beta, gamma, n);
        lemma_numerator_slot(gen, w, 2, j, beta, gamma, n);
        lemma_numerator_slot(gen, w, 3, j, beta, gamma, n);
        assert(gate_numerator(gen, w, j, beta, gamma) == product4(g(4 * j), g(4 * j + 1), g(4 * j + 2), g(4 * j + 3)));
        lemma_fmul_comm(gate_numerator(gen, w, j, beta, gamma), numerator_coefficient(gen, w, (t - 1) as nat, beta, gamma));
    }
}

/// A denominator factor of gate `j` is the factor of the slot that sigma
/// sends its slot to.
proof fn lemma_denominator_slot(
    gen: nat,
    vars: Seq<Seq<WireData>>,
    w: Seq<Seq<nat>>,
    c: int,
    j: int,
    beta: nat,
    gamma: nat,
    n: nat,
)
    requires
        0 <= c < 4,
        0 <= j < n,
        n <= usize::MAX,
        wires_below(vars, n),
        wires_distinct(vars),
        copy_constraints_hold(vars, w),
    ensures
        denominator_factor(w[c][j], sigma_encodings(sigma_permutations(vars, n), gen)[c][j], beta, gamma)
            == slot_factor(gen, w, slot_entry(sigma_permutations(vars, n), slot_at(4 * j + c)), beta, gamma),
{
    let sg = sigma_permutations(vars, n);
    lemma_slot_at(4 * j + c, n);
    assert((4 * j + c) % 4 == c && (4 * j + c) / 4 == j);
    let x = slot_at(4 * j + c);
    lemma_sigma_bijective(vars, w, n, x, x);
    lemma_sigma_lengths(vars, n);
    assert(sg[c].len() == n);
    assert(slot_entry(sg, x) == sg[c][j]);
    assert(sigma_encodings(sg, gen)[c][j] == wire_encoding(sg[c][j], gen));
}

/// Up to gate `t`, the running denominator is the product of the factors of
/// the slots that sigma sends each slot to.
proof fn lemma_denominator_slots(
    gen: nat,
    vars: Seq<Seq<WireData>>,
    w: Seq<Seq<nat>>,
    t: nat,
    n: nat,
    beta: nat,
    gamma: nat,
)
    requires
        t <= n,
        n <= usize::MAX,
        wires_below(vars, n),
        wires_distinct(vars),
        copy_constraints_hold(vars, w),
    ensures
        denominator_coefficient(w, sigma_encodings(sigma_permutations(vars, n), gen), t, beta, gamma) == fprod(
            Seq::new(
                4 * t,
                |k: int| slot_factor(gen, w, slot_entry(sigma_permutations(vars, n), slot_at(k)), beta, gamma),
            ),
        ),
    decreases t,
{
    if t > 0 {
        let j = t - 1;
        let sig = sigma_encodings(sigma_permutations(vars, n), gen);
        lemma_denominator_slots(gen, vars, w, (t - 1) as nat, n, beta, gamma);
        let g = |k: int| slot_factor(gen, w, slot_entry(sigma_permutations(vars, n), slot_at(k)), beta, gamma);
        lemma_fprod_gate_step(g, t);
        lemma_paired_components(gen, w, sig, j, beta, gamma);
        lemma_denominator_slot(gen, vars, w, 0, j, beta, gamma, n);
        lemma_denominator_slot(gen, vars, w, 1, j, beta, gamma, n);
        lemma_denominator_slot(gen, vars, w, 2, j, beta, gamma, n);
        lemma_denominator_slot(gen, vars, w, 3, j, beta, gamma, n);
        assert(gate_denominator(w, sig, j, beta, gamma) == product4(g(4 * j), g(4 * j + 1), g(4 * j + 2), g(4 * j + 3)));
        lemma_fmul_comm(gate_denominator(w, sig, j, beta, gamma), denominator_coefficient(w, sig, (t - 1) as nat, beta, gamma));
    }
}

/// Where sigma sends the slot at position `k`, as a position.
spec fn sigma_index(vars: Seq<Seq<WireData>>, n: nat, k: int) -> int {
    slot_index(slot_entry(sigma_permutations(vars, n), slot_at(k)))
}

/// The position of the slot that sigma sends to the slot at position `t`.
spec fn preimage_index(vars: Seq<Seq<WireData>>, t: int) -> int {
    slot_index(sigma_preimage(vars, slot_at(t)))
}

/// On positions, sigma is a permutation of `0 .. 4 n`.
proof fn lemma_sigma_index_permutes(vars: Seq<Seq<WireData>>, w: Seq<Seq<nat>>, n: nat)
    requires
        n <= usize::MAX,
        wires_below(vars, n),
        wires_distinct(vars),
        copy_constraints_hold(vars, w),
    ensures
        forall|k: int| 0 <= k < 4 * n ==> 0 <= #[trigger] sigma_index(vars, n, k) < 4 * n,
        forall|t: int|
            0 <= t < 4 * n ==> 0 <= #[trigger] preimage_index(vars, t) < 4 * n && sigma_index(
                vars,
                n,
                preimage_index(vars, t),
            ) == t,
        forall|k1: int, k2: int|
            0 <= k1 < 4 * n && 0 <= k2 < 4 * n && #[trigger] sigma_index(vars, n, k1) == #[trigger] sigma_index(
                vars,
                n,
                k2,
            ) ==> k1 == k2,
{
    let sg = sigma_permutations(vars, n);
    let m = 4 * n;
    assert forall|k: int| 0 <= k < m implies 0 <= #[trigger] sigma_index(vars, n, k) < m by {
        lemma_slot_at(k, n);
        lemma_sigma_bijective(vars, w, n, slot_at(k), slot_at(k));
        lemma_slot_index(slot_entry(sg, slot_at(k)), n);
    }
    assert forall|t: int| 0 <= t < m implies 0 <= #[trigger] preimage_index(vars, t) < m && sigma_index(
        vars,
        n,
        preimage_index(vars, t),
    ) == t by {
        lemma_slot_at(t, n);
        let x = slot_at(t);
        lemma_sigma_bijective(vars, w, n, x, x);
        lemma_slot_index(sigma_preimage(vars, x), n);
    }
    assert forall|k1: int, k2: int|
        0 <= k1 < m && 0 <= k2 < m && #[trigger] sigma_index(vars, n, k1) == #[trigger] sigma_index(vars, n, k2)
        implies k1 == k2 by {
        lemma_slot_at(k1, n);
        lemma_slot_at(k2, n);
        let x1 = slot_at(k1);
        let x2 = slot_at(k2);
        lemma_sigma_bijective(vars, w, n, x1, x2);
        lemma_sigma_bijective(vars, w, n, x2, x1);
        lemma_slot_index(slot_entry(sg, x1), n);
        lemma_slot_index(slot_entry(sg, x2), n);
    }
}

/// The product of the slot factors is the product of the factors of the
/// slots that sigma sends each slot to.
proof fn lemma_slot_products_agree(gen: nat, vars: Seq<Seq<WireData>>, w: Seq<Seq<nat>>, n: nat, beta: nat, gamma: nat)
    requires
        n <= usize::MAX,
        wires_below(vars, n),
        wires_distinct(vars),
        copy_constraints_hold(vars, w),
    ensures
        fprod(Seq::new(4 * n, |k: int| slot_factor(gen, w, slot_at(k), beta, gamma))) == fprod(
            Seq::new(4 * n, |k: int| slot_factor(gen, w, slot_entry(sigma_permutations(vars, n), slot_at(k)), beta, gamma)),
        ),
{
    let m = 4 * n;
    let sg = sigma_permutations(vars, n);
    let f = |k: int| slot_factor(gen, w, slot_at(k), beta, gamma);
    let p = |k: int| sigma_index(vars, n, k);
    let q = |t: int| preimage_index(vars, t);
    lemma_sigma_index_permutes(vars, w, n);
    assert forall|k: int| 0 <= k < m implies 0 <= #[trigger] p(k) < m by {
        assert(0 <= sigma_index(vars, n, k) < m);
    }
    assert forall|t: int| 0 <= t < m implies 0 <= #[trigger] q(t) < m && p(q(t)) == t by {
        assert(0 <= preimage_index(vars, t) < m);
    }
    assert forall|k1: int, k2: int| 0 <= k1 < m && 0 <= k2 < m && #[trigger] p(k1) == #[trigger] p(k2) implies k1 == k2 by {
        assert(sigma_index(vars, n, k1) == sigma_index(vars, n, k2));
    }
    lemma_fprod_reindex(f, p, q, m);
    assert forall|k: int| 0 <= k < m implies #[trigger] f(p(k)) == slot_factor(gen, w, slot_entry(sg, slot_at(k)), beta, gamma) by {
        lemma_slot_at(k, n);
        lemma_sigma_bijective(vars, w, n, slot_at(k), slot_at(k));
        lemma_slot_index(slot_entry(sg, slot_at(k)), n);
    }
    assert(Seq::new(m, |k: int| f(p(k))) =~= Seq::new(m, |k: int| slot_factor(gen, w, slot_entry(sg, slot_at(k)), beta, gamma)));
    assert(Seq::new(m, |k: int| f(k)) =~= Seq::new(m, |k: int| slot_factor(gen, w, slot_at(k), beta, gamma)));
}

/// The permutation argument closes: when no wire slot is recorded twice and
/// the wire values respect the copy constraints, the running numerator over
/// all `n` gates equals the running denominator built from the sigma
/// permutations, and, where the denominator factors are invertible (as they
/// all are once the whole running denominator is), the grand product returns
/// to one after the last gate.
pub proof fn lemma_grand_product_closes(
    gen: nat,
    vars: Seq<Seq<WireData>>,
    w: Seq<Seq<nat>>,
    n: usize,
    beta: nat,
    gamma: nat,
)
    requires
        wires_below(vars, n as nat),
        wires_distinct(vars),
        copy_constraints_hold(vars, w),
    ensures
        numerator_coefficient(gen, w, n as nat, beta, gamma) == denominator_coefficient(
            w,
            sigma_encodings(sigma_permutations(vars, n as nat), gen),
            n as nat,
            beta,
            gamma,
        ),
        denominators_invertible(w, sigma_encodings(sigma_permutations(vars, n as nat), gen), n as nat, beta, gamma)
            ==> grand_product(gen, w, sigma_encodings(sigma_permutations(vars, n as nat), gen), n as nat, beta, gamma)
            == 1,
        invertible(denominator_coefficient(w, sigma_encodings(sigma_permutations(vars, n as nat), gen), n as nat, beta, gamma))
            ==> grand_product(gen, w, sigma_encodings(sigma_permutations(vars, n as nat), gen), n as nat, beta, gamma)
            == 1,
{
    let nn = n as nat;
    let sg = sigma_permutations(vars, nn);
    let sig = sigma_encodings(sg, gen);
    lemma_slot_products_agree(gen, vars, w, nn, beta, gamma);
    lemma_numerator_slots(gen, w, nn, nn, beta, gamma);
    lemma_denominator_slots(gen, vars, w, nn, nn, beta, gamma);
    if invertible(denominator_coefficient(w, sig, nn, beta, gamma)) {
        lemma_denominators_from_coefficient(w, sig, nn, beta, gamma);
    }
    if denominators_invertible(w, sig, nn, beta, gamma) {
        lemma_paired_prefix(gen, w, sig, nn, beta, gamma);
        assert(invertible(denominator_coefficient(w, sig, nn, beta, gamma)));
    }
}

/// The permutation argument closes on the sigma polynomials that
/// `Permutation::compute_sigma_polynomials` builds over a domain of the
/// circuit's size: their values over the domain are the encodings of the
/// sigma permutations, so when no wire slot is recorded twice and the wire
/// values respect the copy constraints, the running numerator equals the
/// running denominator after the last gate and, where the denominator
/// factors are invertible (as they all are once the whole running
/// denominator is), the grand product returns to one.
pub proof fn lemma_sigma_polynomials_close(
    d: EvaluationDomain,
    vars: Seq<Seq<WireData>>,
    w: Seq<Seq<nat>>,
    p0: DensePolynomial,
    p1: DensePolynomial,
    p2: DensePolynomial,
    p3: DensePolynomial,
    beta: nat,
    gamma: nat,
)
    requires
        d.wf(),
        wires_below(vars, d.spec_size()),
        wires_distinct(vars),
        copy_constraints_hold(vars, w),
        p0@ == trim_zeros(ifft_spec(d, wire_encodings(sigma_permutations(vars, d.spec_size())[0], d.gen()))),
        p1@ == trim_zeros(ifft_spec(d, wire_encodings(sigma_permutations(vars, d.spec_size())[1], d.gen()))),
        p2@ == trim_zeros(ifft_spec(d, wire_encodings(sigma_permutations(vars, d.spec_size())[2], d.gen()))),
        p3@ == trim_zeros(ifft_spec(d, wire_encodings(sigma_permutations(vars, d.spec_size())[3], d.gen()))),
    ensures
        numerator_coefficient(d.gen(), w, d.spec_size(), beta, gamma) == denominator_coefficient(
            w,
            sigma_values(d, &p0, &p1, &p2, &p3),
            d.spec_size(),
            beta,
            gamma,
        ),
        denominators_invertible(w, sigma_values(d, &p0, &p1, &p2, &p3), d.spec_size(), beta, gamma) ==> grand_product(
            d.gen(),
            w,
            sigma_values(d, &p0, &p1, &p2, &p3),
            d.spec_size(),
            beta,
            gamma,
        ) == 1,
        invertible(denominator_coefficient(w, sigma_values(d, &p0, &p1, &p2, &p3), d.spec_size(), beta, gamma))
            ==> grand_product(d.gen(), w, sigma_values(d, &p0, &p1, &p2, &p3), d.spec_size(), beta, gamma) == 1,
{
    let n = d.spec_size();
    let sg = sigma_permutations(vars, n);
    assert forall|c: int| 0 <= c < 4 implies #[trigger] fft_spec(d, trim_zeros(ifft_spec(d, wire_encodings(sg[c], d.gen()))))
        == wire_encodings(sg[c], d.gen()) by {
        lemma_sigma_lengths(vars, n);
        assert forall|k: int| 0 <= k < wire_encodings(sg[c], d.gen()).len() implies #[trigger] wire_encodings(
            sg[c],
            d.gen(),
        )[k] < modulus() by {
        }
        lemma_fft_inverts_interpolation(d, wire_encodings(sg[c], d.gen()));
    }
    assert(sigma_values(d, &p0, &p1, &p2, &p3) =~= sigma_encodings(sg, d.gen()));
    lemma_grand_product_closes(d.gen(), vars, w, n as usize, beta, gamma);
}

} // verus!
