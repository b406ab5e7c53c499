//! The variable-base curve addition gate: checks that the next gate's left
//! and right wires hold the twisted Edwards sum of the points on this gate.
use crate::field::{fadd, fmul, fsub, modulus, Scalar};
use vstd::arithmetic::div_mod::*;
use vstd::arithmetic::mul::*;
use ark_ec::TEModelParameters;
use ark_ed_on_bls12_381::EdwardsParameters;
use ark_ff::PrimeField;
use vstd::prelude::*;

verus! {

/// The coefficient `d` of the twisted Edwards curve over the scalar field of
/// BLS12-381 (Jubjub), `-(10240/10241)`.
pub open spec fn edwards_d() -> nat {
    19257038036680949359750312669786877991949435402254120286184196891950884077233nat
}

/// Calls `<EdwardsParameters as TEModelParameters>::COEFF_D`, which
/// `ark_ed_on_bls12_381` defines as the field element with the decimal value
/// of `edwards_d()`.
#[verifier::external_body]
fn ark_coeff_d() -> (r: Scalar)
    ensures
        r@ == edwards_d(),
{
    Scalar { limbs: <EdwardsParameters as TEModelParameters>::COEFF_D.into_repr().0 }
}

/// The wire values a gate constraint reads: the four wires of this gate, the
/// left, right and fourth wires of the next gate, and three selectors.
#[derive(Clone, Copy, Debug)]
pub struct GateValues {
    /// Left wire value.
    pub left: Scalar,
    /// Right wire value.
    pub right: Scalar,
    /// Output wire value.
    pub output: Scalar,
    /// Fourth wire value.
    pub fourth: Scalar,
    /// Next gate's left wire value.
    pub left_next: Scalar,
    /// Next gate's right wire value.
    pub right_next: Scalar,
    /// Next gate's fourth wire value.
    pub fourth_next: Scalar,
    /// Left selector value.
    pub left_selector: Scalar,
    /// Right selector value.
    pub right_selector: Scalar,
    /// Constant selector value.
    pub constant_selector: Scalar,
}

/// The value of the curve addition constraint: with
/// `(x1, y1) = (left, right)`, `(x2, y2) = (output, fourth)`,
/// `(x3, y3) = (left_next, right_next)` and `x1y2 = fourth_next`, the sum
/// `(x1 y2 - x1y2) + k (x1y2 + y1 x2 - x3 - x3 d x1y2 y1x2) + k^2 (y1 y2 + x1 x2 - y3 + y3 d x1y2 y1x2)`
/// times the separation challenge `s`, where `k = s^2`.
#[verifier::opaque]
pub open spec fn curve_addition_constraint(s: nat, v: GateValues) -> nat {
    let x_1 = v.left@;
    let x_3 = v.left_next@;
    let y_1 = v.right@;
    let y_3 = v.right_next@;
    let x_2 = v.output@;
    let y_2 = v.fourth@;
    let x1_y2 = v.fourth_next@;
    let kappa = fmul(s, s);
    let xy_consistency = fsub(fmul(x_1, y_2), x1_y2);
    let y1_x2 = fmul(y_1, x_2);
    let y1_y2 = fmul(y_1, y_2);
    let x1_x2 = fmul(x_1, x_2);
    let x3_lhs = fadd(x1_y2, y1_x2);
    let x3_rhs = fadd(x_3, fmul(fmul(fmul(x_3, edwards_d()), x1_y2), y1_x2));
    let x3_consistency = fmul(fsub(x3_lhs, x3_rhs), kappa);
    let y3_lhs = fadd(y1_y2, x1_x2);
    let y3_rhs = fsub(y_3, fmul(fmul(fmul(y_3, edwards_d()), x1_y2), y1_x2));
    let y3_consistency = fmul(fsub(y3_lhs, y3_rhs), fmul(kappa, kappa));
    fmul(fadd(fadd(xy_consistency, x3_consistency), y3_consistency), s)
}

/// The curve addition gate.
#[derive(Clone, Copy, Debug, Default, PartialEq, Eq, Hash, Structural)]
pub struct CurveAddition;

impl CurveAddition {
    /// The value of the constraint on these gate values, scaled by the
    /// separation challenge.
    pub fn constraints(separation_challenge: Scalar, values: GateValues) -> (r: Scalar)
        ensures
            r@ == curve_addition_constraint(separation_challenge@, values),
    {
        reveal(curve_addition_constraint);
        let x_1 = values.left;
        let x_3 = values.left_next;
        let y_1 = values.right;
        let y_3 = values.right_next;
        let x_2 = values.output;
        let y_2 = values.fourth;
        let x1_y2 = values.fourth_next;
        let coeff_d = ark_coeff_d();

        let kappa = separation_challenge.square();

        // Check that `x1 * y2` is correct
        let xy_consistency = x_1.times(y_2).minus(x1_y2);

        let y1_x2 = y_1.times(x_2);
        let y1_y2 = y_1.times(y_2);
        let x1_x2 = x_1.times(x_2);

        // Check that `x_3` is correct
        let x3_lhs = x1_y2.plus(y1_x2);
        let x3_rhs = x_3.plus(x_3.times(coeff_d).times(x1_y2).times(y1_x2));
        let x3_consistency = x3_lhs.minus(x3_rhs).times(kappa);

        // Check that `y_3` is correct
        let y3_lhs = y1_y2.plus(x1_x2);
        let y3_rhs = y_3.minus(y_3.times(coeff_d).times(x1_y2).times(y1_x2));
        let y3_consistency = y3_lhs.minus(y3_rhs).times(kappa.square());

        xy_consistency.plus(x3_consistency).plus(y3_consistency).times(separation_challenge)
    }
}

/// When the next gate holds the twisted Edwards sum of the two points on
/// this gate (and the fourth wire of the next gate holds `x1 y2`), the curve
/// addition constraint is zero, whatever the separation challenge.
pub proof fn lemma_curve_addition_satisfied(s: nat, v: GateValues)
    requires
        v.fourth_next@ == fmul(v.left@, v.fourth@),
        fadd(v.fourth_next@, fmul(v.right@, v.output@)) == fadd(
            v.left_next@,
            fmul(fmul(fmul(v.left_next@, edwards_d()), v.fourth_next@), fmul(v.right@, v.output@)),
        ),
        fadd(fmul(v.right@, v.fourth@), fmul(v.left@, v.output@)) == fsub(
            v.right_next@,
            fmul(fmul(fmul(v.right_next@, edwards_d()), v.fourth_next@), fmul(v.right@, v.output@)),
        ),
    ensures
        curve_addition_constraint(s, v) == 0,
{
    reveal(curve_addition_constraint);
    let x_1 = v.left@;
    let x_3 = v.left_next@;
    let y_1 = v.right@;
    let y_3 = v.right_next@;
    let x_2 = v.output@;
    let y_2 = v.fourth@;
    let x1_y2 = v.fourth_next@;
    let kappa = fmul(s, s);
    let y1_x2 = fmul(y_1, x_2);
    let x3_lhs = fadd(x1_y2, y1_x2);
    let x3_rhs = fadd(x_3, fmul(fmul(fmul(x_3, edwards_d()), x1_y2), y1_x2));
    let y3_lhs = fadd(fmul(y_1, y_2), fmul(x_1, x_2));
    let y3_rhs = fsub(y_3, fmul(fmul(fmul(y_3, edwards_d()), x1_y2), y1_x2));
    assert(fsub(fmul(x_1, y_2), x1_y2) == 0);
    assert(fsub(x3_lhs, x3_rhs) == 0);
    assert(fsub(y3_lhs, y3_rhs) == 0);
    let k2 = fmul(kappa, kappa);
    assert(fmul(0, kappa) == 0);
    assert(fmul(0, k2) == 0);
    assert(fadd(fadd(0, 0), 0) == 0);
    assert(fmul(0, s) == 0);
}

/// `A + B m1 + C m2`, with the products and sums reduced as the constraint
/// reduces them.
proof fn lemma_reduced_combination(a: nat, b: nat, c: nat, m1: nat, m2: nat)
    requires
        a < modulus(),
    ensures
        fadd(fadd(a, fmul(b, m1)), fmul(c, m2)) as int == ((a + b * m1 + c * m2) as int) % (modulus() as int),
{
    let p = modulus() as int;
    let bm = (b * m1) as int;
    let cm = (c * m2) as int;
    lemma_add_mod_noop(a as int, bm, p);
    lemma_small_mod(a, p as nat);
    lemma_add_mod_noop(a + bm, cm, p);
}

/// A multiple of `p` that `k` times `c` equals, with `k` invertible modulo
/// `p` and `0 <= c < p`, forces `c` to be zero.
proof fn lemma_zero_from_multiple(c: int, k: int, ik: int, m: int)
    requires
        0 <= c < modulus(),
        k * c == modulus() * m,
        (k * ik) % (modulus() as int) == 1,
    ensures
        c == 0,
{
    let p = modulus() as int;
    lemma_mul_mod_noop_right(c, k * ik, p);
    assert(c * (k * ik) == p * (m * ik)) by (nonlinear_arith)
        requires
            k * c == p * m,
    ;
    lemma_mod_multiples_basic(m * ik, p);
    lemma_mul_is_commutative(p, m * ik);
    lemma_small_mod(c as nat, p as nat);
}

/// Three consistency terms that vanish in three independent combinations
/// vanish: from `a + b + c`, `a + 4 b + 16 c` and `a + 9 b + 81 c` all
/// multiples of `p`.
proof fn lemma_three_terms_vanish(a: nat, b: nat, c: nat)
    requires
        a < modulus(),
        b < modulus(),
        c < modulus(),
        ((a + b + c) as int) % (modulus() as int) == 0,
        ((a + 4 * b + 16 * c) as int) % (modulus() as int) == 0,
        ((a + 9 * b + 81 * c) as int) % (modulus() as int) == 0,
    ensures
        a == 0,
        b == 0,
        c == 0,
{
    let p = modulus() as int;
    let x = (a + b + c) as int;
    let y = (a + 4 * b + 16 * c) as int;
    let z = (a + 9 * b + 81 * c) as int;
    lemma_fundamental_div_mod(x, p);
    lemma_fundamental_div_mod(y, p);
    lemma_fundamental_div_mod(z, p);
    let qx = x / p;
    let qy = y / p;
    let qz = z / p;
    // 120 c = 5 x - 8 y + 3 z, a multiple of p; 120 is invertible.
    assert(120 * c == p * (5 * qx - 8 * qy + 3 * qz)) by (nonlinear_arith)
        requires
            x == p * qx,
            y == p * qy,
            z == p * qz,
            x == a + b + c,
            y == a + 4 * b + 16 * c,
            z == a + 9 * b + 81 * c,
    ;
    lemma_zero_from_multiple(
        c as int,
        120,
        10050209408565853175227483597402310118890689229267797249332367917488228060365int,
        5 * qx - 8 * qy + 3 * qz,
    );
    // Then 3 b = y - x, a multiple of p; 3 is invertible.
    assert(3 * b == p * (qy - qx)) by (nonlinear_arith)
        requires
            x == p * qx,
            y == p * qy,
            x == a + b + c,
            y == a + 4 * b + 16 * c,
            c == 0,
    ;
    lemma_zero_from_multiple(
        b as int,
        3,
        34957250116750793652965160338790643891793701667018425215069105799959054123009int,
        qy - qx,
    );
    // And a = x is a multiple of p below p.
    assert(x == p * qx);
}

/// The constraint at a challenge `s` with `s^2 = k` and `k^2 = k2` is `s`
/// times `a + k b + k2 c`, reduced.
proof fn lemma_constraint_at(v: GateValues, s: nat, k: nat, k2: nat)
    requires
        s < modulus(),
        fmul(s, s) == k,
        fmul(k, k) == k2,
    ensures
        curve_addition_constraint(s, v) == fmul(
            (((xy_term(v) + k * x3_term(v) + k2 * y3_term(v)) as int) % (modulus() as int)) as nat,
            s,
        ),
{
    reveal(curve_addition_constraint);
    lemma_reduced_combination(xy_term(v), x3_term(v), y3_term(v), k, k2);
    crate::field::lemma_fmul_comm(x3_term(v), k);
    crate::field::lemma_fmul_comm(y3_term(v), k2);
}

/// The first consistency term: `x1 y2 - x1y2`.
spec fn xy_term(v: GateValues) -> nat {
    fsub(fmul(v.left@, v.fourth@), v.fourth_next@)
}

/// The second: the two sides of the `x3` equation.
spec fn x3_term(v: GateValues) -> nat {
    let y1_x2 = fmul(v.right@, v.output@);
    fsub(
        fadd(v.fourth_next@, y1_x2),
        fadd(v.left_next@, fmul(fmul(fmul(v.left_next@, edwards_d()), v.fourth_next@), y1_x2)),
    )
}

/// The third: the two sides of the `y3` equation.
spec fn y3_term(v: GateValues) -> nat {
    let y1_x2 = fmul(v.right@, v.output@);
    fsub(
        fadd(fmul(v.right@, v.fourth@), fmul(v.left@, v.output@)),
        fsub(v.right_next@, fmul(fmul(fmul(v.right_next@, edwards_d()), v.fourth_next@), y1_x2)),
    )
}

/// A reduced value that the challenge 1, 2 or 3 scales to zero is zero.
proof fn lemma_zero_scaled(x: nat)
    requires
        x < modulus(),
        fmul(x, 1) == 0 || fmul(x, 2) == 0 || fmul(x, 3) == 0,
    ensures
        x == 0,
{
}

/// Two reduced values whose difference is zero are equal.
proof fn lemma_fsub_zero(l: nat, r: nat)
    requires
        l < modulus(),
        r < modulus(),
        fsub(l, r) == 0,
    ensures
        l == r,
{
}

/// Vanishing consistency terms are the addition equations.
proof fn lemma_terms_equations(v: GateValues)
    requires
        xy_term(v) == 0,
        x3_term(v) == 0,
        y3_term(v) == 0,
        v.fourth_next.canonical(),
    ensures
        v.fourth_next@ == fmul(v.left@, v.fourth@),
        fadd(v.fourth_next@, fmul(v.right@, v.output@)) == fadd(
            v.left_next@,
            fmul(fmul(fmul(v.left_next@, edwards_d()), v.fourth_next@), fmul(v.right@, v.output@)),
        ),
        fadd(fmul(v.right@, v.fourth@), fmul(v.left@, v.output@)) == fsub(
            v.right_next@,
            fmul(fmul(fmul(v.right_next@, edwards_d()), v.fourth_next@), fmul(v.right@, v.output@)),
        ),
{
    let y1_x2 = fmul(v.right@, v.output@);
    v.fourth_next.lemma_canonical();
    lemma_fsub_zero(fmul(v.left@, v.fourth@), v.fourth_next@);
    lemma_fsub_zero(
        fadd(v.fourth_next@, y1_x2),
        fadd(v.left_next@, fmul(fmul(fmul(v.left_next@, edwards_d()), v.fourth_next@), y1_x2)),
    );
    lemma_fsub_zero(
        fadd(fmul(v.right@, v.fourth@), fmul(v.left@, v.output@)),
        fsub(v.right_next@, fmul(fmul(fmul(v.right_next@, edwards_d()), v.fourth_next@), y1_x2)),
    );
}

/// Soundness of the curve addition gate: if the constraint vanishes for the
/// separation challenges 1, 2 and 3 (so in particular if it vanishes for
/// every challenge), the next gate's fourth wire holds `x1 y2` and the next
/// gate's `(x3, y3)` satisfies both twisted Edwards addition equations
/// `x3 (1 + d x1 y2 y1 x2) = x1 y2 + y1 x2` and
/// `y3 (1 - d x1 y2 y1 x2) = y1 y2 + x1 x2`. The converse is
/// `lemma_curve_addition_satisfied`.
pub proof fn lemma_curve_addition_sound(v: GateValues)
    requires
        curve_addition_constraint(1, v) == 0,
        curve_addition_constraint(2, v) == 0,
        curve_addition_constraint(3, v) == 0,
        v.fourth_next.canonical(),
    ensures
        v.fourth_next@ == fmul(v.left@, v.fourth@),
        fadd(v.fourth_next@, fmul(v.right@, v.output@)) == fadd(
            v.left_next@,
            fmul(fmul(fmul(v.left_next@, edwards_d()), v.fourth_next@), fmul(v.right@, v.output@)),
        ),
        fadd(fmul(v.right@, v.fourth@), fmul(v.left@, v.output@)) == fsub(
            v.right_next@,
            fmul(fmul(fmul(v.right_next@, edwards_d()), v.fourth_next@), fmul(v.right@, v.output@)),
        ),
{
    let p = modulus() as int;
    let a = xy_term(v);
    let b = x3_term(v);
    let c = y3_term(v);
    assert(fmul(1, 1) == 1 && fmul(2, 2) == 4 && fmul(4, 4) == 16 && fmul(3, 3) == 9 && fmul(9, 9) == 81);
    lemma_constraint_at(v, 1, 1, 1);
    lemma_constraint_at(v, 2, 4, 16);
    lemma_constraint_at(v, 3, 9, 81);
    let x1 = (((a + b + c) as int) % p) as nat;
    let x2 = (((a + 4 * b + 16 * c) as int) % p) as nat;
    let x3 = (((a + 9 * b + 81 * c) as int) % p) as nat;
    assert(a + 1 * b + 1 * c == a + b + c);
    lemma_zero_scaled(x1);
    lemma_zero_scaled(x2);
    lemma_zero_scaled(x3);
    lemma_three_terms_vanish(a, b, c);
    lemma_terms_equations(v);
}

} // verus!
