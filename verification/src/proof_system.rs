//! A proof: commitments to the witness, permutation, quotient and opening
//! polynomials, with the evaluations the verifier needs, and the verifier's
//! computations on them that are pure field and group arithmetic.
use crate::commitment::{g1_add, g1_mul, g1_zero_encoding, is_g1_encoding, Commitment};
use crate::domain::{sview, EvaluationDomain};
use crate::field::{
    batch_inversion_in_place, fadd, finv, fmul, fpow, fsub, is_inverse, le_bytes_value,
    lemma_bytes_scalar_value, lemma_fadd_comm, lemma_fadd_regroup, lemma_fadd_zero, lemma_finv_mul,
    lemma_fmul_assoc, lemma_fmul_comm, lemma_fmul_fadd, lemma_fmul_one, lemma_inverse_unique,
    lemma_scalar_bytes_value, modulus, scalar_bytes, Scalar,
};
use vstd::arithmetic::div_mod::*;
use vstd::arithmetic::mul::*;
use vstd::arithmetic::power::*;
use vstd::prelude::*;

verus! {

/// The evaluations a proof carries.
#[derive(Clone, Copy, Debug)]
pub struct ProofEvaluations {
    /// Left wire polynomial at `z`.
    pub a_eval: Scalar,
    /// Right wire polynomial at `z`.
    pub b_eval: Scalar,
    /// Output wire polynomial at `z`.
    pub c_eval: Scalar,
    /// Fourth wire polynomial at `z`.
    pub d_eval: Scalar,
    /// Left wire polynomial at `z * omega`.
    pub a_next_eval: Scalar,
    /// Right wire polynomial at `z * omega`.
    pub b_next_eval: Scalar,
    /// Fourth wire polynomial at `z * omega`.
    pub d_next_eval: Scalar,
    /// Arithmetic selector at `z`.
    pub q_arith_eval: Scalar,
    /// Constant selector at `z`.
    pub q_c_eval: Scalar,
    /// Left selector at `z`.
    pub q_l_eval: Scalar,
    /// Right selector at `z`.
    pub q_r_eval: Scalar,
    /// Left sigma polynomial at `z`.
    pub left_sigma_eval: Scalar,
    /// Right sigma polynomial at `z`.
    pub right_sigma_eval: Scalar,
    /// Output sigma polynomial at `z`.
    pub out_sigma_eval: Scalar,
    /// Linearisation polynomial at `z`.
    pub linearisation_polynomial_eval: Scalar,
    /// Permutation polynomial at `z * omega`.
    pub permutation_eval: Scalar,
}

/// A proof: the commitments to the witness, permutation, quotient and
/// opening polynomials, and the evaluations.
#[derive(Clone, Debug)]
pub struct Proof {
    /// Commitment to the left wire polynomial.
    pub a_comm: Commitment,
    /// Commitment to the right wire polynomial.
    pub b_comm: Commitment,
    /// Commitment to the output wire polynomial.
    pub c_comm: Commitment,
    /// Commitment to the fourth wire polynomial.
    pub d_comm: Commitment,
    /// Commitment to the permutation polynomial.
    pub z_comm: Commitment,
    /// Commitment to the first part of the quotient polynomial.
    pub t_1_comm: Commitment,
    /// Commitment to the second part of the quotient polynomial.
    pub t_2_comm: Commitment,
    /// Commitment to the third part of the quotient polynomial.
    pub t_3_comm: Commitment,
    /// Commitment to the fourth part of the quotient polynomial.
    pub t_4_comm: Commitment,
    /// Commitment to the opening proof polynomial.
    pub w_z_comm: Commitment,
    /// Commitment to the shifted opening proof polynomial.
    pub w_zw_comm: Commitment,
    /// The evaluations.
    pub evaluations: ProofEvaluations,
}

/// Zero for zero, the inverse otherwise: what batch inversion leaves in
/// each slot.
pub open spec fn inverse_or_zero(x: nat) -> nat {
    if x == 0 {
        0
    } else {
        finv(x)
    }
}

/// The denominator of the `i`-th barycentric term: `g^-i z - 1`.
pub open spec fn barycentric_denominator(point: nat, gen_inv: nat, i: nat) -> nat {
    fsub(fmul(fpow(gen_inv, i), point), 1)
}

/// The `i`-th barycentric term: `e_i / (g^-i z - 1)`.
pub open spec fn barycentric_term(e: nat, point: nat, gen_inv: nat, i: nat) -> nat {
    fmul(inverse_or_zero(barycentric_denominator(point, gen_inv, i)), e)
}

/// The sum of the barycentric terms of the nonzero values among the first
/// `k`, in order.
pub open spec fn barycentric_sum(evals: Seq<nat>, point: nat, gen_inv: nat, k: nat) -> nat
    decreases k,
{
    if k == 0 {
        0
    } else if evals[k - 1] == 0 {
        barycentric_sum(evals, point, gen_inv, (k - 1) as nat)
    } else {
        fadd(
            barycentric_sum(evals, point, gen_inv, (k - 1) as nat),
            barycentric_term(evals[k - 1], point, gen_inv, (k - 1) as nat),
        )
    }
}

/// The position of the `k`-th listed index, or `len` past the end of the
/// list.
pub open spec fn next_nonzero(idx: Seq<usize>, k: int, len: nat) -> nat {
    if k < idx.len() {
        idx[k] as nat
    } else {
        len
    }
}

/// Zero values add nothing to the barycentric sum.
proof fn lemma_zero_skip(evals: Seq<nat>, point: nat, gen_inv: nat, a: nat, b: nat)
    requires
        a <= b <= evals.len(),
        forall|m: int| a <= m < b ==> evals[m] == 0,
    ensures
        barycentric_sum(evals, point, gen_inv, b) == barycentric_sum(evals, point, gen_inv, a),
    decreases b - a,
{
    if a < b {
        lemma_zero_skip(evals, point, gen_inv, a, (b - 1) as nat);
    }
}

/// The value at `point` of the polynomial that takes the values `evals`
/// on the first domain elements (and zero on the rest), by the barycentric
/// formula `(z^n - 1)/n * sum_i e_i / (g^-i z - 1)`.
pub open spec fn barycentric_eval(evals: Seq<nat>, point: nat, d: EvaluationDomain) -> nat {
    fmul(
        barycentric_sum(evals, point, d.gen_inv(), evals.len()),
        fmul(fsub(fpow(point, d.spec_size()), 1), d.inv_size()),
    )
}

/// The barycentric sum over the first `k` values, zero values included
/// (their terms are zero).
pub open spec fn barycentric_full_sum(evals: Seq<nat>, point: nat, gen_inv: nat, k: nat) -> nat
    decreases k,
{
    if k == 0 {
        0
    } else {
        fadd(
            barycentric_full_sum(evals, point, gen_inv, (k - 1) as nat),
            barycentric_term(evals[k - 1], point, gen_inv, (k - 1) as nat),
        )
    }
}

/// Skipping the zero values does not change the barycentric sum.
pub(crate) proof fn lemma_barycentric_full_sum(evals: Seq<nat>, point: nat, gen_inv: nat, k: nat)
    ensures
        barycentric_sum(evals, point, gen_inv, k) == barycentric_full_sum(evals, point, gen_inv, k),
        barycentric_full_sum(evals, point, gen_inv, k) < modulus(),
    decreases k,
{
    if k > 0 {
        lemma_barycentric_full_sum(evals, point, gen_inv, (k - 1) as nat);
        if evals[k - 1] == 0 {
            let prev = barycentric_full_sum(evals, point, gen_inv, (k - 1) as nat);
            assert(barycentric_term(0, point, gen_inv, (k - 1) as nat) == 0);
            lemma_fadd_zero(prev);
        }
    }
}

/// The barycentric sum over the first `k` values reads only those values.
proof fn lemma_barycentric_full_sum_prefix(s: Seq<nat>, t: Seq<nat>, point: nat, gen_inv: nat, k: nat)
    requires
        forall|i: int| 0 <= i < k ==> s[i] == t[i],
    ensures
        barycentric_full_sum(s, point, gen_inv, k) == barycentric_full_sum(t, point, gen_inv, k),
    decreases k,
{
    if k > 0 {
        lemma_barycentric_full_sum_prefix(s, t, point, gen_inv, (k - 1) as nat);
    }
}

/// The values `a + c b`, entry by entry.
pub open spec fn combine(a: Seq<nat>, c: nat, b: Seq<nat>) -> Seq<nat> {
    Seq::new(a.len(), |i: int| fadd(a[i], fmul(c, b[i])))
}

/// The barycentric sum is linear in the values.
proof fn lemma_barycentric_full_sum_linear(a: Seq<nat>, b: Seq<nat>, c: nat, point: nat, gen_inv: nat, k: nat)
    requires
        a.len() == b.len(),
        k <= a.len(),
    ensures
        barycentric_full_sum(combine(a, c, b), point, gen_inv, k) == fadd(
            barycentric_full_sum(a, point, gen_inv, k),
            fmul(c, barycentric_full_sum(b, point, gen_inv, k)),
        ),
    decreases k,
{
    if k == 0 {
        assert(fmul(c, 0) == 0);
    } else {
        let j = (k - 1) as nat;
        lemma_barycentric_full_sum_linear(a, b, c, point, gen_inv, j);
        let inv = inverse_or_zero(fsub(fmul(fpow(gen_inv, j), point), 1));
        let sa = barycentric_full_sum(a, point, gen_inv, j);
        let sb = barycentric_full_sum(b, point, gen_inv, j);
        let ta = fmul(inv, a[j as int]);
        let tb = fmul(inv, b[j as int]);
        // inv (a + c b) = inv a + c (inv b)
        lemma_fmul_comm(inv, a[j as int]);
        lemma_fmul_comm(inv, b[j as int]);
        lemma_fmul_comm(inv, combine(a, c, b)[j as int]);
        lemma_fmul_fadd(inv, a[j as int], fmul(c, b[j as int]));
        lemma_fmul_assoc(inv, c, b[j as int]);
        lemma_fmul_comm(inv, c);
        lemma_fmul_assoc(c, inv, b[j as int]);
        assert(barycentric_term(combine(a, c, b)[j as int], point, gen_inv, j) == fadd(ta, fmul(c, tb)));
        // (sa + c sb) + (ta + c tb) = (sa + ta) + c (sb + tb)
        lemma_fadd_regroup(sa, fmul(c, sb), ta, fmul(c, tb));
        lemma_fmul_fadd(c, sb, tb);
        lemma_fmul_comm(ta, inv);
    }
}

/// The barycentric evaluation is linear in the values: the evaluation of
/// `a + c b` is that of `a` plus `c` times that of `b`.
pub proof fn lemma_barycentric_eval_linear(a: Seq<nat>, b: Seq<nat>, c: nat, point: nat, d: EvaluationDomain)
    requires
        a.len() == b.len(),
    ensures
        barycentric_eval(combine(a, c, b), point, d) == fadd(
            barycentric_eval(a, point, d),
            fmul(c, barycentric_eval(b, point, d)),
        ),
{
    let g = d.gen_inv();
    let n = a.len();
    let f = fmul(fsub(fpow(point, d.spec_size()), 1), d.inv_size());
    lemma_barycentric_full_sum(combine(a, c, b), point, g, n);
    lemma_barycentric_full_sum(a, point, g, n);
    lemma_barycentric_full_sum(b, point, g, n);
    lemma_barycentric_full_sum_linear(a, b, c, point, g, n);
    let sa = barycentric_full_sum(a, point, g, n);
    let sb = barycentric_full_sum(b, point, g, n);
    // (sa + c sb) f = sa f + c (sb f)
    lemma_fmul_comm(fadd(sa, fmul(c, sb)), f);
    lemma_fmul_fadd(f, sa, fmul(c, sb));
    lemma_fmul_comm(f, sa);
    lemma_fmul_comm(f, fmul(c, sb));
    lemma_fmul_assoc(c, sb, f);
}

/// No values evaluate to zero, and a trailing zero value changes nothing.
pub proof fn lemma_barycentric_eval_zeros(a: Seq<nat>, point: nat, d: EvaluationDomain)
    ensures
        barycentric_eval(Seq::<nat>::empty(), point, d) == 0,
        barycentric_eval(a.push(0), point, d) == barycentric_eval(a, point, d),
{
    let g = d.gen_inv();
    let f = fmul(fsub(fpow(point, d.spec_size()), 1), d.inv_size());
    assert(fmul(0, f) == 0);
    let n = a.len();
    lemma_barycentric_full_sum(a.push(0), point, g, n + 1);
    lemma_barycentric_full_sum(a, point, g, n);
    lemma_barycentric_full_sum(a.push(0), point, g, n);
    lemma_barycentric_full_sum_prefix(a.push(0), a, point, g, n);
}

/// The first Lagrange polynomial at `z`, `(z^n - 1) / (n (z - 1))`, given
/// `z_h_eval = z^n - 1`.
pub open spec fn first_lagrange_eval(n: nat, z_h_eval: nat, z: nat) -> nat {
    fmul(z_h_eval, finv(fmul(n, fsub(z, 1))))
}

/// The first Lagrange polynomial at `z`, `(z^n - 1) / (n (z - 1))`, from the
/// vanishing polynomial's value `z_h_eval = z^n - 1`.
pub fn compute_first_lagrange_evaluation(domain: &EvaluationDomain, z_h_eval: &Scalar, z_challenge: &Scalar) -> (r: Scalar)
    requires
        domain.wf(),
        fmul(domain.spec_size(), fsub(z_challenge@, 1)) != 0,
    ensures
        r@ == first_lagrange_eval(domain.spec_size(), z_h_eval@, z_challenge@),
{
    let n_fr = Scalar::from_u64(domain.size() as u64);
    let denom = n_fr.times(z_challenge.minus(Scalar::one()));
    z_h_eval.times(denom.inverse().unwrap())
}

/// The first Lagrange polynomial, one at the first domain element and zero
/// at the others, is what the barycentric formula gives for the values
/// `[1]`: at a point `z` with `z - 1` invertible, with the vanishing
/// polynomial's value `z^n - 1`, `compute_first_lagrange_evaluation` and
/// `compute_barycentric_eval(&[1], z, domain)` agree.
pub proof fn lemma_first_lagrange_is_barycentric(d: EvaluationDomain, z: nat)
    requires
        d.wf(),
        z < modulus(),
        is_inverse(fsub(z, 1), finv(fsub(z, 1))),
    ensures
        first_lagrange_eval(d.spec_size(), fsub(fpow(z, d.spec_size()), 1), z) == barycentric_eval(seq![1nat], z, d),
{
    let n = d.spec_size();
    let zh = fsub(fpow(z, n), 1);
    let iz = finv(fsub(z, 1));
    let inv_n = d.inv_size();
    // The one barycentric term is 1 / (g^0 z - 1) = 1 / (z - 1).
    assert(fpow(d.gen_inv(), 0) == 1) by {
        reveal_with_fuel(vstd::arithmetic::power::pow, 1);
    }
    lemma_fmul_one(z);
    assert(fsub(z, 1) != 0) by {
        assert(fmul(0, iz) == 0);
    }
    lemma_fmul_one(iz);
    assert(barycentric_term(1, z, d.gen_inv(), 0) == iz);
    let one = seq![1nat];
    assert(one[0] == 1);
    assert(barycentric_sum(one, z, d.gen_inv(), 0) == 0);
    assert(barycentric_sum(one, z, d.gen_inv(), 1) == fadd(0, iz));
    lemma_fadd_zero(iz);
    lemma_fadd_comm(0, iz);
    // 1 / (n (z - 1)) = (1 / n)(1 / (z - 1))
    lemma_inverse_unique(n, inv_n);
    lemma_finv_mul(n, fsub(z, 1));
    // zh ((1 / n)(1 / (z - 1))) = (1 / (z - 1))(zh (1 / n))
    lemma_fmul_assoc(zh, inv_n, iz);
    lemma_fmul_comm(fmul(zh, inv_n), iz);
}

/// The value at `point` of the polynomial that takes the given values on
/// the first domain elements: only the nonzero values contribute.
pub fn compute_barycentric_eval(evaluations: &[Scalar], point: Scalar, domain: &EvaluationDomain) -> (r: Scalar)
    requires
        domain.wf(),
    ensures
        r@ == barycentric_eval(sview(evaluations@), point@, *domain),
{
    let ghost evals = sview(evaluations@);
    let numerator = domain.evaluate_vanishing_polynomial(point).times(domain.size_inv());

    // The indices of the nonzero values.
    let mut non_zero_evaluations: Vec<usize> = Vec::new();
    let mut i: usize = 0;
    while i < evaluations.len()
        invariant
            i <= evaluations@.len(),
            evals == sview(evaluations@),
            forall|j: int| 0 <= j < non_zero_evaluations@.len() ==> #[trigger] non_zero_evaluations@[j] < i,
            forall|j: int, k: int| 0 <= j < k < non_zero_evaluations@.len() ==> non_zero_evaluations@[j] < non_zero_evaluations@[k],
            forall|j: int| 0 <= j < non_zero_evaluations@.len() ==> evals[#[trigger] non_zero_evaluations@[j] as int] != 0,
            forall|k: int| 0 <= k < i && evals[k] != 0 ==> exists|j: int| 0 <= j < non_zero_evaluations@.len() && non_zero_evaluations@[j] == k,
        decreases evaluations@.len() - i,
    {
        let ghost prev = non_zero_evaluations@;
        if !(evaluations[i] == Scalar::zero()) {
            non_zero_evaluations.push(i);
            proof {
                assert forall|k: int| 0 <= k < i + 1 && evals[k] != 0 implies exists|j: int| 0 <= j < non_zero_evaluations@.len() && non_zero_evaluations@[j] == k by {
                    if k == i {
                        assert(non_zero_evaluations@[prev.len() as int] == k);
                    } else {
                        let j = choose|j: int| 0 <= j < prev.len() && prev[j] == k;
                        assert(non_zero_evaluations@[j] == k);
                    }
                }
            }
        }
        i = i + 1;
    }
    proof {
        let idx = non_zero_evaluations@;
        assert forall|m: int| 0 <= m < next_nonzero(idx, 0, evals.len()) implies evals[m] == 0 by {
            if evals[m] != 0 {
                let j = choose|j: int| 0 <= j < idx.len() && idx[j] == m;
                if j > 0 {
                    assert(idx[0] < idx[j]);
                }
            }
        }
        lemma_zero_skip(evals, point@, domain.gen_inv(), 0, next_nonzero(idx, 0, evals.len()));
    }

    // Denominators only for the nonzero values.
    let group_gen_inv = domain.group_gen_inv();
    let mut denominators: Vec<Scalar> = Vec::new();
    let mut j: usize = 0;
    while j < non_zero_evaluations.len()
        invariant
            j <= non_zero_evaluations@.len(),
            group_gen_inv@ == domain.gen_inv(),
            denominators@.len() == j,
            forall|k: int| 0 <= k < j ==> #[trigger] denominators@[k]@ == fsub(
                fmul(fpow(domain.gen_inv(), non_zero_evaluations@[k] as nat), point@),
                1,
            ),
        decreases non_zero_evaluations@.len() - j,
    {
        let index = non_zero_evaluations[j];
        denominators.push(group_gen_inv.pow(index as u64).times(point).minus(Scalar::one()));
        j = j + 1;
    }
    batch_inversion_in_place(&mut denominators);

    let mut result = Scalar::zero();
    let mut k: usize = 0;
    while k < non_zero_evaluations.len()
        invariant
            k <= non_zero_evaluations@.len(),
            denominators@.len() == non_zero_evaluations@.len(),
            forall|m: int| 0 <= m < non_zero_evaluations@.len() ==> #[trigger] non_zero_evaluations@[m] < evaluations@.len(),
            forall|m: int| 0 <= m < non_zero_evaluations@.len() ==> #[trigger] denominators@[m]@ == inverse_or_zero(fsub(
                fmul(fpow(domain.gen_inv(), non_zero_evaluations@[m] as nat), point@),
                1,
            )),
            evals == sview(evaluations@),
            forall|j: int, m: int| 0 <= j < m < non_zero_evaluations@.len() ==> non_zero_evaluations@[j] < non_zero_evaluations@[m],
            forall|j: int| 0 <= j < non_zero_evaluations@.len() ==> evals[#[trigger] non_zero_evaluations@[j] as int] != 0,
            forall|m: int| 0 <= m < evaluations@.len() && evals[m] != 0 ==> exists|j: int| 0 <= j < non_zero_evaluations@.len() && non_zero_evaluations@[j] == m,
            result@ == barycentric_sum(evals, point@, domain.gen_inv(), next_nonzero(non_zero_evaluations@, k as int, evals.len())),
        decreases non_zero_evaluations@.len() - k,
    {
        let eval_index = non_zero_evaluations[k];
        let eval = evaluations[eval_index];
        let ghost before = result@;
        result = result.plus(denominators[k].times(eval));
        proof {
            let idx = non_zero_evaluations@;
            assert(result@ == barycentric_sum(evals, point@, domain.gen_inv(), (eval_index + 1) as nat));
            let b = next_nonzero(idx, k + 1, evals.len());
            assert forall|m: int| eval_index + 1 <= m < b implies evals[m] == 0 by {
                if evals[m] != 0 {
                    let j = choose|j: int| 0 <= j < idx.len() && idx[j] == m;
                    if j <= k {
                        if j < k {
                            assert(idx[j] < idx[k as int]);
                        }
                    } else {
                        if j > k + 1 {
                            assert(idx[k + 1] < idx[j]);
                        }
                    }
                }
            }
            lemma_zero_skip(evals, point@, domain.gen_inv(), (eval_index + 1) as nat, b);
        }
        k = k + 1;
    }
    result.times(numerator)
}


/// The quotient polynomial's value at `z`:
/// `(r + PI(z) - (a + beta s1 + gamma)(b + beta s2 + gamma)(c + beta s3 + gamma)(d + gamma) z_hat alpha - L1(z) alpha^2) / Z_H(z)`.
pub open spec fn quotient_eval(
    e: ProofEvaluations,
    pi_eval: nat,
    alpha: nat,
    beta: nat,
    gamma: nat,
    z_h_eval: nat,
    l1_eval: nat,
    z_hat_eval: nat,
) -> nat {
    let alpha_sq = fmul(alpha, alpha);
    let a = fadd(e.linearisation_polynomial_eval@, pi_eval);
    let b_0 = fadd(fadd(e.a_eval@, fmul(beta, e.left_sigma_eval@)), gamma);
    let b_1 = fadd(fadd(e.b_eval@, fmul(beta, e.right_sigma_eval@)), gamma);
    let b_2 = fadd(fadd(e.c_eval@, fmul(beta, e.out_sigma_eval@)), gamma);
    let b_3 = fmul(fmul(fadd(e.d_eval@, gamma), z_hat_eval), alpha);
    let b = fmul(fmul(fmul(b_0, b_1), b_2), b_3);
    let c = fmul(l1_eval, alpha_sq);
    fmul(fsub(fsub(a, b), c), finv(z_h_eval))
}

/// The commitment to the whole quotient polynomial at `z`:
/// `t1 + z^n t2 + z^2n t3 + z^3n t4`.
pub open spec fn quotient_commitment(
    t_1: Seq<u8>,
    t_2: Seq<u8>,
    t_3: Seq<u8>,
    t_4: Seq<u8>,
    z: nat,
    n: nat,
) -> Seq<u8> {
    g1_add(g1_add(g1_add(t_1, g1_mul(t_2, fpow(z, n))), g1_mul(t_3, fpow(z, 2 * n))), g1_mul(t_4, fpow(z, 3 * n)))
}

/// `z^(m + k) = z^m z^k` in the field.
proof fn lemma_fpow_adds(z: nat, m: nat, k: nat)
    ensures
        fpow(z, m + k) == fmul(fpow(z, m), fpow(z, k)),
{
    let p = modulus() as int;
    lemma_pow_adds(z as int, m, k);
    lemma_mul_mod_noop_left(pow(z as int, m), pow(z as int, k), p);
    lemma_mul_mod_noop_right(pow(z as int, m) % p, pow(z as int, k), p);
}

/// The quotient commitment weighs its four parts by the powers of one
/// coefficient `c = z^n`: it is `t1 + c t2 + c^2 t3 + c^3 t4`, for every `n`.
pub proof fn lemma_quotient_commitment_powers(
    t_1: Seq<u8>,
    t_2: Seq<u8>,
    t_3: Seq<u8>,
    t_4: Seq<u8>,
    z: nat,
    n: nat,
)
    ensures
        ({
            let c = fpow(z, n);
            quotient_commitment(t_1, t_2, t_3, t_4, z, n) == g1_add(
                g1_add(g1_add(t_1, g1_mul(t_2, c)), g1_mul(t_3, fmul(c, c))),
                g1_mul(t_4, fmul(fmul(c, c), c)),
            )
        }),
{
    lemma_fpow_adds(z, n, n);
    lemma_fpow_adds(z, 2 * n, n);
    assert(n + n == 2 * n);
    assert(2 * n + n == 3 * n);
}

/// `(u - v) w = u w - v w` in the field.
proof fn lemma_fmul_fsub(u: nat, v: nat, w: nat)
    ensures
        fmul(fsub(u, v), w) == fsub(fmul(u, w), fmul(v, w)),
{
    let p = modulus() as int;
    lemma_mul_mod_noop_left(u as int - v as int, w as int, p);
    lemma_sub_mod_noop((u * w) as int, (v * w) as int, p);
    lemma_mul_is_distributive_sub_other_way(w as int, u as int, v as int);
}

/// Multiplying by the inverse of `h` and then by `h` gives back a reduced
/// value.
proof fn lemma_fmul_inverse_cancel(x: nat, h: nat)
    requires
        x < modulus(),
        is_inverse(h, finv(h)),
    ensures
        fmul(fmul(x, finv(h)), h) == x,
{
    lemma_fmul_assoc(x, finv(h), h);
    lemma_fmul_comm(finv(h), h);
    lemma_fmul_one(x);
}

/// Subtracting the same two terms from two values leaves their difference.
proof fn lemma_fsub_same_terms(a2: nat, a1: nat, b: nat, c: nat)
    requires
        b < modulus(),
        c < modulus(),
    ensures
        fsub(fsub(fsub(a2, b), c), fsub(fsub(a1, b), c)) == fsub(a2, a1),
{
    let p = modulus() as int;
    lemma_sub_mod_noop(a2 as int - b as int, c as int, p);
    lemma_sub_mod_noop(a1 as int - b as int, c as int, p);
    lemma_small_mod(c, p as nat);
    lemma_sub_mod_noop(a2 as int - b as int - c as int, a1 as int - b as int - c as int, p);
}

/// The quotient's value is affine in `r + PI(z)` with slope `1 / Z_H(z)`:
/// for two sets of evaluations that agree but perhaps in the linearisation
/// evaluation `r`, and two public-input values, the two quotient values
/// satisfy `(t' - t) Z_H(z) = (r' + PI') - (r + PI)`, zero public inputs
/// included.
pub proof fn lemma_quotient_eval_affine(
    e1: ProofEvaluations,
    e2: ProofEvaluations,
    pi1: nat,
    pi2: nat,
    alpha: nat,
    beta: nat,
    gamma: nat,
    z_h_eval: nat,
    l1_eval: nat,
    z_hat_eval: nat,
)
    requires
        is_inverse(z_h_eval, finv(z_h_eval)),
        e1.a_eval@ == e2.a_eval@,
        e1.b_eval@ == e2.b_eval@,
        e1.c_eval@ == e2.c_eval@,
        e1.d_eval@ == e2.d_eval@,
        e1.left_sigma_eval@ == e2.left_sigma_eval@,
        e1.right_sigma_eval@ == e2.right_sigma_eval@,
        e1.out_sigma_eval@ == e2.out_sigma_eval@,
    ensures
        fmul(
            fsub(
                quotient_eval(e2, pi2, alpha, beta, gamma, z_h_eval, l1_eval, z_hat_eval),
                quotient_eval(e1, pi1, alpha, beta, gamma, z_h_eval, l1_eval, z_hat_eval),
            ),
            z_h_eval,
        ) == fsub(fadd(e2.linearisation_polynomial_eval@, pi2), fadd(e1.linearisation_polynomial_eval@, pi1)),
{
    let alpha_sq = fmul(alpha, alpha);
    let b_0 = fadd(fadd(e1.a_eval@, fmul(beta, e1.left_sigma_eval@)), gamma);
    let b_1 = fadd(fadd(e1.b_eval@, fmul(beta, e1.right_sigma_eval@)), gamma);
    let b_2 = fadd(fadd(e1.c_eval@, fmul(beta, e1.out_sigma_eval@)), gamma);
    let b_3 = fmul(fmul(fadd(e1.d_eval@, gamma), z_hat_eval), alpha);
    let b = fmul(fmul(fmul(b_0, b_1), b_2), b_3);
    let c = fmul(l1_eval, alpha_sq);
    let a1 = fadd(e1.linearisation_polynomial_eval@, pi1);
    let a2 = fadd(e2.linearisation_polynomial_eval@, pi2);
    let x1 = fsub(fsub(a1, b), c);
    let x2 = fsub(fsub(a2, b), c);
    let q1 = quotient_eval(e1, pi1, alpha, beta, gamma, z_h_eval, l1_eval, z_hat_eval);
    let q2 = quotient_eval(e2, pi2, alpha, beta, gamma, z_h_eval, l1_eval, z_hat_eval);
    assert(q1 == fmul(x1, finv(z_h_eval)));
    assert(q2 == fmul(x2, finv(z_h_eval)));
    lemma_fmul_fsub(q2, q1, z_h_eval);
    lemma_fmul_inverse_cancel(x1, z_h_eval);
    lemma_fmul_inverse_cancel(x2, z_h_eval);
    lemma_fsub_same_terms(a2, a1, b, c);
}

/// Changing only the term subtracted second changes the difference by the
/// opposite amount: `(a - b - c2) - (a - b - c1) = c1 - c2`, and likewise
/// for the term subtracted first.
proof fn lemma_fsub_changed_terms(a: nat, b1: nat, b2: nat, c1: nat, c2: nat)
    requires
        b1 < modulus(),
        b2 < modulus(),
        c1 < modulus(),
        c2 < modulus(),
    ensures
        fsub(fsub(fsub(a, b2), c2), fsub(fsub(a, b1), c1)) == fsub(
            (((b1 + c1) as int) % (modulus() as int)) as nat,
            (((b2 + c2) as int) % (modulus() as int)) as nat,
        ),
{
    let p = modulus() as int;
    lemma_sub_mod_noop(a as int - b1 as int, c1 as int, p);
    lemma_sub_mod_noop(a as int - b2 as int, c2 as int, p);
    lemma_small_mod(c1, p as nat);
    lemma_small_mod(c2, p as nat);
    lemma_sub_mod_noop(a as int - b2 as int - c2 as int, a as int - b1 as int - c1 as int, p);
    lemma_sub_mod_noop((b1 + c1) as int, (b2 + c2) as int, p);
}

/// The quotient's value falls by `L1(z) alpha^2 / Z_H(z)` as `L1(z)` grows:
/// for two first-Lagrange values, all else equal,
/// `(t' - t) Z_H(z) = (L1 - L1') alpha^2`.
pub proof fn lemma_quotient_eval_lagrange(
    e: ProofEvaluations,
    pi: nat,
    alpha: nat,
    beta: nat,
    gamma: nat,
    z_h_eval: nat,
    l1: nat,
    l2: nat,
    z_hat_eval: nat,
)
    requires
        is_inverse(z_h_eval, finv(z_h_eval)),
    ensures
        fmul(
            fsub(
                quotient_eval(e, pi, alpha, beta, gamma, z_h_eval, l2, z_hat_eval),
                quotient_eval(e, pi, alpha, beta, gamma, z_h_eval, l1, z_hat_eval),
            ),
            z_h_eval,
        ) == fmul(fsub(l1, l2), fmul(alpha, alpha)),
{
    let p = modulus() as int;
    let alpha_sq = fmul(alpha, alpha);
    let b_0 = fadd(fadd(e.a_eval@, fmul(beta, e.left_sigma_eval@)), gamma);
    let b_1 = fadd(fadd(e.b_eval@, fmul(beta, e.right_sigma_eval@)), gamma);
    let b_2 = fadd(fadd(e.c_eval@, fmul(beta, e.out_sigma_eval@)), gamma);
    let b_3 = fmul(fmul(fadd(e.d_eval@, gamma), z_hat_eval), alpha);
    let b = fmul(fmul(fmul(b_0, b_1), b_2), b_3);
    let a = fadd(e.linearisation_polynomial_eval@, pi);
    let c1 = fmul(l1, alpha_sq);
    let c2 = fmul(l2, alpha_sq);
    let x1 = fsub(fsub(a, b), c1);
    let x2 = fsub(fsub(a, b), c2);
    let q1 = quotient_eval(e, pi, alpha, beta, gamma, z_h_eval, l1, z_hat_eval);
    let q2 = quotient_eval(e, pi, alpha, beta, gamma, z_h_eval, l2, z_hat_eval);
    assert(q1 == fmul(x1, finv(z_h_eval)));
    assert(q2 == fmul(x2, finv(z_h_eval)));
    lemma_fmul_fsub(q2, q1, z_h_eval);
    lemma_fmul_inverse_cancel(x1, z_h_eval);
    lemma_fmul_inverse_cancel(x2, z_h_eval);
    lemma_fsub_changed_terms(a, b, b, c1, c2);
    // (b + c1) - (b + c2) = c1 - c2 = (L1 - L1') alpha^2
    lemma_sub_mod_noop((b + c1) as int, (b + c2) as int, p);
    lemma_sub_mod_noop(c1 as int, c2 as int, p);
    lemma_fmul_fsub(l1, l2, alpha_sq);
    lemma_small_mod(c1, p as nat);
    lemma_small_mod(c2, p as nat);
}

/// The quotient's value falls by the permutation term as `z_hat(z omega)`
/// grows: for two values of the shifted permutation evaluation, all else
/// equal, `(t' - t) Z_H(z) = (z_hat - z_hat')
/// (a + beta s1 + gamma)(b + beta s2 + gamma)(c + beta s3 + gamma)(d + gamma) alpha`.
pub proof fn lemma_quotient_eval_permutation(
    e: ProofEvaluations,
    pi: nat,
    alpha: nat,
    beta: nat,
    gamma: nat,
    z_h_eval: nat,
    l1_eval: nat,
    zhat1: nat,
    zhat2: nat,
)
    requires
        is_inverse(z_h_eval, finv(z_h_eval)),
    ensures
        fmul(
            fsub(
                quotient_eval(e, pi, alpha, beta, gamma, z_h_eval, l1_eval, zhat2),
                quotient_eval(e, pi, alpha, beta, gamma, z_h_eval, l1_eval, zhat1),
            ),
            z_h_eval,
        ) == fmul(
            fsub(zhat1, zhat2),
            fmul(
                fmul(
                    fmul(
                        fmul(
                            fadd(fadd(e.a_eval@, fmul(beta, e.left_sigma_eval@)), gamma),
                            fadd(fadd(e.b_eval@, fmul(beta, e.right_sigma_eval@)), gamma),
                        ),
                        fadd(fadd(e.c_eval@, fmul(beta, e.out_sigma_eval@)), gamma),
                    ),
                    fadd(e.d_eval@, gamma),
                ),
                alpha,
            ),
        ),
{
    let p = modulus() as int;
    let alpha_sq = fmul(alpha, alpha);
    let b_0 = fadd(fadd(e.a_eval@, fmul(beta, e.left_sigma_eval@)), gamma);
    let b_1 = fadd(fadd(e.b_eval@, fmul(beta, e.right_sigma_eval@)), gamma);
    let b_2 = fadd(fadd(e.c_eval@, fmul(beta, e.out_sigma_eval@)), gamma);
    let d = fadd(e.d_eval@, gamma);
    let q = fmul(fmul(b_0, b_1), b_2);
    let big_p = fmul(fmul(q, d), alpha);
    let bb1 = fmul(q, fmul(fmul(d, zhat1), alpha));
    let bb2 = fmul(q, fmul(fmul(d, zhat2), alpha));
    let a = fadd(e.linearisation_polynomial_eval@, pi);
    let c = fmul(l1_eval, alpha_sq);
    let x1 = fsub(fsub(a, bb1), c);
    let x2 = fsub(fsub(a, bb2), c);
    let q1 = quotient_eval(e, pi, alpha, beta, gamma, z_h_eval, l1_eval, zhat1);
    let q2 = quotient_eval(e, pi, alpha, beta, gamma, z_h_eval, l1_eval, zhat2);
    assert(q1 == fmul(x1, finv(z_h_eval)));
    assert(q2 == fmul(x2, finv(z_h_eval)));
    lemma_fmul_fsub(q2, q1, z_h_eval);
    lemma_fmul_inverse_cancel(x1, z_h_eval);
    lemma_fmul_inverse_cancel(x2, z_h_eval);
    lemma_fsub_changed_terms(a, bb1, bb2, c, c);
    lemma_sub_mod_noop((bb1 + c) as int, (bb2 + c) as int, p);
    lemma_sub_mod_noop(bb1 as int, bb2 as int, p);
    lemma_small_mod(bb1, p as nat);
    lemma_small_mod(bb2, p as nat);
    // q ((d z) alpha) = z ((q d) alpha)
    assert forall|zh: nat| true implies fmul(q, fmul(fmul(d, zh), alpha)) == fmul(zh, big_p) by {
        lemma_fmul_comm(d, zh);
        lemma_fmul_assoc(zh, d, alpha);
        lemma_fmul_assoc(q, zh, fmul(d, alpha));
        lemma_fmul_comm(q, zh);
        lemma_fmul_assoc(zh, q, fmul(d, alpha));
        lemma_fmul_assoc(q, d, alpha);
    }
    lemma_fmul_fsub(zhat1, zhat2, big_p);
}

impl Proof {
    /// The quotient polynomial's value at `z_challenge`, from the proof's
    /// evaluations, the public inputs and the challenges.
    pub fn compute_quotient_evaluation(
        &self,
        domain: &EvaluationDomain,
        pub_inputs: &[Scalar],
        alpha: Scalar,
        beta: Scalar,
        gamma: Scalar,
        z_challenge: Scalar,
        z_h_eval: Scalar,
        l1_eval: Scalar,
        z_hat_eval: Scalar,
    ) -> (r: Scalar)
        requires
            domain.wf(),
            z_h_eval@ != 0,
        ensures
            r@ == quotient_eval(
                self.evaluations,
                barycentric_eval(sview(pub_inputs@), z_challenge@, *domain),
                alpha@,
                beta@,
                gamma@,
                z_h_eval@,
                l1_eval@,
                z_hat_eval@,
            ),
    {
        // The public input polynomial at `z_challenge`.
        let pi_eval = compute_barycentric_eval(pub_inputs, z_challenge, domain);

        let alpha_sq = alpha.square();
        // r + PI(z)
        let a = self.evaluations.linearisation_polynomial_eval.plus(pi_eval);

        // a + beta * sigma_1 + gamma
        let beta_sig1 = beta.times(self.evaluations.left_sigma_eval);
        let b_0 = self.evaluations.a_eval.plus(beta_sig1).plus(gamma);

        // b + beta * sigma_2 + gamma
        let beta_sig2 = beta.times(self.evaluations.right_sigma_eval);
        let b_1 = self.evaluations.b_eval.plus(beta_sig2).plus(gamma);

        // c + beta * sigma_3 + gamma
        let beta_sig3 = beta.times(self.evaluations.out_sigma_eval);
        let b_2 = self.evaluations.c_eval.plus(beta_sig3).plus(gamma);

        // ((d + gamma) * z_hat) * alpha
        let b_3 = self.evaluations.d_eval.plus(gamma).times(z_hat_eval).times(alpha);

        let b = b_0.times(b_1).times(b_2).times(b_3);

        // l_1(z) * alpha^2
        let c = l1_eval.times(alpha_sq);

        a.minus(b).minus(c).times(z_h_eval.inverse().unwrap())
    }

    /// The commitment to the whole quotient polynomial at `z_challenge`,
    /// from the commitments to its four parts over a domain of size `n`.
    pub fn compute_quotient_commitment(&self, z_challenge: &Scalar, n: usize) -> (r: Commitment)
        requires
            3 * n <= u64::MAX,
        ensures
            r@ == quotient_commitment(
                self.t_1_comm@,
                self.t_2_comm@,
                self.t_3_comm@,
                self.t_4_comm@,
                z_challenge@,
                n as nat,
            ),
    {
        let n = n as u64;
        let z_n = z_challenge.pow(n);
        let z_two_n = z_challenge.pow(2 * n);
        let z_three_n = z_challenge.pow(3 * n);
        self.t_1_comm.add(&self.t_2_comm.mul(z_n)).add(&self.t_3_comm.mul(z_two_n)).add(&self.t_4_comm.mul(z_three_n))
    }
}

impl Default for ProofEvaluations {
    /// All evaluations zero.
    fn default() -> (r: ProofEvaluations)
        ensures
            r.values() == Seq::new(16, |i: int| 0nat),
    {
        let z = Scalar::zero();
        let r = ProofEvaluations {
            a_eval: z,
            b_eval: z,
            c_eval: z,
            d_eval: z,
            a_next_eval: z,
            b_next_eval: z,
            d_next_eval: z,
            q_arith_eval: z,
            q_c_eval: z,
            q_l_eval: z,
            q_r_eval: z,
            left_sigma_eval: z,
            right_sigma_eval: z,
            out_sigma_eval: z,
            linearisation_polynomial_eval: z,
            permutation_eval: z,
        };
        assert(r.values() =~= Seq::new(16, |i: int| 0nat));
        r
    }
}

impl Default for Proof {
    /// All commitments the point at infinity, all evaluations zero.
    fn default() -> (r: Proof)
        ensures
            r.commitments() == Seq::new(11, |i: int| g1_zero_encoding()),
            r.evaluations.values() == Seq::new(16, |i: int| 0nat),
    {
        let r = Proof {
            a_comm: Commitment::zero(),
            b_comm: Commitment::zero(),
            c_comm: Commitment::zero(),
            d_comm: Commitment::zero(),
            z_comm: Commitment::zero(),
            t_1_comm: Commitment::zero(),
            t_2_comm: Commitment::zero(),
            t_3_comm: Commitment::zero(),
            t_4_comm: Commitment::zero(),
            w_z_comm: Commitment::zero(),
            w_zw_comm: Commitment::zero(),
            evaluations: ProofEvaluations::default(),
        };
        assert(r.commitments() =~= Seq::new(11, |i: int| g1_zero_encoding()));
        r
    }
}

// ---------------------------------------------------------------------
// The byte encoding of a proof: the eleven commitments, compressed, then the
// sixteen evaluations, each in its canonical 32-byte encoding, in the order
// the fields are declared.

/// The length of an encoded proof.
pub const PROOF_SIZE: usize = 1040;

impl ProofEvaluations {
    /// The sixteen evaluations, in declaration order.
    pub open spec fn values(&self) -> Seq<nat> {
        seq![
            self.a_eval@,
            self.b_eval@,
            self.c_eval@,
            self.d_eval@,
            self.a_next_eval@,
            self.b_next_eval@,
            self.d_next_eval@,
            self.q_arith_eval@,
            self.q_c_eval@,
            self.q_l_eval@,
            self.q_r_eval@,
            self.left_sigma_eval@,
            self.right_sigma_eval@,
            self.out_sigma_eval@,
            self.linearisation_polynomial_eval@,
            self.permutation_eval@,
        ]
    }
}

impl Proof {
    /// The eleven commitments' encodings, in declaration order.
    pub open spec fn commitments(&self) -> Seq<Seq<u8>> {
        seq![
            self.a_comm@,
            self.b_comm@,
            self.c_comm@,
            self.d_comm@,
            self.z_comm@,
            self.t_1_comm@,
            self.t_2_comm@,
            self.t_3_comm@,
            self.t_4_comm@,
            self.w_z_comm@,
            self.w_zw_comm@,
        ]
    }
}

/// The byte strings, one after another.
pub open spec fn concat_all(chunks: Seq<Seq<u8>>) -> Seq<u8>
    decreases chunks.len(),
{
    if chunks.len() == 0 {
        Seq::empty()
    } else {
        concat_all(chunks.drop_last()) + chunks.last()
    }
}

/// The pieces of an encoded proof: the commitments, then the encodings of
/// the evaluations.
pub open spec fn proof_chunks(comms: Seq<Seq<u8>>, evals: Seq<nat>) -> Seq<Seq<u8>> {
    comms + Seq::new(evals.len(), |k: int| scalar_bytes(evals[k]))
}

/// The encoding of a proof with these commitments and evaluations.
pub open spec fn encode_proof(comms: Seq<Seq<u8>>, evals: Seq<nat>) -> Seq<u8> {
    concat_all(proof_chunks(comms, evals))
}

/// Where piece `k` of an encoded proof starts.
pub open spec fn chunk_offset(k: int) -> int {
    if k <= 11 {
        48 * k
    } else {
        528 + 32 * (k - 11)
    }
}

/// The length of piece `k` of an encoded proof.
pub open spec fn chunk_len(k: int) -> int {
    if k < 11 {
        48
    } else {
        32
    }
}

/// The commitment encodings that bytes hold, at the commitments' offsets.
pub open spec fn decode_commitments(bytes: Seq<u8>) -> Seq<Seq<u8>> {
    Seq::new(11, |k: int| bytes.subrange(chunk_offset(k), chunk_offset(k) + 48))
}

/// The values that bytes spell at the evaluations' offsets.
pub open spec fn decode_evaluations(bytes: Seq<u8>) -> Seq<nat> {
    Seq::new(16, |k: int| le_bytes_value(bytes.subrange(chunk_offset(11 + k), chunk_offset(11 + k) + 32)))
}

/// Bytes that decode to a proof: long enough, every commitment a point of
/// the subgroup, every evaluation below the field order.
pub open spec fn proof_bytes_valid(bytes: Seq<u8>) -> bool {
    &&& bytes.len() >= PROOF_SIZE
    &&& forall|k: int| 0 <= k < 11 ==> is_g1_encoding(#[trigger] decode_commitments(bytes)[k])
    &&& forall|k: int| 0 <= k < 16 ==> #[trigger] decode_evaluations(bytes)[k] < modulus()
}

/// Pieces of the right lengths lie one after another at their offsets.
proof fn lemma_concat_chunks(chunks: Seq<Seq<u8>>)
    requires
        chunks.len() <= 27,
        forall|k: int| 0 <= k < chunks.len() ==> #[trigger] chunks[k].len() == chunk_len(k),
    ensures
        concat_all(chunks).len() == chunk_offset(chunks.len() as int),
        forall|k: int|
            0 <= k < chunks.len() ==> #[trigger] concat_all(chunks).subrange(chunk_offset(k), chunk_offset(k) + chunk_len(k))
                == chunks[k],
    decreases chunks.len(),
{
    if chunks.len() > 0 {
        let front = chunks.drop_last();
        lemma_concat_chunks(front);
        let all = concat_all(chunks);
        let n = chunks.len() - 1;
        assert(all == concat_all(front) + chunks.last());
        assert forall|k: int| 0 <= k < chunks.len() implies #[trigger] all.subrange(chunk_offset(k), chunk_offset(k) + chunk_len(k))
            == chunks[k] by {
            if k < n {
                assert(chunk_offset(k) + chunk_len(k) <= chunk_offset(n));
                assert(all.subrange(chunk_offset(k), chunk_offset(k) + chunk_len(k)) =~= concat_all(front).subrange(
                    chunk_offset(k),
                    chunk_offset(k) + chunk_len(k),
                ));
                assert(front[k] == chunks[k]);
            } else {
                assert(all.subrange(chunk_offset(k), chunk_offset(k) + chunk_len(k)) =~= chunks[k]);
            }
        }
    }
}

/// Decoding an encoded proof gives back its commitments and evaluations.
pub proof fn lemma_proof_encoding_roundtrip(comms: Seq<Seq<u8>>, evals: Seq<nat>)
    requires
        comms.len() == 11,
        forall|k: int| 0 <= k < 11 ==> #[trigger] comms[k].len() == 48 && is_g1_encoding(comms[k]),
        evals.len() == 16,
        forall|k: int| 0 <= k < 16 ==> #[trigger] evals[k] < modulus(),
    ensures
        encode_proof(comms, evals).len() == PROOF_SIZE,
        proof_bytes_valid(encode_proof(comms, evals)),
        decode_commitments(encode_proof(comms, evals)) == comms,
        decode_evaluations(encode_proof(comms, evals)) == evals,
{
    let chunks = proof_chunks(comms, evals);
    let bytes = encode_proof(comms, evals);
    assert forall|k: int| 0 <= k < chunks.len() implies #[trigger] chunks[k].len() == chunk_len(k) by {
        if k >= 11 {
            lemma_scalar_bytes_value(evals[k - 11]);
        }
    }
    lemma_concat_chunks(chunks);
    assert forall|k: int| 0 <= k < 11 implies #[trigger] decode_commitments(bytes)[k] == comms[k] by {
        assert(bytes.subrange(chunk_offset(k), chunk_offset(k) + chunk_len(k)) == chunks[k]);
    }
    assert forall|k: int| 0 <= k < 16 implies #[trigger] decode_evaluations(bytes)[k] == evals[k] by {
        assert(bytes.subrange(chunk_offset(11 + k), chunk_offset(11 + k) + chunk_len(11 + k)) == chunks[11 + k]);
        lemma_scalar_bytes_value(evals[k]);
    }
    assert(decode_commitments(bytes) =~= comms);
    assert(decode_evaluations(bytes) =~= evals);
    assert forall|k: int| 0 <= k < 11 implies is_g1_encoding(#[trigger] decode_commitments(bytes)[k]) by {
        assert(comms[k].len() == 48 && is_g1_encoding(comms[k]));
    }
    assert forall|k: int| 0 <= k < 16 implies #[trigger] decode_evaluations(bytes)[k] < modulus() by {
        assert(evals[k] < modulus());
    }
}

/// The piece of an encoded proof that byte `i` lies in.
spec fn chunk_of(i: int) -> int {
    if i < 528 {
        i / 48
    } else {
        11 + (i - 528) / 32
    }
}

/// Byte `i` of an encoded proof lies in piece `chunk_of(i)`.
proof fn lemma_chunk_of(i: int)
    requires
        0 <= i < PROOF_SIZE,
    ensures
        0 <= chunk_of(i) < 27,
        chunk_offset(chunk_of(i)) <= i < chunk_offset(chunk_of(i)) + chunk_len(chunk_of(i)),
{
    if i < 528 {
        assert(48 * (i / 48) <= i < 48 * (i / 48) + 48) by (nonlinear_arith);
        assert(i / 48 < 11) by (nonlinear_arith)
            requires
                0 <= i < 528,
        ;
    } else {
        let j = i - 528;
        assert(32 * (j / 32) <= j < 32 * (j / 32) + 32) by (nonlinear_arith);
        assert(j / 32 < 16) by (nonlinear_arith)
            requires
                0 <= j < 512,
        ;
    }
}

/// Encoding what valid bytes decode to gives back those bytes (up to
/// `PROOF_SIZE`): the encoding is canonical.
pub proof fn lemma_proof_decoding_roundtrip(bytes: Seq<u8>)
    requires
        proof_bytes_valid(bytes),
    ensures
        encode_proof(decode_commitments(bytes), decode_evaluations(bytes)) == bytes.take(PROOF_SIZE as int),
{
    let comms = decode_commitments(bytes);
    let evals = decode_evaluations(bytes);
    let chunks = proof_chunks(comms, evals);
    let enc = encode_proof(comms, evals);
    assert forall|k: int| 0 <= k < chunks.len() implies #[trigger] chunks[k] == bytes.subrange(
        chunk_offset(k),
        chunk_offset(k) + chunk_len(k),
    ) by {
        if k >= 11 {
            lemma_bytes_scalar_value(bytes.subrange(chunk_offset(k), chunk_offset(k) + 32));
        }
    }
    assert forall|k: int| 0 <= k < chunks.len() implies #[trigger] chunks[k].len() == chunk_len(k) by {
        assert(chunks[k] == bytes.subrange(chunk_offset(k), chunk_offset(k) + chunk_len(k)));
    }
    lemma_concat_chunks(chunks);
    assert forall|i: int| 0 <= i < PROOF_SIZE implies #[trigger] enc[i] == bytes[i] by {
        lemma_chunk_of(i);
        let k = chunk_of(i);
        let off = chunk_offset(k);
        assert(enc.subrange(off, off + chunk_len(k)) == chunks[k]);
        assert(enc.subrange(off, off + chunk_len(k))[i - off] == enc[i]);
        assert(bytes.subrange(off, off + chunk_len(k))[i - off] == bytes[i]);
    }
    assert(enc =~= bytes.take(PROOF_SIZE as int));
}

/// Appends the bytes of `src` to `out`.
fn append_bytes(out: &mut Vec<u8>, src: &[u8])
    ensures
        final(out)@ == old(out)@ + src@,
{
    let ghost start = out@;
    let mut i: usize = 0;
    while i < src.len()
        invariant
            i <= src@.len(),
            out@ == start + src@.take(i as int),
        decreases src@.len() - i,
    {
        out.push(src[i]);
        i = i + 1;
        proof {
            assert(out@ =~= start + src@.take(i as int));
        }
    }
    proof {
        assert(src@.take(src@.len() as int) =~= src@);
    }
}

/// The commitment at piece `k`, if it encodes a point of the subgroup.
fn read_commitment(bytes: &[u8], k: usize) -> (r: Option<Commitment>)
    requires
        bytes@.len() >= PROOF_SIZE,
        k < 11,
    ensures
        r.is_some() == is_g1_encoding(decode_commitments(bytes@)[k as int]),
        r.is_some() ==> r.unwrap()@ == decode_commitments(bytes@)[k as int],
{
    let start = 48 * k;
    Commitment::from_bytes(vstd::slice::slice_subrange(bytes, start, start + 48))
}

/// The evaluation at piece `11 + k`, if it spells a value below the field
/// order.
fn read_evaluation(bytes: &[u8], k: usize) -> (r: Option<Scalar>)
    requires
        bytes@.len() >= PROOF_SIZE,
        k < 16,
    ensures
        r.is_some() == (decode_evaluations(bytes@)[k as int] < modulus()),
        r.is_some() ==> r.unwrap()@ == decode_evaluations(bytes@)[k as int],
{
    let start = 528 + 32 * k;
    Scalar::from_bytes(vstd::slice::slice_subrange(bytes, start, start + 32))
}

/// The encoding of a proof lays its fields out in declaration order, each
/// at its own offset: `a_comm` in bytes 0..48, `b_comm` in 48..96, `c_comm`
/// in 96..144, and so on to `w_zw_comm` in 480..528; then the evaluations,
/// 32 bytes each, `a_eval` in 528..560 through `permutation_eval` in
/// 1008..1040.
pub proof fn lemma_proof_layout(p: Proof)
    requires
        p.a_comm.valid(),
        p.b_comm.valid(),
        p.c_comm.valid(),
        p.d_comm.valid(),
        p.z_comm.valid(),
        p.t_1_comm.valid(),
        p.t_2_comm.valid(),
        p.t_3_comm.valid(),
        p.t_4_comm.valid(),
        p.w_z_comm.valid(),
        p.w_zw_comm.valid(),
    ensures
        encode_proof(p.commitments(), p.evaluations.values()).subrange(0, 48) == p.a_comm@,
        encode_proof(p.commitments(), p.evaluations.values()).subrange(48, 96) == p.b_comm@,
        encode_proof(p.commitments(), p.evaluations.values()).subrange(96, 144) == p.c_comm@,
        encode_proof(p.commitments(), p.evaluations.values()).subrange(144, 192) == p.d_comm@,
        encode_proof(p.commitments(), p.evaluations.values()).subrange(192, 240) == p.z_comm@,
        encode_proof(p.commitments(), p.evaluations.values()).subrange(240, 288) == p.t_1_comm@,
        encode_proof(p.commitments(), p.evaluations.values()).subrange(288, 336) == p.t_2_comm@,
        encode_proof(p.commitments(), p.evaluations.values()).subrange(336, 384) == p.t_3_comm@,
        encode_proof(p.commitments(), p.evaluations.values()).subrange(384, 432) == p.t_4_comm@,
        encode_proof(p.commitments(), p.evaluations.values()).subrange(432, 480) == p.w_z_comm@,
        encode_proof(p.commitments(), p.evaluations.values()).subrange(480, 528) == p.w_zw_comm@,
        encode_proof(p.commitments(), p.evaluations.values()).subrange(528, 560) == scalar_bytes(p.evaluations.a_eval@),
        encode_proof(p.commitments(), p.evaluations.values()).subrange(560, 592) == scalar_bytes(p.evaluations.b_eval@),
        encode_proof(p.commitments(), p.evaluations.values()).subrange(592, 624) == scalar_bytes(p.evaluations.c_eval@),
        encode_proof(p.commitments(), p.evaluations.values()).subrange(624, 656) == scalar_bytes(p.evaluations.d_eval@),
        encode_proof(p.commitments(), p.evaluations.values()).subrange(656, 688) == scalar_bytes(p.evaluations.a_next_eval@),
        encode_proof(p.commitments(), p.evaluations.values()).subrange(688, 720) == scalar_bytes(p.evaluations.b_next_eval@),
        encode_proof(p.commitments(), p.evaluations.values()).subrange(720, 752) == scalar_bytes(p.evaluations.d_next_eval@),
        encode_proof(p.commitments(), p.evaluations.values()).subrange(752, 784) == scalar_bytes(p.evaluations.q_arith_eval@),
        encode_proof(p.commitments(), p.evaluations.values()).subrange(784, 816) == scalar_bytes(p.evaluations.q_c_eval@),
        encode_proof(p.commitments(), p.evaluations.values()).subrange(816, 848) == scalar_bytes(p.evaluations.q_l_eval@),
        encode_proof(p.commitments(), p.evaluations.values()).subrange(848, 880) == scalar_bytes(p.evaluations.q_r_eval@),
        encode_proof(p.commitments(), p.evaluations.values()).subrange(880, 912) == scalar_bytes(p.evaluations.left_sigma_eval@),
        encode_proof(p.commitments(), p.evaluations.values()).subrange(912, 944) == scalar_bytes(p.evaluations.right_sigma_eval@),
        encode_proof(p.commitments(), p.evaluations.values()).subrange(944, 976) == scalar_bytes(p.evaluations.out_sigma_eval@),
        encode_proof(p.commitments(), p.evaluations.values()).subrange(976, 1008) == scalar_bytes(p.evaluations.linearisation_polynomial_eval@),
        encode_proof(p.commitments(), p.evaluations.values()).subrange(1008, 1040) == scalar_bytes(p.evaluations.permutation_eval@),
{
    p.a_comm.lemma_valid();
    p.b_comm.lemma_valid();
    p.c_comm.lemma_valid();
    p.d_comm.lemma_valid();
    p.z_comm.lemma_valid();
    p.t_1_comm.lemma_valid();
    p.t_2_comm.lemma_valid();
    p.t_3_comm.lemma_valid();
    p.t_4_comm.lemma_valid();
    p.w_z_comm.lemma_valid();
    p.w_zw_comm.lemma_valid();
    let chunks = proof_chunks(p.commitments(), p.evaluations.values());
    assert forall|k: int| 0 <= k < chunks.len() implies #[trigger] chunks[k].len() == chunk_len(k) by {
        if k >= 11 {
            assert(chunks[k] == scalar_bytes(p.evaluations.values()[k - 11]));
        }
    }
    lemma_concat_chunks(chunks);
    let all = concat_all(chunks);
    assert(all.subrange(chunk_offset(0), chunk_offset(0) + chunk_len(0)) == chunks[0]);
    assert(all.subrange(chunk_offset(1), chunk_offset(1) + chunk_len(1)) == chunks[1]);
    assert(all.subrange(chunk_offset(2), chunk_offset(2) + chunk_len(2)) == chunks[2]);
    assert(all.subrange(chunk_offset(3), chunk_offset(3) + chunk_len(3)) == chunks[3]);
    assert(all.subrange(chunk_offset(4), chunk_offset(4) + chunk_len(4)) == chunks[4]);
    assert(all.subrange(chunk_offset(5), chunk_offset(5) + chunk_len(5)) == chunks[5]);
    assert(all.subrange(chunk_offset(6), chunk_offset(6) + chunk_len(6)) == chunks[6]);
    assert(all.subrange(chunk_offset(7), chunk_offset(7) + chunk_len(7)) == chunks[7]);
    assert(all.subrange(chunk_offset(8), chunk_offset(8) + chunk_len(8)) == chunks[8]);
    assert(all.subrange(chunk_offset(9), chunk_offset(9) + chunk_len(9)) == chunks[9]);
    assert(all.subrange(chunk_offset(10), chunk_offset(10) + chunk_len(10)) == chunks[10]);
    assert(all.subrange(chunk_offset(11), chunk_offset(11) + chunk_len(11)) == chunks[11]);
    assert(all.subrange(chunk_offset(12), chunk_offset(12) + chunk_len(12)) == chunks[12]);
    assert(all.subrange(chunk_offset(13), chunk_offset(13) + chunk_len(13)) == chunks[13]);
    assert(all.subrange(chunk_offset(14), chunk_offset(14) + chunk_len(14)) == chunks[14]);
    assert(all.subrange(chunk_offset(15), chunk_offset(15) + chunk_len(15)) == chunks[15]);
    assert(all.subrange(chunk_offset(16), chunk_offset(16) + chunk_len(16)) == chunks[16]);
    assert(all.subrange(chunk_offset(17), chunk_offset(17) + chunk_len(17)) == chunks[17]);
    assert(all.subrange(chunk_offset(18), chunk_offset(18) + chunk_len(18)) == chunks[18]);
    assert(all.subrange(chunk_offset(19), chunk_offset(19) + chunk_len(19)) == chunks[19]);
    assert(all.subrange(chunk_offset(20), chunk_offset(20) + chunk_len(20)) == chunks[20]);
    assert(all.subrange(chunk_offset(21), chunk_offset(21) + chunk_len(21)) == chunks[21]);
    assert(all.subrange(chunk_offset(22), chunk_offset(22) + chunk_len(22)) == chunks[22]);
    assert(all.subrange(chunk_offset(23), chunk_offset(23) + chunk_len(23)) == chunks[23]);
    assert(all.subrange(chunk_offset(24), chunk_offset(24) + chunk_len(24)) == chunks[24]);
    assert(all.subrange(chunk_offset(25), chunk_offset(25) + chunk_len(25)) == chunks[25]);
    assert(all.subrange(chunk_offset(26), chunk_offset(26) + chunk_len(26)) == chunks[26]);
}

/// Reading a proof from bytes takes each field from its own offset, in
/// declaration order: `a_comm` from bytes 0..48, `b_comm` from 48..96,
/// `c_comm` from 96..144, and so on; the evaluations, 32 bytes each, from
/// 528 on.
pub proof fn lemma_proof_fields_from_bytes(p: Proof, bytes: Seq<u8>)
    requires
        p.commitments() == decode_commitments(bytes),
        p.evaluations.values() == decode_evaluations(bytes),
    ensures
        p.a_comm@ == bytes.subrange(0, 48),
        p.b_comm@ == bytes.subrange(48, 96),
        p.c_comm@ == bytes.subrange(96, 144),
        p.d_comm@ == bytes.subrange(144, 192),
        p.z_comm@ == bytes.subrange(192, 240),
        p.t_1_comm@ == bytes.subrange(240, 288),
        p.t_2_comm@ == bytes.subrange(288, 336),
        p.t_3_comm@ == bytes.subrange(336, 384),
        p.t_4_comm@ == bytes.subrange(384, 432),
        p.w_z_comm@ == bytes.subrange(432, 480),
        p.w_zw_comm@ == bytes.subrange(480, 528),
        p.evaluations.a_eval@ == le_bytes_value(bytes.subrange(528, 560)),
        p.evaluations.b_eval@ == le_bytes_value(bytes.subrange(560, 592)),
        p.evaluations.c_eval@ == le_bytes_value(bytes.subrange(592, 624)),
        p.evaluations.d_eval@ == le_bytes_value(bytes.subrange(624, 656)),
        p.evaluations.a_next_eval@ == le_bytes_value(bytes.subrange(656, 688)),
        p.evaluations.b_next_eval@ == le_bytes_value(bytes.subrange(688, 720)),
        p.evaluations.d_next_eval@ == le_bytes_value(bytes.subrange(720, 752)),
        p.evaluations.q_arith_eval@ == le_bytes_value(bytes.subrange(752, 784)),
        p.evaluations.q_c_eval@ == le_bytes_value(bytes.subrange(784, 816)),
        p.evaluations.q_l_eval@ == le_bytes_value(bytes.subrange(816, 848)),
        p.evaluations.q_r_eval@ == le_bytes_value(bytes.subrange(848, 880)),
        p.evaluations.left_sigma_eval@ == le_bytes_value(bytes.subrange(880, 912)),
        p.evaluations.right_sigma_eval@ == le_bytes_value(bytes.subrange(912, 944)),
        p.evaluations.out_sigma_eval@ == le_bytes_value(bytes.subrange(944, 976)),
        p.evaluations.linearisation_polynomial_eval@ == le_bytes_value(bytes.subrange(976, 1008)),
        p.evaluations.permutation_eval@ == le_bytes_value(bytes.subrange(1008, 1040)),
{
    assert(decode_commitments(bytes)[0] == p.commitments()[0]);
    assert(decode_commitments(bytes)[1] == p.commitments()[1]);
    assert(decode_commitments(bytes)[2] == p.commitments()[2]);
    assert(decode_commitments(bytes)[3] == p.commitments()[3]);
    assert(decode_commitments(bytes)[4] == p.commitments()[4]);
    assert(decode_commitments(bytes)[5] == p.commitments()[5]);
    assert(decode_commitments(bytes)[6] == p.commitments()[6]);
    assert(decode_commitments(bytes)[7] == p.commitments()[7]);
    assert(decode_commitments(bytes)[8] == p.commitments()[8]);
    assert(decode_commitments(bytes)[9] == p.commitments()[9]);
    assert(decode_commitments(bytes)[10] == p.commitments()[10]);
    assert(decode_evaluations(bytes)[0] == p.evaluations.values()[0]);
    assert(decode_evaluations(bytes)[1] == p.evaluations.values()[1]);
    assert(decode_evaluations(bytes)[2] == p.evaluations.values()[2]);
    assert(decode_evaluations(bytes)[3] == p.evaluations.values()[3]);
    assert(decode_evaluations(bytes)[4] == p.evaluations.values()[4]);
    assert(decode_evaluations(bytes)[5] == p.evaluations.values()[5]);
    assert(decode_evaluations(bytes)[6] == p.evaluations.values()[6]);
    assert(decode_evaluations(bytes)[7] == p.evaluations.values()[7]);
    assert(decode_evaluations(bytes)[8] == p.evaluations.values()[8]);
    assert(decode_evaluations(bytes)[9] == p.evaluations.values()[9]);
    assert(decode_evaluations(bytes)[10] == p.evaluations.values()[10]);
    assert(decode_evaluations(bytes)[11] == p.evaluations.values()[11]);
    assert(decode_evaluations(bytes)[12] == p.evaluations.values()[12]);
    assert(decode_evaluations(bytes)[13] == p.evaluations.values()[13]);
    assert(decode_evaluations(bytes)[14] == p.evaluations.values()[14]);
    assert(decode_evaluations(bytes)[15] == p.evaluations.values()[15]);
}

impl Proof {
    /// The encoding: the commitments, compressed, then the evaluations, in
    /// declaration order.
    pub fn to_bytes(&self) -> (r: Vec<u8>)
        ensures
            r@ == encode_proof(self.commitments(), self.evaluations.values()),
            proof_bytes_valid(r@),
            decode_commitments(r@) == self.commitments(),
            decode_evaluations(r@) == self.evaluations.values(),
            r@.subrange(0, 48) == self.a_comm@,
            r@.subrange(48, 96) == self.b_comm@,
            r@.subrange(96, 144) == self.c_comm@,
            r@.subrange(144, 192) == self.d_comm@,
            r@.subrange(192, 240) == self.z_comm@,
            r@.subrange(240, 288) == self.t_1_comm@,
            r@.subrange(288, 336) == self.t_2_comm@,
            r@.subrange(336, 384) == self.t_3_comm@,
            r@.subrange(384, 432) == self.t_4_comm@,
            r@.subrange(432, 480) == self.w_z_comm@,
            r@.subrange(480, 528) == self.w_zw_comm@,
    {
        let mut chunks: Vec<Vec<u8>> = Vec::new();
        chunks.push(self.a_comm.to_bytes().clone());
        chunks.push(self.b_comm.to_bytes().clone());
        chunks.push(self.c_comm.to_bytes().clone());
        chunks.push(self.d_comm.to_bytes().clone());
        chunks.push(self.z_comm.to_bytes().clone());
        chunks.push(self.t_1_comm.to_bytes().clone());
        chunks.push(self.t_2_comm.to_bytes().clone());
        chunks.push(self.t_3_comm.to_bytes().clone());
        chunks.push(self.t_4_comm.to_bytes().clone());
        chunks.push(self.w_z_comm.to_bytes().clone());
        chunks.push(self.w_zw_comm.to_bytes().clone());
        let e = &self.evaluations;
        chunks.push(e.a_eval.to_bytes());
        chunks.push(e.b_eval.to_bytes());
        chunks.push(e.c_eval.to_bytes());
        chunks.push(e.d_eval.to_bytes());
        chunks.push(e.a_next_eval.to_bytes());
        chunks.push(e.b_next_eval.to_bytes());
        chunks.push(e.d_next_eval.to_bytes());
        chunks.push(e.q_arith_eval.to_bytes());
        chunks.push(e.q_c_eval.to_bytes());
        chunks.push(e.q_l_eval.to_bytes());
        chunks.push(e.q_r_eval.to_bytes());
        chunks.push(e.left_sigma_eval.to_bytes());
        chunks.push(e.right_sigma_eval.to_bytes());
        chunks.push(e.out_sigma_eval.to_bytes());
        chunks.push(e.linearisation_polynomial_eval.to_bytes());
        chunks.push(e.permutation_eval.to_bytes());
        let ghost pieces = proof_chunks(self.commitments(), self.evaluations.values());
        proof {
            assert forall|k: int| 0 <= k < 27 implies #[trigger] chunks@[k]@ == pieces[k] by {
                if k >= 11 {
                    assert(chunks@[k]@ =~= scalar_bytes(self.evaluations.values()[k - 11]));
                } else {
                    assert(chunks@[k]@ =~= self.commitments()[k]);
                }
            }
        }
        let mut out: Vec<u8> = Vec::new();
        let mut k: usize = 0;
        while k < chunks.len()
            invariant
                chunks@.len() == 27,
                pieces.len() == 27,
                forall|j: int| 0 <= j < 27 ==> #[trigger] chunks@[j]@ == pieces[j],
                k <= 27,
                out@ == concat_all(pieces.take(k as int)),
            decreases 27 - k,
        {
            append_bytes(&mut out, chunks[k].as_slice());
            proof {
                assert(pieces.take((k + 1) as int).drop_last() =~= pieces.take(k as int));
            }
            k = k + 1;
        }
        proof {
            assert(pieces.take(27) =~= pieces);
            use_type_invariant(&self.a_comm);
            use_type_invariant(&self.b_comm);
            use_type_invariant(&self.c_comm);
            use_type_invariant(&self.d_comm);
            use_type_invariant(&self.z_comm);
            use_type_invariant(&self.t_1_comm);
            use_type_invariant(&self.t_2_comm);
            use_type_invariant(&self.t_3_comm);
            use_type_invariant(&self.t_4_comm);
            use_type_invariant(&self.w_z_comm);
            use_type_invariant(&self.w_zw_comm);
            self.a_comm.lemma_valid();
            self.b_comm.lemma_valid();
            self.c_comm.lemma_valid();
            self.d_comm.lemma_valid();
            self.z_comm.lemma_valid();
            self.t_1_comm.lemma_valid();
            self.t_2_comm.lemma_valid();
            self.t_3_comm.lemma_valid();
            self.t_4_comm.lemma_valid();
            self.w_z_comm.lemma_valid();
            self.w_zw_comm.lemma_valid();
            use_type_invariant(&e.a_eval);
            use_type_invariant(&e.b_eval);
            use_type_invariant(&e.c_eval);
            use_type_invariant(&e.d_eval);
            use_type_invariant(&e.a_next_eval);
            use_type_invariant(&e.b_next_eval);
            use_type_invariant(&e.d_next_eval);
            use_type_invariant(&e.q_arith_eval);
            use_type_invariant(&e.q_c_eval);
            use_type_invariant(&e.q_l_eval);
            use_type_invariant(&e.q_r_eval);
            use_type_invariant(&e.left_sigma_eval);
            use_type_invariant(&e.right_sigma_eval);
            use_type_invariant(&e.out_sigma_eval);
            use_type_invariant(&e.linearisation_polynomial_eval);
            use_type_invariant(&e.permutation_eval);
            let vals = self.evaluations.values();
            assert forall|j: int| 0 <= j < 16 implies #[trigger] vals[j] < modulus() by {
                e.a_eval.lemma_canonical();
                e.b_eval.lemma_canonical();
                e.c_eval.lemma_canonical();
                e.d_eval.lemma_canonical();
                e.a_next_eval.lemma_canonical();
                e.b_next_eval.lemma_canonical();
                e.d_next_eval.lemma_canonical();
                e.q_arith_eval.lemma_canonical();
                e.q_c_eval.lemma_canonical();
                e.q_l_eval.lemma_canonical();
                e.q_r_eval.lemma_canonical();
                e.left_sigma_eval.lemma_canonical();
                e.right_sigma_eval.lemma_canonical();
                e.out_sigma_eval.lemma_canonical();
                e.linearisation_polynomial_eval.lemma_canonical();
                e.permutation_eval.lemma_canonical();
            }
            lemma_proof_encoding_roundtrip(self.commitments(), vals);
            lemma_proof_layout(*self);
        }
        out
    }

    /// The proof that bytes encode (their first `PROOF_SIZE` bytes), if
    /// every commitment is a point of the subgroup and every evaluation is
    /// below the field order.
    pub fn from_bytes(bytes: &[u8]) -> (r: Option<Proof>)
        ensures
            r.is_some() == proof_bytes_valid(bytes@),
            r.is_some() ==> r.unwrap().commitments() == decode_commitments(bytes@)
                && r.unwrap().evaluations.values() == decode_evaluations(bytes@),
            r.is_some() ==> encode_proof(r.unwrap().commitments(), r.unwrap().evaluations.values()) == bytes@.take(
                PROOF_SIZE as int,
            ),
            r.is_some() ==> r.unwrap().a_comm@ == bytes@.subrange(0, 48),
            r.is_some() ==> r.unwrap().b_comm@ == bytes@.subrange(48, 96),
            r.is_some() ==> r.unwrap().c_comm@ == bytes@.subrange(96, 144),
            r.is_some() ==> r.unwrap().d_comm@ == bytes@.subrange(144, 192),
            r.is_some() ==> r.unwrap().z_comm@ == bytes@.subrange(192, 240),
            r.is_some() ==> r.unwrap().t_1_comm@ == bytes@.subrange(240, 288),
            r.is_some() ==> r.unwrap().t_2_comm@ == bytes@.subrange(288, 336),
            r.is_some() ==> r.unwrap().t_3_comm@ == bytes@.subrange(336, 384),
            r.is_some() ==> r.unwrap().t_4_comm@ == bytes@.subrange(384, 432),
            r.is_some() ==> r.unwrap().w_z_comm@ == bytes@.subrange(432, 480),
            r.is_some() ==> r.unwrap().w_zw_comm@ == bytes@.subrange(480, 528),
    {
        if bytes.len() < PROOF_SIZE {
            return None;
        }
        let a_comm = match read_commitment(bytes, 0) { Some(c) => c, None => return None };
        let b_comm = match read_commitment(bytes, 1) { Some(c) => c, None => return None };
        let c_comm = match read_commitment(bytes, 2) { Some(c) => c, None => return None };
        let d_comm = match read_commitment(bytes, 3) { Some(c) => c, None => return None };
        let z_comm = match read_commitment(bytes, 4) { Some(c) => c, None => return None };
        let t_1_comm = match read_commitment(bytes, 5) { Some(c) => c, None => return None };
        let t_2_comm = match read_commitment(bytes, 6) { Some(c) => c, None => return None };
        let t_3_comm = match read_commitment(bytes, 7) { Some(c) => c, None => return None };
        let t_4_comm = match read_commitment(bytes, 8) { Some(c) => c, None => return None };
        let w_z_comm = match read_commitment(bytes, 9) { Some(c) => c, None => return None };
        let w_zw_comm = match read_commitment(bytes, 10) { Some(c) => c, None => return None };
        let a_eval = match read_evaluation(bytes, 0) { Some(v) => v, None => return None };
        let b_eval = match read_evaluation(bytes, 1) { Some(v) => v, None => return None };
        let c_eval = match read_evaluation(bytes, 2) { Some(v) => v, None => return None };
        let d_eval = match read_evaluation(bytes, 3) { Some(v) => v, None => return None };
        let a_next_eval = match read_evaluation(bytes, 4) { Some(v) => v, None => return None };
        let b_next_eval = match read_evaluation(bytes, 5) { Some(v) => v, None => return None };
        let d_next_eval = match read_evaluation(bytes, 6) { Some(v) => v, None => return None };
        let q_arith_eval = match read_evaluation(bytes, 7) { Some(v) => v, None => return None };
        let q_c_eval = match read_evaluation(bytes, 8) { Some(v) => v, None => return None };
        let q_l_eval = match read_evaluation(bytes, 9) { Some(v) => v, None => return None };
        let q_r_eval = match read_evaluation(bytes, 10) { Some(v) => v, None => return None };
        let left_sigma_eval = match read_evaluation(bytes, 11) { Some(v) => v, None => return None };
        let right_sigma_eval = match read_evaluation(bytes, 12) { Some(v) => v, None => return None };
        let out_sigma_eval = match read_evaluation(bytes, 13) { Some(v) => v, None => return None };
        let linearisation_polynomial_eval = match read_evaluation(bytes, 14) { Some(v) => v, None => return None };
        let permutation_eval = match read_evaluation(bytes, 15) { Some(v) => v, None => return None };
        let r = Proof {
            a_comm,
            b_comm,
            c_comm,
            d_comm,
            z_comm,
            t_1_comm,
            t_2_comm,
            t_3_comm,
            t_4_comm,
            w_z_comm,
            w_zw_comm,
            evaluations: ProofEvaluations {
                a_eval,
                b_eval,
                c_eval,
                d_eval,
                a_next_eval,
                b_next_eval,
                d_next_eval,
                q_arith_eval,
                q_c_eval,
                q_l_eval,
                q_r_eval,
                left_sigma_eval,
                right_sigma_eval,
                out_sigma_eval,
                linearisation_polynomial_eval,
                permutation_eval,
            },
        };
        proof {
            assert(r.commitments() =~= decode_commitments(bytes@));
            assert(r.evaluations.values() =~= decode_evaluations(bytes@));
            lemma_proof_decoding_roundtrip(bytes@);
            lemma_proof_fields_from_bytes(r, bytes@);
        }
        Some(r)
    }
}

} // verus!
