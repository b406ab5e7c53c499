//! The transform and the inverse transform undo each other: over a domain
//! whose generator has order exactly its size, evaluating the interpolation
//! of some values gives back those values, and interpolating the values of
//! a polynomial gives back its coefficients.
use crate::domain::{fft_spec, ifft_spec, is_pow2, poly_eval, prefix, trim_zeros, EvaluationDomain};
use crate::field::{finv, fmul, fpow, fsub, is_inverse, modulus};
use crate::proof_system::{
    barycentric_denominator, barycentric_eval, barycentric_full_sum, barycentric_term, lemma_barycentric_full_sum,
};
use vstd::arithmetic::div_mod::*;
use vstd::arithmetic::mul::*;
use vstd::arithmetic::power::*;
use vstd::prelude::*;

verus! {

/// `f(0) + f(1) + ... + f(k - 1)` over the integers.
pub open spec fn fsum(f: spec_fn(int) -> int, k: nat) -> int
    decreases k,
{
    if k == 0 {
        0
    } else {
        fsum(f, (k - 1) as nat) + f(k - 1)
    }
}

/// Sums of equal terms are equal.
proof fn lemma_fsum_ext(f: spec_fn(int) -> int, g: spec_fn(int) -> int, k: nat)
    requires
        forall|j: int| 0 <= j < k ==> #[trigger] f(j) == g(j),
    ensures
        fsum(f, k) == fsum(g, k),
    decreases k,
{
    if k > 0 {
        lemma_fsum_ext(f, g, (k - 1) as nat);
    }
}

/// Sums of congruent terms are congruent.
proof fn lemma_fsum_mod(f: spec_fn(int) -> int, g: spec_fn(int) -> int, k: nat, m: int)
    requires
        m > 0,
        forall|j: int| 0 <= j < k ==> #[trigger] f(j) % m == g(j) % m,
    ensures
        fsum(f, k) % m == fsum(g, k) % m,
    decreases k,
{
    if k > 0 {
        lemma_fsum_mod(f, g, (k - 1) as nat, m);
        lemma_add_mod_noop(fsum(f, (k - 1) as nat), f(k - 1), m);
        lemma_add_mod_noop(fsum(g, (k - 1) as nat), g(k - 1), m);
    }
}

/// A constant factor comes out of a sum.
proof fn lemma_fsum_scale(f: spec_fn(int) -> int, g: spec_fn(int) -> int, c: int, k: nat)
    requires
        forall|j: int| 0 <= j < k ==> #[trigger] g(j) == c * f(j),
    ensures
        fsum(g, k) == c * fsum(f, k),
    decreases k,
{
    if k > 0 {
        lemma_fsum_scale(f, g, c, (k - 1) as nat);
        lemma_mul_is_distributive_add(c, fsum(f, (k - 1) as nat), f(k - 1));
    }
}

/// A sum of `a + b` terms is the sum of the first `a` and of the next `b`.
proof fn lemma_fsum_split(f: spec_fn(int) -> int, g: spec_fn(int) -> int, a: nat, b: nat)
    requires
        forall|j: int| 0 <= j < b ==> #[trigger] g(j) == f(j + a),
    ensures
        fsum(f, a + b) == fsum(f, a) + fsum(g, b),
    decreases b,
{
    if b > 0 {
        lemma_fsum_split(f, g, a, (b - 1) as nat);
        assert(fsum(f, a + b) == fsum(f, (a + b - 1) as nat) + f(a + b - 1));
    }
}

/// A sum of sums is the sum of the two sums.
proof fn lemma_fsum_add(f: spec_fn(int) -> int, g: spec_fn(int) -> int, h: spec_fn(int) -> int, k: nat)
    requires
        forall|j: int| 0 <= j < k ==> #[trigger] h(j) == f(j) + g(j),
    ensures
        fsum(h, k) == fsum(f, k) + fsum(g, k),
    decreases k,
{
    if k > 0 {
        lemma_fsum_add(f, g, h, (k - 1) as nat);
    }
}

/// Row `j` of a table of terms.
pub open spec fn table_row(t: spec_fn(int, int) -> int, j: int) -> spec_fn(int) -> int {
    |k: int| t(j, k)
}

/// Column `k` of a table of terms.
pub open spec fn table_col(t: spec_fn(int, int) -> int, k: int) -> spec_fn(int) -> int {
    |j: int| t(j, k)
}

/// The sums of the first `m` entries of each row.
pub open spec fn row_sums(t: spec_fn(int, int) -> int, m: nat) -> spec_fn(int) -> int {
    |j: int| fsum(table_row(t, j), m)
}

/// The sums of the first `n` entries of each column.
pub open spec fn col_sums(t: spec_fn(int, int) -> int, n: nat) -> spec_fn(int) -> int {
    |k: int| fsum(table_col(t, k), n)
}

/// The order of summation in a double sum does not matter.
proof fn lemma_fsum_swap(t: spec_fn(int, int) -> int, n: nat, m: nat)
    ensures
        fsum(row_sums(t, m), n) == fsum(col_sums(t, n), m),
    decreases n,
{
    if n > 0 {
        let l = (n - 1) as nat;
        lemma_fsum_swap(t, l, m);
        assert(fsum(row_sums(t, m), n) == fsum(row_sums(t, m), l) + fsum(table_row(t, l as int), m));
        assert forall|k: int| 0 <= k < m implies #[trigger] col_sums(t, n)(k) == col_sums(t, l)(k) + table_row(
            t,
            l as int,
        )(k) by {
            assert(fsum(table_col(t, k), n) == fsum(table_col(t, k), l) + table_col(t, k)(l as int));
        }
        lemma_fsum_add(col_sums(t, l), table_row(t, l as int), col_sums(t, n), m);
    } else {
        assert forall|k: int| 0 <= k < m implies #[trigger] col_sums(t, 0)(k) == 0 by {
            assert(fsum(table_col(t, k), 0) == 0);
        }
        lemma_fsum_zero(col_sums(t, 0), m);
    }
}

/// A sum whose terms vanish but at `i` is the term at `i`.
proof fn lemma_fsum_single(f: spec_fn(int) -> int, k: nat, i: int)
    requires
        0 <= i < k,
        forall|j: int| 0 <= j < k && j != i ==> #[trigger] f(j) == 0,
    ensures
        fsum(f, k) == f(i),
    decreases k,
{
    if k - 1 > i {
        lemma_fsum_single(f, (k - 1) as nat, i);
    } else {
        lemma_fsum_zero(f, (k - 1) as nat);
    }
}

/// A sum of zeros is zero.
proof fn lemma_fsum_zero(f: spec_fn(int) -> int, k: nat)
    requires
        forall|j: int| 0 <= j < k ==> #[trigger] f(j) == 0,
    ensures
        fsum(f, k) == 0,
    decreases k,
{
    if k > 0 {
        lemma_fsum_zero(f, (k - 1) as nat);
    }
}

/// `(m - 1)^r` is `1` or `m - 1` modulo `m`, by the parity of `r`.
proof fn lemma_minus_one_pow(m: int, r: nat)
    requires
        m > 1,
    ensures
        pow(m - 1, r) % m == if r % 2 == 0 { 1 } else { m - 1 },
    decreases r,
{
    reveal(pow);
    if r == 0 {
        lemma_small_mod(1, m as nat);
    } else {
        lemma_minus_one_pow(m, (r - 1) as nat);
        lemma_mul_mod_noop_right(m - 1, pow(m - 1, (r - 1) as nat), m);
        if (r - 1) % 2 == 0 {
            lemma_small_mod((m - 1) as nat, m as nat);
        } else {
            assert((m - 1) * (m - 1) == m * (m - 2) + 1) by (nonlinear_arith);
            lemma_fundamental_div_mod_converse((m - 1) * (m - 1), m, m - 2, 1);
        }
    }
}

/// The terms `y^(r j)` for `j = 0, 1, ...`.
pub open spec fn power_terms(y: int, r: nat) -> spec_fn(int) -> int {
    |j: int| pow(y, (r * j) as nat)
}

/// Raising a number congruent to minus one to the `r`-th power.
pub(crate) proof fn lemma_pow_of_minus_one(x: int, r: nat)
    requires
        x % (modulus() as int) == modulus() - 1,
    ensures
        pow(x, r) % (modulus() as int) == if r % 2 == 0 { 1 } else { modulus() - 1 },
{
    let p = modulus() as int;
    lemma_pow_mod_noop(x, r, p);
    lemma_minus_one_pow(p, r);
}

/// If `y^(m/2)` is minus one, the sum of `y^(r j)` over `j < m` vanishes
/// for every `0 < r < m` (`m` a power of two).
proof fn lemma_root_sum_zero(y: int, m: nat, r: nat)
    requires
        is_pow2(m),
        m >= 2,
        pow(y, m / 2) % (modulus() as int) == modulus() - 1,
        0 < r < m,
    ensures
        fsum(power_terms(y, r), m) % (modulus() as int) == 0,
    decreases m,
{
    let p = modulus() as int;
    let h = m / 2;
    assert(m == h + h);
    let f = power_terms(y, r);
    let big_y = pow(y, r * h);
    let g = |j: int| pow(y, (r * j) as nat) * big_y;
    assert forall|j: int| 0 <= j < h implies #[trigger] g(j) == f(j + h) by {
        assert(r * (j + h) == r * j + r * h) by (nonlinear_arith);
        assert(r * j >= 0) by (nonlinear_arith)
            requires
                j >= 0,
        ;
        lemma_pow_adds(y, (r * j) as nat, r * h);
    }
    lemma_fsum_split(f, g, h, h);
    let g2 = |j: int| big_y * f(j);
    assert forall|j: int| 0 <= j < h implies #[trigger] g(j) == big_y * f(j) by {
        lemma_mul_is_commutative(pow(y, (r * j) as nat), big_y);
    }
    lemma_fsum_scale(f, g, big_y, h);
    let a = fsum(f, h);
    // The whole sum is a (1 + Y).
    assert(fsum(f, m) == a + big_y * a);
    assert(a + big_y * a == a * (1 + big_y)) by (nonlinear_arith);
    lemma_pow_multiplies(y, h, r);
    assert(h * r == r * h) by (nonlinear_arith);
    lemma_pow_of_minus_one(pow(y, h), r);
    if r % 2 == 1 {
        // Y is minus one.
        lemma_add_mod_noop(1, big_y, p);
        assert((1 + big_y) % p == 0);
        lemma_mul_mod_noop_right(a, 1 + big_y, p);
    } else {
        // Y is one and the half sum vanishes, by the same fact for `y^2`.
        let s = r / 2;
        assert(r == 2 * s);
        assert(is_pow2(h));
        assert(h >= 2);
        assert(h % 2 == 0);
        let y2 = pow(y, 2);
        assert forall|j: int| 0 <= j < h implies #[trigger] f(j) == power_terms(y2, s)(j) by {
            assert(r * j == 2 * (s * j)) by (nonlinear_arith)
                requires
                    r == 2 * s,
            ;
            assert(s * j >= 0) by (nonlinear_arith)
                requires
                    j >= 0,
            ;
            lemma_pow_multiplies(y, 2, (s * j) as nat);
        }
        lemma_fsum_ext(f, power_terms(y2, s), h);
        lemma_pow_multiplies(y, 2, h / 2);
        assert(2 * (h / 2) == h);
        lemma_root_sum_zero(y2, h, s);
        assert(a % p == 0);
        lemma_mul_mod_noop_left(a, 1 + big_y, p);
    }
}

/// The terms `c_j x^j` of a polynomial at `x`.
pub open spec fn coeff_terms(c: Seq<nat>, x: int) -> spec_fn(int) -> int {
    |j: int| c[j] * pow(x, j as nat)
}

/// Horner's rule: the value of a polynomial is the sum of its terms,
/// reduced.
proof fn lemma_poly_eval_sum(c: Seq<nat>, x: nat)
    ensures
        poly_eval(c, x) == fsum(coeff_terms(c, x as int), c.len()) % (modulus() as int),
    decreases c.len(),
{
    let p = modulus() as int;
    if c.len() > 0 {
        let t = c.subrange(1, c.len() as int);
        lemma_poly_eval_sum(t, x);
        let xi = x as int;
        let st = fsum(coeff_terms(t, xi), t.len());
        let f = coeff_terms(c, xi);
        let g = |j: int| xi * coeff_terms(t, xi)(j);
        assert forall|j: int| 0 <= j < t.len() implies #[trigger] g(j) == f(j + 1) by {
            lemma_pow_adds(xi, 1, j as nat);
            lemma_pow1(xi);
            assert(pow(xi, (j + 1) as nat) == xi * pow(xi, j as nat));
            assert(t[j] == c[j + 1]);
            lemma_mul_is_associative(c[j + 1] as int, xi, pow(xi, j as nat));
            lemma_mul_is_commutative(c[j + 1] as int, xi);
            lemma_mul_is_associative(xi, c[j + 1] as int, pow(xi, j as nat));
        }
        lemma_fsum_split(f, g, 1, t.len());
        lemma_pow0(xi);
        assert(fsum(f, 0) == 0);
        assert(fsum(f, 1) == fsum(f, 0) + f(0));
        assert(f(0) == c[0]);
        lemma_fsum_scale(coeff_terms(t, xi), g, xi, t.len());
        assert(fsum(f, c.len()) == c[0] + xi * st);
        lemma_mul_mod_noop_right(xi, st, p);
        lemma_add_mod_noop_right(c[0] as int, xi * st, p);
    }
}

/// Congruent points give congruent sums of terms.
proof fn lemma_coeff_terms_mod(c: Seq<nat>, x: int, y: int, k: nat)
    requires
        x % (modulus() as int) == y % (modulus() as int),
    ensures
        fsum(coeff_terms(c, x), k) % (modulus() as int) == fsum(coeff_terms(c, y), k) % (modulus() as int),
{
    let p = modulus() as int;
    assert forall|j: int| 0 <= j < k implies #[trigger] coeff_terms(c, x)(j) % p == coeff_terms(c, y)(j) % p by {
        lemma_pow_mod_noop(x, j as nat, p);
        lemma_pow_mod_noop(y, j as nat, p);
        lemma_mul_mod_noop_right(c[j] as int, pow(x, j as nat), p);
        lemma_mul_mod_noop_right(c[j] as int, pow(y, j as nat), p);
    }
    lemma_fsum_mod(coeff_terms(c, x), coeff_terms(c, y), k, p);
}

/// The inverse of the generator is its `(n - 1)`-th power, so its powers are
/// powers of the generator.
proof fn lemma_gen_inv_powers(d: EvaluationDomain, j: nat)
    requires
        d.wf(),
    ensures
        (fpow(d.gen_inv(), j) as int) % (modulus() as int) == pow(d.gen() as int, ((d.spec_size() - 1) * j) as nat)
            % (modulus() as int),
{
    let p = modulus() as int;
    let n = d.spec_size();
    let g = d.gen() as int;
    let h = d.gen_inv() as int;
    let big_p = pow(g, (n - 1) as nat);
    lemma_pow_adds(g, 1, (n - 1) as nat);
    lemma_pow1(g);
    assert(pow(g, n) == g * big_p);
    // h = h (g P) = (h g) P = P, modulo p.
    lemma_mul_mod_noop_right(h, g * big_p, p);
    lemma_small_mod(h as nat, p as nat);
    lemma_mul_is_associative(h, g, big_p);
    lemma_mul_is_commutative(h, g);
    lemma_mul_mod_noop_left(h * g, big_p, p);
    lemma_mul_mod_noop_left(g * h, big_p, p);
    assert(h == big_p % p);
    lemma_pow_mod_noop(big_p, j, p);
    lemma_pow_multiplies(g, (n - 1) as nat, j);
    lemma_small_mod(fpow(d.gen_inv(), j), p as nat);
}

/// The terms of the interpolation's sum: `e_k g^((n-1) j k)`.
pub open spec fn interp_sum(d: EvaluationDomain, e: Seq<nat>, j: int) -> int {
    fsum(coeff_terms(e, pow(d.gen() as int, ((d.spec_size() - 1) * (j as nat)) as nat)), d.spec_size())
}

/// Entry `j` of the inverse transform is the inverse size times the sum of
/// `e_k g^((n-1) j k)`, reduced.
proof fn lemma_ifft_entry(d: EvaluationDomain, e: Seq<nat>, j: nat)
    requires
        d.wf(),
        e.len() == d.spec_size(),
        j < d.spec_size(),
    ensures
        ifft_spec(d, e)[j as int] as int == (d.inv_size() * interp_sum(d, e, j as int)) % (modulus() as int),
{
    let p = modulus() as int;
    let n = d.spec_size();
    let x = fpow(d.gen_inv(), j);
    assert(prefix(e, n) == e);
    lemma_poly_eval_sum(e, x);
    lemma_gen_inv_powers(d, j);
    lemma_coeff_terms_mod(e, x as int, pow(d.gen() as int, ((n - 1) * j) as nat), n);
    let s1 = fsum(coeff_terms(e, x as int), n);
    let s2 = interp_sum(d, e, j as int);
    assert(s1 % p == s2 % p);
    lemma_mul_mod_noop_right(d.inv_size() as int, s1, p);
    lemma_mul_mod_noop_right(d.inv_size() as int, s2, p);
}

/// A sum of `k` ones is `k`.
proof fn lemma_fsum_ones(f: spec_fn(int) -> int, k: nat)
    requires
        forall|j: int| 0 <= j < k ==> #[trigger] f(j) == 1,
    ensures
        fsum(f, k) == k,
    decreases k,
{
    if k > 0 {
        lemma_fsum_ones(f, (k - 1) as nat);
    }
}

/// Over a domain of size `n` with generator `g`, the sum of `g^(r j)` for
/// `j < n` is `n` when `n` divides `r` and zero otherwise, modulo `p`.
proof fn lemma_power_sum(d: EvaluationDomain, r: nat)
    requires
        d.wf(),
    ensures
        fsum(power_terms(d.gen() as int, r), d.spec_size()) % (modulus() as int) == if r % d.spec_size() == 0 {
            d.spec_size() as int % (modulus() as int)
        } else {
            0
        },
{
    let p = modulus() as int;
    let n = d.spec_size();
    let g = d.gen() as int;
    let q = r / n;
    let s = r % n;
    lemma_fundamental_div_mod(r as int, n as int);
    assert(r == n * q + s);
    // g^(r j) = (g^n)^(q j) g^(s j), and g^n is one.
    assert forall|j: int| 0 <= j < n implies #[trigger] power_terms(g, r)(j) % p == power_terms(g, s)(j) % p by {
        let qj = (q * j) as nat;
        let sj = (s * j) as nat;
        assert(q * j >= 0 && s * j >= 0) by (nonlinear_arith)
            requires
                j >= 0,
        ;
        assert(r * j == n * qj + sj) by (nonlinear_arith)
            requires
                r == n * q + s,
                qj == q * j,
                sj == s * j,
        ;
        lemma_pow_adds(g, n * qj, sj);
        lemma_pow_multiplies(g, n, qj);
        lemma_pow_mod_noop(pow(g, n), qj, p);
        assert(pow(g, n) % p == 1);
        lemma1_pow(qj);
        lemma_small_mod(1, p as nat);
        lemma_mul_mod_noop_left(pow(pow(g, n), qj), pow(g, sj), p);
    }
    lemma_fsum_mod(power_terms(g, r), power_terms(g, s), n, p);
    if s == 0 {
        assert forall|j: int| 0 <= j < n implies #[trigger] power_terms(g, s)(j) == 1 by {
            lemma_pow0(g);
        }
        lemma_fsum_ones(power_terms(g, s), n);
    } else {
        assert(n >= 2);
        lemma_root_sum_zero(g, n, s);
    }
}

/// `n` divides `(n - 1) k + i` exactly when `k == i`, for `i, k < n`.
proof fn lemma_exponent_mod(n: nat, i: nat, k: nat)
    requires
        i < n,
        k < n,
    ensures
        (((n - 1) * k + i) as nat % n == 0) <==> k == i,
{
    let r = (n - 1) * k + i;
    assert((n - 1) * k == n * k - k) by (nonlinear_arith);
    if k <= i {
        lemma_fundamental_div_mod_converse(r as int, n as int, k as int, (i - k) as int);
    } else {
        assert(r == n * (k - 1) + (n + i - k)) by (nonlinear_arith)
            requires
                r == n * k - k + i,
        ;
        lemma_fundamental_div_mod_converse(r as int, n as int, (k - 1) as int, (n + i - k) as int);
    }
}

/// The table `e_k g^(j ((n - 1) k + i))` whose sum, over the inverse
/// size, is entry `i` of the transform of the inverse transform.
pub open spec fn dft_table(d: EvaluationDomain, e: Seq<nat>, i: int) -> spec_fn(int, int) -> int {
    |j: int, k: int| e[k] * pow(d.gen() as int, (j * ((d.spec_size() - 1) * k + i)) as nat)
}

/// Row `j` of the table is the `j`-th interpolation sum times `g^(i j)`.
proof fn lemma_dft_row(d: EvaluationDomain, e: Seq<nat>, i: nat, j: nat)
    requires
        d.wf(),
    ensures
        fsum(table_row(dft_table(d, e, i as int), j as int), d.spec_size()) == pow(d.gen() as int, i * j)
            * interp_sum(d, e, j as int),
{
    let n = d.spec_size();
    let g = d.gen() as int;
    let gj = pow(g, ((n - 1) * j) as nat);
    let gij = pow(g, i * j);
    let t = dft_table(d, e, i as int);
    assert forall|k: int| 0 <= k < n implies #[trigger] table_row(t, j as int)(k) == gij * coeff_terms(e, gj)(k) by {
        let a = ((n - 1) * j * k) as nat;
        assert((n - 1) * j * k >= 0) by (nonlinear_arith)
            requires
                k >= 0,
                n >= 1,
        ;
        assert(j * ((n - 1) * k + i) == (n - 1) * j * k + i * j) by (nonlinear_arith);
        lemma_pow_multiplies(g, ((n - 1) * j) as nat, k as nat);
        lemma_pow_adds(g, a, i * j);
        lemma_mul_is_associative(e[k] as int, pow(g, a), gij);
        lemma_mul_is_commutative(e[k] as int * pow(g, a), gij);
    }
    lemma_fsum_scale(coeff_terms(e, gj), table_row(t, j as int), gij, n);
}

/// Column `k` of the table is `e_k` times the sum of the powers of
/// `g^((n-1) k + i)`.
proof fn lemma_dft_col(d: EvaluationDomain, e: Seq<nat>, i: nat, k: nat)
    requires
        d.wf(),
    ensures
        fsum(table_col(dft_table(d, e, i as int), k as int), d.spec_size()) == e[k as int] * fsum(
            power_terms(d.gen() as int, ((d.spec_size() - 1) * k + i) as nat),
            d.spec_size(),
        ),
{
    let n = d.spec_size();
    let g = d.gen() as int;
    let r = ((n - 1) * k + i) as nat;
    let t = dft_table(d, e, i as int);
    assert forall|j: int| 0 <= j < n implies #[trigger] table_col(t, k as int)(j) == e[k as int] * power_terms(g, r)(j) by {
        assert(j * r == r * j) by (nonlinear_arith);
    }
    lemma_fsum_scale(power_terms(g, r), table_col(t, k as int), e[k as int] as int, n);
}

/// Entry `i` of the transform of the inverse transform of `e` is `e_i`.
proof fn lemma_fft_ifft_entry(d: EvaluationDomain, e: Seq<nat>, i: nat)
    requires
        d.wf(),
        e.len() == d.spec_size(),
        forall|k: int| 0 <= k < e.len() ==> #[trigger] e[k] < modulus(),
        i < d.spec_size(),
    ensures
        fft_spec(d, ifft_spec(d, e))[i as int] == e[i as int],
{
    let p = modulus() as int;
    let n = d.spec_size();
    let g = d.gen() as int;
    let v = d.inv_size() as int;
    let f = ifft_spec(d, e);
    let t = dft_table(d, e, i as int);
    assert(prefix(f, n) == f);
    let x = fpow(d.gen(), i);
    lemma_poly_eval_sum(f, x);
    lemma_small_mod(x, p as nat);
    lemma_coeff_terms_mod(f, x as int, pow(g, i), n);
    let big_x = fsum(coeff_terms(f, pow(g, i)), n);
    // Each term is v times a row of the table, modulo p.
    let u = |j: int| v * row_sums(t, n)(j);
    assert forall|j: int| 0 <= j < n implies #[trigger] coeff_terms(f, pow(g, i))(j) % p == u(j) % p by {
        lemma_ifft_entry(d, e, j as nat);
        lemma_dft_row(d, e, i, j as nat);
        let sj = interp_sum(d, e, j);
        lemma_pow_multiplies(g, i, j as nat);
        let gij = pow(g, i * (j as nat));
        lemma_mul_mod_noop_left(v * sj, gij, p);
        lemma_mul_is_associative(v, sj, gij);
        lemma_mul_is_commutative(sj, gij);
    }
    lemma_fsum_mod(coeff_terms(f, pow(g, i)), u, n, p);
    lemma_fsum_scale(row_sums(t, n), u, v, n);
    lemma_fsum_swap(t, n, n);
    // Each column is e_k times n or zero, modulo p.
    let ein = e[i as int] as int * n as int;
    let w = |k: int| -> int { if k == i { ein } else { 0int } };
    assert forall|k: int| 0 <= k < n implies #[trigger] col_sums(t, n)(k) % p == w(k) % p by {
        lemma_dft_col(d, e, i, k as nat);
        let r = ((n - 1) * (k as nat) + i) as nat;
        lemma_power_sum(d, r);
        lemma_exponent_mod(n, i, k as nat);
        lemma_mul_mod_noop_right(e[k] as int, fsum(power_terms(g, r), n), p);
        if k == i {
            lemma_mul_mod_noop_right(e[k] as int, n as int, p);
        }
    }
    lemma_fsum_mod(col_sums(t, n), w, n, p);
    lemma_fsum_single(w, n, i as int);
    // v (e_i n) = e_i (v n) = e_i, modulo p.
    let cs = fsum(col_sums(t, n), n);
    lemma_mul_mod_noop_right(v, cs, p);
    lemma_mul_mod_noop_right(v, ein, p);
    assert(v * ein == e[i as int] * (n * v)) by (nonlinear_arith)
        requires
            ein == e[i as int] as int * n as int,
    ;
    lemma_mul_mod_noop_right(e[i as int] as int, n * v, p);
    assert((n * v) % p == 1);
    lemma_small_mod(e[i as int], p as nat);
}

/// The inverse transform is undone by the transform: for values `e`, one
/// per domain element, the polynomial that the inverse transform
/// interpolates takes the values `e` on the domain.
pub proof fn lemma_fft_inverts_ifft(d: EvaluationDomain, e: Seq<nat>)
    requires
        d.wf(),
        e.len() == d.spec_size(),
        forall|k: int| 0 <= k < e.len() ==> #[trigger] e[k] < modulus(),
    ensures
        fft_spec(d, ifft_spec(d, e)) == e,
{
    assert forall|i: int| 0 <= i < e.len() implies #[trigger] fft_spec(d, ifft_spec(d, e))[i] == e[i] by {
        lemma_fft_ifft_entry(d, e, i as nat);
    }
    assert(fft_spec(d, ifft_spec(d, e)) =~= e);
}

/// The table `c_k g^(i ((n - 1) j + k))` whose sum, over the inverse
/// size, is entry `j` of the inverse transform of the transform.
pub open spec fn idft_table(d: EvaluationDomain, c: Seq<nat>, j: int) -> spec_fn(int, int) -> int {
    |i: int, k: int| c[k] * pow(d.gen() as int, (i * ((d.spec_size() - 1) * j + k)) as nat)
}

/// The sum of `c_k g^(i k)`: entry `i` of the transform, before reduction.
pub open spec fn eval_sum(d: EvaluationDomain, c: Seq<nat>, i: int) -> int {
    fsum(coeff_terms(c, pow(d.gen() as int, i as nat)), d.spec_size())
}

/// Row `i` of the table is `g^((n-1) j i)` times the `i`-th evaluation sum.
proof fn lemma_idft_row(d: EvaluationDomain, c: Seq<nat>, j: nat, i: nat)
    requires
        d.wf(),
    ensures
        fsum(table_row(idft_table(d, c, j as int), i as int), d.spec_size()) == pow(
            d.gen() as int,
            ((d.spec_size() - 1) * j * i) as nat,
        ) * eval_sum(d, c, i as int),
{
    let n = d.spec_size();
    let g = d.gen() as int;
    let gi = pow(g, i);
    let gji = pow(g, ((n - 1) * j * i) as nat);
    let t = idft_table(d, c, j as int);
    assert((n - 1) * j * i >= 0) by (nonlinear_arith)
        requires
            n >= 1,
    ;
    assert forall|k: int| 0 <= k < n implies #[trigger] table_row(t, i as int)(k) == gji * coeff_terms(c, gi)(k) by {
        assert(i * k >= 0) by (nonlinear_arith)
            requires
                k >= 0,
        ;
        assert(i * ((n - 1) * j + k) == (n - 1) * j * i + i * k) by (nonlinear_arith);
        lemma_pow_multiplies(g, i, k as nat);
        lemma_pow_adds(g, ((n - 1) * j * i) as nat, (i * k) as nat);
        lemma_mul_is_associative(c[k] as int, gji, pow(g, (i * k) as nat));
        lemma_mul_is_commutative(c[k] as int, gji);
        lemma_mul_is_associative(gji, c[k] as int, pow(g, (i * k) as nat));
    }
    lemma_fsum_scale(coeff_terms(c, gi), table_row(t, i as int), gji, n);
}

/// Column `k` of the table is `c_k` times the sum of the powers of
/// `g^((n-1) j + k)`.
proof fn lemma_idft_col(d: EvaluationDomain, c: Seq<nat>, j: nat, k: nat)
    requires
        d.wf(),
    ensures
        fsum(table_col(idft_table(d, c, j as int), k as int), d.spec_size()) == c[k as int] * fsum(
            power_terms(d.gen() as int, ((d.spec_size() - 1) * j + k) as nat),
            d.spec_size(),
        ),
{
    let n = d.spec_size();
    let g = d.gen() as int;
    let r = ((n - 1) * j + k) as nat;
    let t = idft_table(d, c, j as int);
    assert forall|i: int| 0 <= i < n implies #[trigger] table_col(t, k as int)(i) == c[k as int] * power_terms(g, r)(i) by {
        assert(i * r == r * i) by (nonlinear_arith);
    }
    lemma_fsum_scale(power_terms(g, r), table_col(t, k as int), c[k as int] as int, n);
}

/// Entry `j` of the inverse transform of the transform of `c` is `c_j`.
proof fn lemma_ifft_fft_entry(d: EvaluationDomain, c: Seq<nat>, j: nat)
    requires
        d.wf(),
        c.len() == d.spec_size(),
        forall|k: int| 0 <= k < c.len() ==> #[trigger] c[k] < modulus(),
        j < d.spec_size(),
    ensures
        ifft_spec(d, fft_spec(d, c))[j as int] == c[j as int],
{
    let p = modulus() as int;
    let n = d.spec_size();
    let g = d.gen() as int;
    let v = d.inv_size() as int;
    let f = fft_spec(d, c);
    let t = idft_table(d, c, j as int);
    assert(prefix(f, n) == f);
    assert(prefix(c, n) == c);
    let x = fpow(d.gen_inv(), j);
    lemma_poly_eval_sum(f, x);
    lemma_gen_inv_powers(d, j);
    let gj = pow(g, ((n - 1) * j) as nat);
    lemma_coeff_terms_mod(f, x as int, gj, n);
    // Each term is a row of the table, modulo p.
    assert forall|i: int| 0 <= i < n implies #[trigger] coeff_terms(f, gj)(i) % p == row_sums(t, n)(i) % p by {
        let gi = fpow(d.gen(), i as nat);
        lemma_poly_eval_sum(c, gi);
        lemma_small_mod(gi, p as nat);
        lemma_coeff_terms_mod(c, gi as int, pow(g, i as nat), n);
        lemma_idft_row(d, c, j, i as nat);
        let ai = eval_sum(d, c, i);
        assert(f[i] as int == ai % p);
        lemma_pow_multiplies(g, ((n - 1) * j) as nat, i as nat);
        let gji = pow(g, ((n - 1) * j * (i as nat)) as nat);
        lemma_mul_mod_noop_left(ai, gji, p);
        lemma_mul_is_commutative(ai, gji);
    }
    let big_x = fsum(coeff_terms(f, gj), n);
    lemma_fsum_mod(coeff_terms(f, gj), row_sums(t, n), n, p);
    lemma_fsum_swap(t, n, n);
    // Each column is c_k times n or zero, modulo p.
    let cjn = c[j as int] as int * n as int;
    let w = |k: int| -> int { if k == j { cjn } else { 0int } };
    assert forall|k: int| 0 <= k < n implies #[trigger] col_sums(t, n)(k) % p == w(k) % p by {
        lemma_idft_col(d, c, j, k as nat);
        let r = ((n - 1) * j + (k as nat)) as nat;
        lemma_power_sum(d, r);
        lemma_exponent_mod(n, k as nat, j);
        lemma_mul_mod_noop_right(c[k] as int, fsum(power_terms(g, r), n), p);
        if k == j {
            lemma_mul_mod_noop_right(c[k] as int, n as int, p);
        }
    }
    lemma_fsum_mod(col_sums(t, n), w, n, p);
    lemma_fsum_single(w, n, j as int);
    // v (c_j n) = c_j (v n) = c_j, modulo p.
    assert(big_x % p == cjn % p);
    lemma_mul_mod_noop_right(v, big_x, p);
    lemma_mul_mod_noop_right(v, cjn, p);
    assert(v * cjn == c[j as int] * (n * v)) by (nonlinear_arith)
        requires
            cjn == c[j as int] as int * n as int,
    ;
    lemma_mul_mod_noop_right(c[j as int] as int, n * v, p);
    assert((n * v) % p == 1);
    lemma_small_mod(c[j as int], p as nat);
}

/// The transform is undone by the inverse transform: interpolating the
/// values over the domain of a polynomial with one coefficient per domain
/// element gives back its coefficients.
pub proof fn lemma_ifft_inverts_fft(d: EvaluationDomain, c: Seq<nat>)
    requires
        d.wf(),
        c.len() == d.spec_size(),
        forall|k: int| 0 <= k < c.len() ==> #[trigger] c[k] < modulus(),
    ensures
        ifft_spec(d, fft_spec(d, c)) == c,
{
    assert forall|j: int| 0 <= j < c.len() implies #[trigger] ifft_spec(d, fft_spec(d, c))[j] == c[j] by {
        lemma_ifft_fft_entry(d, c, j as nat);
    }
    assert(ifft_spec(d, fft_spec(d, c)) =~= c);
}

/// A trailing zero coefficient does not change a polynomial's value.
proof fn lemma_poly_eval_push_zero(t: Seq<nat>, x: nat)
    ensures
        poly_eval(t.push(0), x) == poly_eval(t, x),
    decreases t.len(),
{
    let p = modulus();
    if t.len() == 0 {
        let z = seq![0nat];
        assert(t.push(0) =~= z);
        assert(z.subrange(1, 1) =~= Seq::<nat>::empty());
        assert(poly_eval(Seq::<nat>::empty(), x) == 0);
        assert(fmul(x, 0) == 0);
    } else {
        let tail = t.subrange(1, t.len() as int);
        lemma_poly_eval_push_zero(tail, x);
        assert(t.push(0).subrange(1, t.len() as int + 1) =~= tail.push(0));
    }
}

/// Trailing zeros do not change a polynomial's value.
proof fn lemma_poly_eval_trim(s: Seq<nat>, x: nat)
    ensures
        poly_eval(trim_zeros(s), x) == poly_eval(s, x),
        trim_zeros(s).len() <= s.len(),
    decreases s.len(),
{
    if s.len() > 0 && s.last() == 0 {
        lemma_poly_eval_trim(s.drop_last(), x);
        lemma_poly_eval_push_zero(s.drop_last(), x);
        assert(s.drop_last().push(0) =~= s);
    }
}

/// Evaluating the interpolating polynomial, with its trailing zero
/// coefficients dropped, over the domain gives back the values it
/// interpolates.
pub proof fn lemma_fft_inverts_interpolation(d: EvaluationDomain, e: Seq<nat>)
    requires
        d.wf(),
        e.len() == d.spec_size(),
        forall|k: int| 0 <= k < e.len() ==> #[trigger] e[k] < modulus(),
    ensures
        fft_spec(d, trim_zeros(ifft_spec(d, e))) == e,
{
    let n = d.spec_size();
    let f = ifft_spec(d, e);
    lemma_fft_inverts_ifft(d, e);
    lemma_poly_eval_trim(f, 0);
    assert(prefix(trim_zeros(f), n) == trim_zeros(f));
    assert(prefix(f, n) == f);
    assert forall|i: int| 0 <= i < n implies #[trigger] fft_spec(d, trim_zeros(f))[i] == fft_spec(d, f)[i] by {
        lemma_poly_eval_trim(f, fpow(d.gen(), i as nat));
    }
    assert(fft_spec(d, trim_zeros(f)) =~= fft_spec(d, f));
}

/// The terms `y^j` for `j = 0, 1, ...`.
pub open spec fn geometric_terms(y: int) -> spec_fn(int) -> int {
    |j: int| pow(y, j as nat)
}

/// `(1 + y + ... + y^(n-1)) (y - 1) = y^n - 1`.
proof fn lemma_geometric_sum(y: int, n: nat)
    ensures
        fsum(geometric_terms(y), n) * (y - 1) == pow(y, n) - 1,
    decreases n,
{
    if n == 0 {
        lemma_pow0(y);
    } else {
        let m = (n - 1) as nat;
        lemma_geometric_sum(y, m);
        lemma_pow_adds(y, m, 1);
        lemma_pow1(y);
        let s = fsum(geometric_terms(y), m);
        let t = pow(y, m);
        assert(fsum(geometric_terms(y), n) == s + t);
        assert((s + t) * (y - 1) == s * (y - 1) + t * y - t) by (nonlinear_arith);
    }
}

/// The barycentric sum is the sum of its terms, reduced.
proof fn lemma_barycentric_full_sum_fsum(e: Seq<nat>, z: nat, gen_inv: nat, k: nat)
    ensures
        barycentric_full_sum(e, z, gen_inv, k) as int == fsum(
            |i: int| barycentric_term(e[i], z, gen_inv, i as nat) as int,
            k,
        ) % (modulus() as int),
    decreases k,
{
    let p = modulus() as int;
    if k > 0 {
        let j = (k - 1) as nat;
        lemma_barycentric_full_sum_fsum(e, z, gen_inv, j);
        let f = |i: int| barycentric_term(e[i], z, gen_inv, i as nat) as int;
        lemma_add_mod_noop(fsum(f, j), f(j as int), p);
        lemma_small_mod(barycentric_term(e[j as int], z, gen_inv, j) as nat, p as nat);
    }
}

/// Multiplying by `u` and by its inverse modulo `p` cancels:
/// `e G = Z (I e)` modulo `p` when `G u = W`, `u I = 1` and `W = Z`.
proof fn lemma_cancel_inverse(g: int, u: int, i: int, w: int, e: int, z: int)
    requires
        (g * u) % (modulus() as int) == w % (modulus() as int),
        (u * i) % (modulus() as int) == 1,
        w % (modulus() as int) == z % (modulus() as int),
    ensures
        (e * g) % (modulus() as int) == (z * ((i * e) % (modulus() as int))) % (modulus() as int),
{
    let p = modulus() as int;
    lemma_mul_mod_noop_right(e * g, u * i, p);
    assert(e * g * 1 == e * g);
    assert((e * g) * (u * i) == (e * i) * (g * u)) by (nonlinear_arith);
    lemma_mul_mod_noop_right(e * i, g * u, p);
    lemma_mul_mod_noop_right(e * i, w, p);
    lemma_mul_mod_noop_right(e * i, z, p);
    lemma_mul_mod_noop_right(z, i * e, p);
    assert((e * i) * z == z * (i * e)) by (nonlinear_arith);
}

/// The column of the double sum for value `k`:
/// `e_k (1 + y + ... + y^(n-1))`, with `y = g^-k z`, is
/// `(z^n - 1) e_k / (g^-k z - 1)` modulo `p`.
proof fn lemma_barycentric_column(d: EvaluationDomain, e: Seq<nat>, z: nat, k: nat)
    requires
        d.wf(),
        k < d.spec_size(),
        z < modulus(),
        is_inverse(barycentric_denominator(z, d.gen_inv(), k), finv(barycentric_denominator(z, d.gen_inv(), k))),
    ensures
        (e[k as int] * fsum(geometric_terms(pow(d.gen_inv() as int, k) * z), d.spec_size())) % (modulus() as int)
            == (fsub(fpow(z, d.spec_size()), 1) as int * barycentric_term(e[k as int], z, d.gen_inv(), k) as int)
            % (modulus() as int),
{
    let p = modulus() as int;
    let n = d.spec_size();
    let gi = d.gen_inv() as int;
    let a = pow(gi, k);
    let y = a * (z as int);
    let g = fsum(geometric_terms(y), n);
    lemma_geometric_sum(y, n);
    // y^n = (g^-1)^(k n) z^n, and (g^-1)^(k n) is one.
    lemma_pow_distributes(a, z as int, n);
    lemma_pow_multiplies(gi, k, n);
    lemma_gen_inv_powers(d, k * n);
    lemma_pow_multiplies(d.gen() as int, n, ((n - 1) * k) as nat);
    assert(((n - 1) * (k * n)) == n * ((n - 1) * k)) by (nonlinear_arith);
    lemma_pow_mod_noop(pow(d.gen() as int, n), ((n - 1) * k) as nat, p);
    assert(pow(d.gen() as int, n) % p == 1);
    lemma1_pow(((n - 1) * k) as nat);
    lemma_small_mod(1, p as nat);
    assert(pow(a, n) % p == 1) by {
        lemma_small_mod(fpow(d.gen_inv(), k * n), p as nat);
    }
    lemma_mul_mod_noop_left(pow(a, n), pow(z as int, n), p);
    assert(pow(y, n) % p == pow(z as int, n) % p);
    // So G (y - 1) = y^n - 1 = z^n - 1.
    let w = pow(y, n) - 1;
    let zh = fsub(fpow(z, n), 1);
    lemma_sub_mod_noop(pow(y, n), 1, p);
    lemma_sub_mod_noop(pow(z as int, n), 1, p);
    lemma_small_mod(fpow(z, n), p as nat);
    lemma_sub_mod_noop(fpow(z, n) as int, 1, p);
    assert(w % p == zh as int % p);
    // The denominator is y - 1 modulo p.
    let den = barycentric_denominator(z, d.gen_inv(), k);
    let inv = finv(den);
    lemma_mul_mod_noop_left(a, z as int, p);
    lemma_sub_mod_noop(y, 1, p);
    lemma_sub_mod_noop(fmul(fpow(d.gen_inv(), k), z) as int, 1, p);
    assert(den as int % p == (y - 1) % p);
    assert(den != 0) by {
        assert(fmul(0, inv) == 0);
    }
    lemma_mul_mod_noop_left(y - 1, inv as int, p);
    assert(((y - 1) * inv) % p == 1);
    lemma_cancel_inverse(g, y - 1, inv as int, w, e[k as int] as int, zh as int);
}

/// The barycentric formula gives the value of the interpolating polynomial:
/// at a point `z` where every `g^-i z - 1` is invertible (no domain element
/// is `z`), the polynomial with coefficients `ifft(e)` takes the value
/// `barycentric_eval(e, z)`, that is, `compute_barycentric_eval` agrees
/// with evaluating the inverse transform of the values.
pub proof fn lemma_barycentric_is_interpolation(d: EvaluationDomain, e: Seq<nat>, z: nat)
    requires
        d.wf(),
        e.len() == d.spec_size(),
        z < modulus(),
        forall|k: nat|
            k < d.spec_size() ==> is_inverse(
                #[trigger] barycentric_denominator(z, d.gen_inv(), k),
                finv(barycentric_denominator(z, d.gen_inv(), k)),
            ),
    ensures
        poly_eval(ifft_spec(d, e), z) == barycentric_eval(e, z, d),
{
    let p = modulus() as int;
    let n = d.spec_size();
    let gi = d.gen_inv() as int;
    let zi = z as int;
    let c = ifft_spec(d, e);
    let inv_n = d.inv_size() as int;
    let t = |j: int, k: int| e[k] * pow(gi, (j * k) as nat) * pow(zi, j as nat);
    // The polynomial's terms are the row sums, scaled by 1/n.
    lemma_poly_eval_sum(c, z);
    assert(prefix(e, n) == e);
    let scaled_rows = |j: int| inv_n * row_sums(t, n)(j);
    assert forall|j: int| 0 <= j < n implies #[trigger] coeff_terms(c, zi)(j) % p == scaled_rows(j) % p by {
        let x = fpow(d.gen_inv(), j as nat);
        let xj = pow(gi, j as nat);
        lemma_poly_eval_sum(e, x);
        lemma_small_mod(x, p as nat);
        lemma_coeff_terms_mod(e, x as int, xj, n);
        let sx = fsum(coeff_terms(e, x as int), n);
        let sj = fsum(coeff_terms(e, xj), n);
        assert forall|k: int| 0 <= k < n implies #[trigger] table_row(t, j)(k) == pow(zi, j as nat) * coeff_terms(
            e,
            xj,
        )(k) by {
            lemma_pow_multiplies(gi, j as nat, k as nat);
            assert(j * k >= 0) by (nonlinear_arith)
                requires
                    j >= 0,
                    k >= 0,
            ;
            assert(e[k] * pow(gi, (j * k) as nat) * pow(zi, j as nat) == pow(zi, j as nat) * (e[k] * pow(
                gi,
                (j * k) as nat,
            ))) by (nonlinear_arith);
        }
        lemma_fsum_scale(coeff_terms(e, xj), table_row(t, j), pow(zi, j as nat), n);
        let r = row_sums(t, n)(j);
        assert(r == pow(zi, j as nat) * sj);
        // c_j z^j = (1/n) (sx mod p) z^j = (1/n) sj z^j, modulo p.
        let cj = c[j];
        assert(cj as int == (inv_n * (sx % p)) % p);
        lemma_mul_mod_noop_right(inv_n, sx, p);
        lemma_mul_mod_noop_right(inv_n, sj, p);
        assert(cj as int == (inv_n * sj) % p);
        lemma_mul_mod_noop_left(inv_n * sj, pow(zi, j as nat), p);
        assert((inv_n * sj) * pow(zi, j as nat) == inv_n * (pow(zi, j as nat) * sj)) by (nonlinear_arith);
    }
    lemma_fsum_mod(coeff_terms(c, zi), scaled_rows, n, p);
    lemma_fsum_scale(row_sums(t, n), scaled_rows, inv_n, n);
    // Summing by columns instead.
    lemma_fsum_swap(t, n, n);
    let zh = fsub(fpow(z, n), 1) as int;
    let bterms = |k: int| barycentric_term(e[k], z, d.gen_inv(), k as nat) as int;
    let scaled_terms = |k: int| zh * bterms(k);
    assert forall|k: int| 0 <= k < n implies #[trigger] col_sums(t, n)(k) % p == scaled_terms(k) % p by {
        let a = pow(gi, k as nat);
        let y = a * zi;
        assert forall|j: int| 0 <= j < n implies #[trigger] table_col(t, k)(j) == e[k] * geometric_terms(y)(j) by {
            lemma_pow_multiplies(gi, k as nat, j as nat);
            assert(j * k == k * j) by (nonlinear_arith);
            assert(j * k >= 0) by (nonlinear_arith)
                requires
                    j >= 0,
                    k >= 0,
            ;
            lemma_pow_distributes(a, zi, j as nat);
            assert(e[k] * pow(gi, (j * k) as nat) * pow(zi, j as nat) == e[k] * (pow(a, j as nat) * pow(
                zi,
                j as nat,
            ))) by (nonlinear_arith)
                requires
                    pow(gi, (j * k) as nat) == pow(a, j as nat),
            ;
        }
        lemma_fsum_scale(geometric_terms(y), table_col(t, k), e[k] as int, n);
        assert(barycentric_denominator(z, d.gen_inv(), k as nat) == barycentric_denominator(z, d.gen_inv(), k as nat));
        lemma_barycentric_column(d, e, z, k as nat);
    }
    lemma_fsum_mod(col_sums(t, n), scaled_terms, n, p);
    lemma_fsum_scale(bterms, scaled_terms, zh, n);
    // The barycentric sum is that sum of terms, reduced.
    lemma_barycentric_full_sum(e, z, d.gen_inv(), n);
    lemma_barycentric_full_sum_fsum(e, z, d.gen_inv(), n);
    let fb = fsum(bterms, n);
    let cs = fsum(col_sums(t, n), n);
    assert(poly_eval(c, z) as int == (inv_n * cs) % p);
    lemma_mul_mod_noop_right(inv_n, cs, p);
    lemma_mul_mod_noop_right(inv_n, zh * fb, p);
    assert(poly_eval(c, z) as int == (inv_n * (zh * fb)) % p);
    let f = fmul(fsub(fpow(z, n), 1), d.inv_size());
    lemma_mul_mod_noop_left(fb, f as int, p);
    lemma_mul_mod_noop_right(fb, zh * inv_n, p);
    assert(inv_n * (zh * fb) == fb * (zh * inv_n)) by (nonlinear_arith);
}

} // verus!
