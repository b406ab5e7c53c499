//! Two further ways of computing the grand product of the permutation
//! argument: one that keeps eight separate running products, and one that
//! keeps the running numerator and denominator and also returns each gate's
//! factors. Both agree with `Permutation::compute_permutation_poly`.
use crate::domain::{sview, DensePolynomial, EvaluationDomain};
use crate::field::{
    fadd, finv, fmul, fpow, is_inverse, lemma_fadd_swap, lemma_finv_mul, lemma_fmul_assoc, lemma_fmul_comm,
    lemma_fmul_interchange, lemma_fmul_mod, lemma_fmul_one, lemma_fmul_rotate, lemma_inverse_unique, modulus,
    Scalar,
};
use crate::permutation::{
    coset_constant, denominator_factor, gate_denominator, gate_numerator, gate_ratio, grand_product,
    grand_products, k1, k2, k3, numerator_factor, product4, sigma_values, wire_values, Permutation,
};
use vstd::prelude::*;

verus! {

/// Multiplies every entry by `c` on the right.
pub fn mul_each(v: &[Scalar], c: Scalar) -> (r: Vec<Scalar>)
    ensures
        r@.len() == v@.len(),
        forall|i: int| 0 <= i < v@.len() ==> #[trigger] r@[i]@ == fmul(v@[i]@, c@),
{
    let mut r: Vec<Scalar> = Vec::new();
    let mut i: usize = 0;
    while i < v.len()
        invariant
            i <= v@.len(),
            r@.len() == i,
            forall|j: int| 0 <= j < i ==> #[trigger] r@[j]@ == fmul(v@[j]@, c@),
        decreases v@.len() - i,
    {
        r.push(v[i].times(c));
        i = i + 1;
    }
    r
}

/// Multiplies every entry by `c` on the left.
pub fn scale_each(c: Scalar, v: &[Scalar]) -> (r: Vec<Scalar>)
    ensures
        r@.len() == v@.len(),
        forall|i: int| 0 <= i < v@.len() ==> #[trigger] r@[i]@ == fmul(c@, v@[i]@),
{
    let mut r: Vec<Scalar> = Vec::new();
    let mut i: usize = 0;
    while i < v.len()
        invariant
            i <= v@.len(),
            r@.len() == i,
            forall|j: int| 0 <= j < i ==> #[trigger] r@[j]@ == fmul(c@, v@[j]@),
        decreases v@.len() - i,
    {
        r.push(c.times(v[i]));
        i = i + 1;
    }
    r
}

/// Adds `c` to every entry.
pub fn add_each(v: &[Scalar], c: Scalar) -> (r: Vec<Scalar>)
    ensures
        r@.len() == v@.len(),
        forall|i: int| 0 <= i < v@.len() ==> #[trigger] r@[i]@ == fadd(v@[i]@, c@),
{
    let mut r: Vec<Scalar> = Vec::new();
    let mut i: usize = 0;
    while i < v.len()
        invariant
            i <= v@.len(),
            r@.len() == i,
            forall|j: int| 0 <= j < i ==> #[trigger] r@[j]@ == fadd(v@[j]@, c@),
        decreases v@.len() - i,
    {
        r.push(v[i].plus(c));
        i = i + 1;
    }
    r
}

// ---------------------------------------------------------------------
// The eight running products.

/// `w + gamma + beta * root * k` in the form the eight-product method
/// builds it (`k` omitted for the left column).
pub open spec fn split_identity_factor(gen: nat, w: Seq<Seq<nat>>, c: int, j: int, beta: nat, gamma: nat) -> nat {
    let beta_root = fmul(fpow(gen, j as nat), beta);
    fadd(fadd(w[c][j], gamma), if c == 0 { beta_root } else { fmul(beta_root, coset_constant(c)) })
}

/// `w + gamma + beta * sigma` in the form the eight-product method builds
/// it.
pub open spec fn split_sigma_factor(w: Seq<Seq<nat>>, sig: Seq<Seq<nat>>, c: int, j: int, beta: nat, gamma: nat) -> nat {
    fadd(fadd(w[c][j], gamma), fmul(sig[c][j], beta))
}

/// Component `k` of gate `j`: the four identity factors, then the inverses
/// of the four sigma factors.
pub open spec fn split_component(
    gen: nat,
    w: Seq<Seq<nat>>,
    sig: Seq<Seq<nat>>,
    k: int,
    j: int,
    beta: nat,
    gamma: nat,
) -> nat {
    if k < 4 {
        split_identity_factor(gen, w, k, j, beta, gamma)
    } else {
        finv(split_sigma_factor(w, sig, k - 4, j, beta, gamma))
    }
}

/// The running product of component `k` over gates `0 .. t`.
pub open spec fn split_prefix(
    gen: nat,
    w: Seq<Seq<nat>>,
    sig: Seq<Seq<nat>>,
    k: int,
    t: nat,
    beta: nat,
    gamma: nat,
) -> nat
    decreases t,
{
    if t == 0 {
        1
    } else {
        fmul(split_prefix(gen, w, sig, k, (t - 1) as nat, beta, gamma), split_component(gen, w, sig, k, t - 1, beta, gamma))
    }
}

/// Entry `t` of the grand product by the eight-product method: the product,
/// from one, of the eight running products at `t`.
pub open spec fn split_grand_product(
    gen: nat,
    w: Seq<Seq<nat>>,
    sig: Seq<Seq<nat>>,
    t: nat,
    beta: nat,
    gamma: nat,
) -> nat {
    let p = |k: int| split_prefix(gen, w, sig, k, t, beta, gamma);
    fmul(fmul(fmul(fmul(fmul(fmul(fmul(fmul(1, p(0)), p(1)), p(2)), p(3)), p(4)), p(5)), p(6)), p(7))
}

// ---------------------------------------------------------------------
// Running numerator and denominator.

/// A numerator factor in the form the numerator/denominator method builds
/// it: `beta * root * k + (w + gamma)`.
pub open spec fn paired_numerator_factor(gen: nat, w: Seq<Seq<nat>>, c: int, j: int, beta: nat, gamma: nat) -> nat {
    let root = fpow(gen, j as nat);
    let beta_root = if c == 0 { fmul(root, beta) } else { fmul(fmul(coset_constant(c), beta), root) };
    fadd(beta_root, fadd(w[c][j], gamma))
}

/// A denominator factor in the form the numerator/denominator method
/// builds it: `beta * sigma + (w + gamma)`.
pub open spec fn paired_denominator_factor(w: Seq<Seq<nat>>, sig: Seq<Seq<nat>>, c: int, j: int, beta: nat, gamma: nat) -> nat {
    fadd(fmul(sig[c][j], beta), fadd(w[c][j], gamma))
}

/// Gate `j`'s numerator component: the product of its four numerator
/// factors.
pub open spec fn numerator_component(gen: nat, w: Seq<Seq<nat>>, j: int, beta: nat, gamma: nat) -> nat {
    fmul(
        fmul(
            fmul(paired_numerator_factor(gen, w, 0, j, beta, gamma), paired_numerator_factor(gen, w, 1, j, beta, gamma)),
            paired_numerator_factor(gen, w, 2, j, beta, gamma),
        ),
        paired_numerator_factor(gen, w, 3, j, beta, gamma),
    )
}

/// Gate `j`'s denominator component: the product of its four denominator
/// factors.
pub open spec fn denominator_component(w: Seq<Seq<nat>>, sig: Seq<Seq<nat>>, j: int, beta: nat, gamma: nat) -> nat {
    fmul(
        fmul(
            fmul(paired_denominator_factor(w, sig, 0, j, beta, gamma), paired_denominator_factor(w, sig, 1, j, beta, gamma)),
            paired_denominator_factor(w, sig, 2, j, beta, gamma),
        ),
        paired_denominator_factor(w, sig, 3, j, beta, gamma),
    )
}

/// The running numerator over gates `0 .. t`.
pub open spec fn numerator_coefficient(gen: nat, w: Seq<Seq<nat>>, t: nat, beta: nat, gamma: nat) -> nat
    decreases t,
{
    if t == 0 {
        1
    } else {
        fmul(numerator_component(gen, w, t - 1, beta, gamma), numerator_coefficient(gen, w, (t - 1) as nat, beta, gamma))
    }
}

/// The running denominator over gates `0 .. t`.
pub open spec fn denominator_coefficient(w: Seq<Seq<nat>>, sig: Seq<Seq<nat>>, t: nat, beta: nat, gamma: nat) -> nat
    decreases t,
{
    if t == 0 {
        1
    } else {
        fmul(denominator_component(w, sig, t - 1, beta, gamma), denominator_coefficient(w, sig, (t - 1) as nat, beta, gamma))
    }
}

/// Entry `t` of the grand product by the numerator/denominator method.
pub open spec fn paired_grand_product(
    gen: nat,
    w: Seq<Seq<nat>>,
    sig: Seq<Seq<nat>>,
    t: nat,
    beta: nat,
    gamma: nat,
) -> nat {
    fmul(numerator_coefficient(gen, w, t, beta, gamma), finv(denominator_coefficient(w, sig, t, beta, gamma)))
}


/// The entries `0 .. n` of the eight-product grand product.
pub open spec fn split_grand_products(
    gen: nat,
    w: Seq<Seq<nat>>,
    sig: Seq<Seq<nat>>,
    n: nat,
    beta: nat,
    gamma: nat,
) -> Seq<nat> {
    Seq::new(n, |t: int| split_grand_product(gen, w, sig, t as nat, beta, gamma))
}

/// A running product that is nonzero at `n` is nonzero at every `t <= n`.
proof fn lemma_denominator_prefix_nonzero(w: Seq<Seq<nat>>, sig: Seq<Seq<nat>>, t: nat, n: nat, beta: nat, gamma: nat)
    requires
        t <= n,
        denominator_coefficient(w, sig, n, beta, gamma) != 0,
    ensures
        denominator_coefficient(w, sig, t, beta, gamma) != 0,
    decreases n - t,
{
    if t < n {
        lemma_denominator_prefix_nonzero(w, sig, t + 1, n, beta, gamma);
        let c = denominator_component(w, sig, t as int, beta, gamma);
        if denominator_coefficient(w, sig, t, beta, gamma) == 0 {
            assert(fmul(c, 0) == 0);
        }
    }
}

/// The entries `0 .. n` of the numerator/denominator grand product.
pub open spec fn paired_grand_products(
    gen: nat,
    w: Seq<Seq<nat>>,
    sig: Seq<Seq<nat>>,
    n: nat,
    beta: nat,
    gamma: nat,
) -> Seq<nat> {
    Seq::new(n, |t: int| paired_grand_product(gen, w, sig, t as nat, beta, gamma))
}

impl Permutation {
    /// The grand product over the domain, computed as a running numerator
    /// and a running denominator that are divided entry by entry; also
    /// returns each gate's numerator and denominator components. The whole
    /// numerator must equal the whole denominator (the copy constraints
    /// hold).
    pub fn compute_slow_permutation_poly(
        &self,
        domain: &EvaluationDomain,
        w_l: &[Scalar],
        w_r: &[Scalar],
        w_o: &[Scalar],
        w_4: &[Scalar],
        beta: &Scalar,
        gamma: &Scalar,
        sigma_polys: (&DensePolynomial, &DensePolynomial, &DensePolynomial, &DensePolynomial),
    ) -> (r: (Vec<Scalar>, Vec<Scalar>, Vec<Scalar>))
        requires
            domain.wf(),
            w_l@.len() >= domain.spec_size(),
            w_r@.len() >= domain.spec_size(),
            w_o@.len() >= domain.spec_size(),
            w_4@.len() >= domain.spec_size(),
            numerator_coefficient(domain.gen(), wire_values(w_l, w_r, w_o, w_4), domain.spec_size(), beta@, gamma@) != 0,
            denominator_coefficient(
                wire_values(w_l, w_r, w_o, w_4),
                sigma_values(*domain, sigma_polys.0, sigma_polys.1, sigma_polys.2, sigma_polys.3),
                domain.spec_size(),
                beta@,
                gamma@,
            ) != 0,
            fmul(
                numerator_coefficient(domain.gen(), wire_values(w_l, w_r, w_o, w_4), domain.spec_size(), beta@, gamma@),
                finv(
                    denominator_coefficient(
                        wire_values(w_l, w_r, w_o, w_4),
                        sigma_values(*domain, sigma_polys.0, sigma_polys.1, sigma_polys.2, sigma_polys.3),
                        domain.spec_size(),
                        beta@,
                        gamma@,
                    ),
                ),
            ) == 1,
        ensures
            sview(r.0@) == paired_grand_products(
                domain.gen(),
                wire_values(w_l, w_r, w_o, w_4),
                sigma_values(*domain, sigma_polys.0, sigma_polys.1, sigma_polys.2, sigma_polys.3),
                domain.spec_size(),
                beta@,
                gamma@,
            ),
            sview(r.0@) == grand_products(
                domain.gen(),
                wire_values(w_l, w_r, w_o, w_4),
                sigma_values(*domain, sigma_polys.0, sigma_polys.1, sigma_polys.2, sigma_polys.3),
                domain.spec_size(),
                beta@,
                gamma@,
            ),
            sview(r.1@) == Seq::new(
                domain.spec_size(),
                |j: int| numerator_component(domain.gen(), wire_values(w_l, w_r, w_o, w_4), j, beta@, gamma@),
            ),
            sview(r.2@) == Seq::new(
                domain.spec_size(),
                |j: int|
                    denominator_component(
                        wire_values(w_l, w_r, w_o, w_4),
                        sigma_values(*domain, sigma_polys.0, sigma_polys.1, sigma_polys.2, sigma_polys.3),
                        j,
                        beta@,
                        gamma@,
                    ),
            ),
    {
        let ghost w = wire_values(w_l, w_r, w_o, w_4);
        let ghost sig = sigma_values(*domain, sigma_polys.0, sigma_polys.1, sigma_polys.2, sigma_polys.3);
        let ghost gen = domain.gen();
        let n = domain.size();
        let beta = *beta;
        let gamma = *gamma;

        let left_sigma_mapping = domain.fft(sigma_polys.0.coeffs().as_slice());
        let right_sigma_mapping = domain.fft(sigma_polys.1.coeffs().as_slice());
        let out_sigma_mapping = domain.fft(sigma_polys.2.coeffs().as_slice());
        let fourth_sigma_mapping = domain.fft(sigma_polys.3.coeffs().as_slice());

        // beta * sigma values
        let beta_left_sigma = mul_each(left_sigma_mapping.as_slice(), beta);
        let beta_right_sigma = mul_each(right_sigma_mapping.as_slice(), beta);
        let beta_out_sigma = mul_each(out_sigma_mapping.as_slice(), beta);
        let beta_fourth_sigma = mul_each(fourth_sigma_mapping.as_slice(), beta);

        // beta * roots, and K1 * beta * roots and so on
        let roots = domain.elements();
        let beta_roots = mul_each(roots.as_slice(), beta);
        let beta_roots_k1 = scale_each(k1().times(beta), roots.as_slice());
        let beta_roots_k2 = scale_each(k2().times(beta), roots.as_slice());
        let beta_roots_k3 = scale_each(k3().times(beta), roots.as_slice());

        // wire + gamma
        let w_l_gamma = add_each(w_l, gamma);
        let w_r_gamma = add_each(w_r, gamma);
        let w_o_gamma = add_each(w_o, gamma);
        let w_4_gamma = add_each(w_4, gamma);

        proof {
            assert(sig[0] == sview(left_sigma_mapping@));
            assert(sig[1] == sview(right_sigma_mapping@));
            assert(sig[2] == sview(out_sigma_mapping@));
            assert(sig[3] == sview(fourth_sigma_mapping@));
        }

        let mut numerator_partial_components: Vec<Scalar> = Vec::new();
        let mut denominator_partial_components: Vec<Scalar> = Vec::new();
        let mut numerator_coefficients: Vec<Scalar> = Vec::new();
        let mut denominator_coefficients: Vec<Scalar> = Vec::new();
        numerator_coefficients.push(Scalar::one());
        denominator_coefficients.push(Scalar::one());

        // Numerator coefficients.
        let mut j: usize = 0;
        while j < n
            invariant
                n == domain.spec_size(),
                j <= n,
                w == wire_values(w_l, w_r, w_o, w_4),
                roots@.len() == n,
                forall|i: int| 0 <= i < n ==> #[trigger] roots@[i]@ == fpow(gen, i as nat),
                beta_roots@.len() == n && beta_roots_k1@.len() == n && beta_roots_k2@.len() == n && beta_roots_k3@.len() == n,
                forall|i: int| 0 <= i < n ==> #[trigger] beta_roots@[i]@ == fmul(roots@[i]@, beta@),
                forall|i: int| 0 <= i < n ==> #[trigger] beta_roots_k1@[i]@ == fmul(fmul(coset_constant(1), beta@), roots@[i]@),
                forall|i: int| 0 <= i < n ==> #[trigger] beta_roots_k2@[i]@ == fmul(fmul(coset_constant(2), beta@), roots@[i]@),
                forall|i: int| 0 <= i < n ==> #[trigger] beta_roots_k3@[i]@ == fmul(fmul(coset_constant(3), beta@), roots@[i]@),
                w_l_gamma@.len() == w_l@.len() && w_r_gamma@.len() == w_r@.len(),
                w_o_gamma@.len() == w_o@.len() && w_4_gamma@.len() == w_4@.len(),
                w_l@.len() >= n && w_r@.len() >= n && w_o@.len() >= n && w_4@.len() >= n,
                forall|i: int| 0 <= i < w_l@.len() ==> #[trigger] w_l_gamma@[i]@ == fadd(w_l@[i]@, gamma@),
                forall|i: int| 0 <= i < w_r@.len() ==> #[trigger] w_r_gamma@[i]@ == fadd(w_r@[i]@, gamma@),
                forall|i: int| 0 <= i < w_o@.len() ==> #[trigger] w_o_gamma@[i]@ == fadd(w_o@[i]@, gamma@),
                forall|i: int| 0 <= i < w_4@.len() ==> #[trigger] w_4_gamma@[i]@ == fadd(w_4@[i]@, gamma@),
                numerator_partial_components@.len() == j,
                forall|i: int| 0 <= i < j ==> #[trigger] numerator_partial_components@[i]@ == numerator_component(gen, w, i, beta@, gamma@),
                numerator_coefficients@.len() == j + 1,
                forall|i: int| 0 <= i <= j ==> #[trigger] numerator_coefficients@[i]@ == numerator_coefficient(gen, w, i as nat, beta@, gamma@),
            decreases n - j,
        {
            // (w_l + beta * root + gamma) and so on
            let prod_a = beta_roots[j].plus(w_l_gamma[j]);
            let prod_b = beta_roots_k1[j].plus(w_r_gamma[j]);
            let prod_c = beta_roots_k2[j].plus(w_o_gamma[j]);
            let prod_d = beta_roots_k3[j].plus(w_4_gamma[j]);
            let mut prod = prod_a.times(prod_b).times(prod_c).times(prod_d);
            numerator_partial_components.push(prod);
            prod = prod.times(numerator_coefficients[numerator_coefficients.len() - 1]);
            numerator_coefficients.push(prod);
            j = j + 1;
        }

        // Denominator coefficients.
        let mut j: usize = 0;
        while j < n
            invariant
                n == domain.spec_size(),
                j <= n,
                w == wire_values(w_l, w_r, w_o, w_4),
                sig[0] == sview(left_sigma_mapping@),
                sig[1] == sview(right_sigma_mapping@),
                sig[2] == sview(out_sigma_mapping@),
                sig[3] == sview(fourth_sigma_mapping@),
                left_sigma_mapping@.len() == n && right_sigma_mapping@.len() == n,
                out_sigma_mapping@.len() == n && fourth_sigma_mapping@.len() == n,
                beta_left_sigma@.len() == n && beta_right_sigma@.len() == n,
                beta_out_sigma@.len() == n && beta_fourth_sigma@.len() == n,
                forall|i: int| 0 <= i < n ==> #[trigger] beta_left_sigma@[i]@ == fmul(left_sigma_mapping@[i]@, beta@),
                forall|i: int| 0 <= i < n ==> #[trigger] beta_right_sigma@[i]@ == fmul(right_sigma_mapping@[i]@, beta@),
                forall|i: int| 0 <= i < n ==> #[trigger] beta_out_sigma@[i]@ == fmul(out_sigma_mapping@[i]@, beta@),
                forall|i: int| 0 <= i < n ==> #[trigger] beta_fourth_sigma@[i]@ == fmul(fourth_sigma_mapping@[i]@, beta@),
                w_l_gamma@.len() == w_l@.len() && w_r_gamma@.len() == w_r@.len(),
                w_o_gamma@.len() == w_o@.len() && w_4_gamma@.len() == w_4@.len(),
                w_l@.len() >= n && w_r@.len() >= n && w_o@.len() >= n && w_4@.len() >= n,
                forall|i: int| 0 <= i < w_l@.len() ==> #[trigger] w_l_gamma@[i]@ == fadd(w_l@[i]@, gamma@),
                forall|i: int| 0 <= i < w_r@.len() ==> #[trigger] w_r_gamma@[i]@ == fadd(w_r@[i]@, gamma@),
                forall|i: int| 0 <= i < w_o@.len() ==> #[trigger] w_o_gamma@[i]@ == fadd(w_o@[i]@, gamma@),
                forall|i: int| 0 <= i < w_4@.len() ==> #[trigger] w_4_gamma@[i]@ == fadd(w_4@[i]@, gamma@),
                denominator_partial_components@.len() == j,
                forall|i: int| 0 <= i < j ==> #[trigger] denominator_partial_components@[i]@ == denominator_component(w, sig, i, beta@, gamma@),
                denominator_coefficients@.len() == j + 1,
                forall|i: int| 0 <= i <= j ==> #[trigger] denominator_coefficients@[i]@ == denominator_coefficient(w, sig, i as nat, beta@, gamma@),
            decreases n - j,
        {
            // (w_l + beta * left_sigma + gamma) and so on
            let prod_a = beta_left_sigma[j].plus(w_l_gamma[j]);
            let prod_b = beta_right_sigma[j].plus(w_r_gamma[j]);
            let prod_c = beta_out_sigma[j].plus(w_o_gamma[j]);
            let prod_d = beta_fourth_sigma[j].plus(w_4_gamma[j]);
            let mut prod = prod_a.times(prod_b).times(prod_c).times(prod_d);
            denominator_partial_components.push(prod);
            let last_element = denominator_coefficients[denominator_coefficients.len() - 1];
            prod = prod.times(last_element);
            denominator_coefficients.push(prod);
            j = j + 1;
        }

        assert(denominator_coefficients.len() == n + 1);
        assert(numerator_coefficients.len() == n + 1);

        // The whole numerator equals the whole denominator.
        let a = numerator_coefficients[n];
        let b = denominator_coefficients[n];
        proof {
            assert(a@ == numerator_coefficient(gen, w, n as nat, beta@, gamma@));
            assert(b@ == denominator_coefficient(w, sig, n as nat, beta@, gamma@));
            assert(a@ != 0);
            assert(b@ != 0);
        }
        let b_inv = b.inverse().unwrap();
        let closing = a.times(b_inv);
        proof {
            assert(closing@ == 1);
            assert(invertible(b@));
            lemma_denominators_from_coefficient(w, sig, n as nat, beta@, gamma@);
        }

        // Remove the extra entries.
        numerator_coefficients.remove(n);
        denominator_coefficients.remove(n);

        // Divide the numerator by the denominator, entry by entry.
        let mut z_coefficients: Vec<Scalar> = Vec::with_capacity(n);
        let mut t: usize = 0;
        while t < n
            invariant
                n == domain.spec_size(),
                t <= n,
                numerator_coefficients@.len() == n && denominator_coefficients@.len() == n,
                forall|i: int| 0 <= i < n ==> #[trigger] numerator_coefficients@[i]@ == numerator_coefficient(gen, w, i as nat, beta@, gamma@),
                forall|i: int| 0 <= i < n ==> #[trigger] denominator_coefficients@[i]@ == denominator_coefficient(w, sig, i as nat, beta@, gamma@),
                denominator_coefficient(w, sig, n as nat, beta@, gamma@) != 0,
                z_coefficients@.len() == t,
                forall|i: int| 0 <= i < t ==> #[trigger] z_coefficients@[i]@ == paired_grand_product(gen, w, sig, i as nat, beta@, gamma@),
            decreases n - t,
        {
            proof {
                lemma_denominator_prefix_nonzero(w, sig, t as nat, n as nat, beta@, gamma@);
            }
            z_coefficients.push(numerator_coefficients[t].times(denominator_coefficients[t].inverse().unwrap()));
            t = t + 1;
        }
        assert(z_coefficients.len() == n);
        proof {
            assert(sview(z_coefficients@) =~= paired_grand_products(gen, w, sig, n as nat, beta@, gamma@));
            lemma_paired_grand_products_agree(gen, w, sig, n as nat, beta@, gamma@);
            assert(sview(numerator_partial_components@) =~= Seq::new(n as nat, |j: int| numerator_component(gen, w, j, beta@, gamma@)));
            assert(sview(denominator_partial_components@) =~= Seq::new(n as nat, |j: int| denominator_component(w, sig, j, beta@, gamma@)));
        }
        (z_coefficients, numerator_partial_components, denominator_partial_components)
    }

    /// The grand product over the domain, computed as eight running
    /// products (four numerator factors, four inverted denominator factors)
    /// that are multiplied together at the end.
    pub fn compute_fast_permutation_poly(
        &self,
        domain: &EvaluationDomain,
        w_l: &[Scalar],
        w_r: &[Scalar],
        w_o: &[Scalar],
        w_4: &[Scalar],
        beta: Scalar,
        gamma: Scalar,
        sigma_polys: (&DensePolynomial, &DensePolynomial, &DensePolynomial, &DensePolynomial),
    ) -> (r: Vec<Scalar>)
        requires
            domain.wf(),
            w_l@.len() >= domain.spec_size(),
            w_r@.len() >= domain.spec_size(),
            w_o@.len() >= domain.spec_size(),
            w_4@.len() >= domain.spec_size(),
            forall|c: int, j: int|
                0 <= c < 4 && 0 <= j < domain.spec_size() ==> #[trigger] split_sigma_factor(
                    wire_values(w_l, w_r, w_o, w_4),
                    sigma_values(*domain, sigma_polys.0, sigma_polys.1, sigma_polys.2, sigma_polys.3),
                    c,
                    j,
                    beta@,
                    gamma@,
                ) != 0,
        ensures
            sview(r@) == split_grand_products(
                domain.gen(),
                wire_values(w_l, w_r, w_o, w_4),
                sigma_values(*domain, sigma_polys.0, sigma_polys.1, sigma_polys.2, sigma_polys.3),
                domain.spec_size(),
                beta@,
                gamma@,
            ),
            sview(r@) == grand_products(
                domain.gen(),
                wire_values(w_l, w_r, w_o, w_4),
                sigma_values(*domain, sigma_polys.0, sigma_polys.1, sigma_polys.2, sigma_polys.3),
                domain.spec_size(),
                beta@,
                gamma@,
            ),
    {
        let ghost w = wire_values(w_l, w_r, w_o, w_4);
        let ghost sig = sigma_values(*domain, sigma_polys.0, sigma_polys.1, sigma_polys.2, sigma_polys.3);
        let ghost gen = domain.gen();
        let n = domain.size();

        // beta * roots
        let roots = domain.elements();
        let common_roots = mul_each(roots.as_slice(), beta);

        let left_sigma_mapping = domain.fft(sigma_polys.0.coeffs().as_slice());
        let right_sigma_mapping = domain.fft(sigma_polys.1.coeffs().as_slice());
        let out_sigma_mapping = domain.fft(sigma_polys.2.coeffs().as_slice());
        let fourth_sigma_mapping = domain.fft(sigma_polys.3.coeffs().as_slice());

        // beta * sigma values
        let beta_left_sigmas = mul_each(left_sigma_mapping.as_slice(), beta);
        let beta_right_sigmas = mul_each(right_sigma_mapping.as_slice(), beta);
        let beta_out_sigmas = mul_each(out_sigma_mapping.as_slice(), beta);
        let beta_fourth_sigmas = mul_each(fourth_sigma_mapping.as_slice(), beta);

        // beta * roots * K1, K2, K3
        let beta_roots_k1 = mul_each(common_roots.as_slice(), k1());
        let beta_roots_k2 = mul_each(common_roots.as_slice(), k2());
        let beta_roots_k3 = mul_each(common_roots.as_slice(), k3());

        // wire + gamma
        let w_l_gamma = add_each(w_l, gamma);
        let w_r_gamma = add_each(w_r, gamma);
        let w_o_gamma = add_each(w_o, gamma);
        let w_4_gamma = add_each(w_4, gamma);

        proof {
            assert(sig[0] == sview(left_sigma_mapping@));
            assert(sig[1] == sview(right_sigma_mapping@));
            assert(sig[2] == sview(out_sigma_mapping@));
            assert(sig[3] == sview(fourth_sigma_mapping@));
        }

        // The eight components of every gate.
        let mut ac1: Vec<Scalar> = Vec::new();
        let mut ac2: Vec<Scalar> = Vec::new();
        let mut ac3: Vec<Scalar> = Vec::new();
        let mut ac4: Vec<Scalar> = Vec::new();
        let mut ac5: Vec<Scalar> = Vec::new();
        let mut ac6: Vec<Scalar> = Vec::new();
        let mut ac7: Vec<Scalar> = Vec::new();
        let mut ac8: Vec<Scalar> = Vec::new();
        let mut j: usize = 0;
        while j < n
            invariant
                n == domain.spec_size(),
                j <= n,
                w == wire_values(w_l, w_r, w_o, w_4),
                sig[0] == sview(left_sigma_mapping@),
                sig[1] == sview(right_sigma_mapping@),
                sig[2] == sview(out_sigma_mapping@),
                sig[3] == sview(fourth_sigma_mapping@),
                roots@.len() == n,
                forall|i: int| 0 <= i < n ==> #[trigger] roots@[i]@ == fpow(gen, i as nat),
                common_roots@.len() == n,
                forall|i: int| 0 <= i < n ==> #[trigger] common_roots@[i]@ == fmul(roots@[i]@, beta@),
                beta_roots_k1@.len() == n && beta_roots_k2@.len() == n && beta_roots_k3@.len() == n,
                forall|i: int| 0 <= i < n ==> #[trigger] beta_roots_k1@[i]@ == fmul(common_roots@[i]@, coset_constant(1)),
                forall|i: int| 0 <= i < n ==> #[trigger] beta_roots_k2@[i]@ == fmul(common_roots@[i]@, coset_constant(2)),
                forall|i: int| 0 <= i < n ==> #[trigger] beta_roots_k3@[i]@ == fmul(common_roots@[i]@, coset_constant(3)),
                left_sigma_mapping@.len() == n && right_sigma_mapping@.len() == n,
                out_sigma_mapping@.len() == n && fourth_sigma_mapping@.len() == n,
                beta_left_sigmas@.len() == n && beta_right_sigmas@.len() == n,
                beta_out_sigmas@.len() == n && beta_fourth_sigmas@.len() == n,
                forall|i: int| 0 <= i < n ==> #[trigger] beta_left_sigmas@[i]@ == fmul(left_sigma_mapping@[i]@, beta@),
                forall|i: int| 0 <= i < n ==> #[trigger] beta_right_sigmas@[i]@ == fmul(right_sigma_mapping@[i]@, beta@),
                forall|i: int| 0 <= i < n ==> #[trigger] beta_out_sigmas@[i]@ == fmul(out_sigma_mapping@[i]@, beta@),
                forall|i: int| 0 <= i < n ==> #[trigger] beta_fourth_sigmas@[i]@ == fmul(fourth_sigma_mapping@[i]@, beta@),
                w_l_gamma@.len() >= n && w_r_gamma@.len() >= n && w_o_gamma@.len() >= n && w_4_gamma@.len() >= n,
                w_l_gamma@.len() == w_l@.len() && w_r_gamma@.len() == w_r@.len(),
                w_o_gamma@.len() == w_o@.len() && w_4_gamma@.len() == w_4@.len(),
                forall|i: int| 0 <= i < w_l@.len() ==> #[trigger] w_l_gamma@[i]@ == fadd(w_l@[i]@, gamma@),
                forall|i: int| 0 <= i < w_r@.len() ==> #[trigger] w_r_gamma@[i]@ == fadd(w_r@[i]@, gamma@),
                forall|i: int| 0 <= i < w_o@.len() ==> #[trigger] w_o_gamma@[i]@ == fadd(w_o@[i]@, gamma@),
                forall|i: int| 0 <= i < w_4@.len() ==> #[trigger] w_4_gamma@[i]@ == fadd(w_4@[i]@, gamma@),
                forall|c: int, i: int|
                    0 <= c < 4 && 0 <= i < n ==> #[trigger] split_sigma_factor(w, sig, c, i, beta@, gamma@) != 0,
                forall|c: int, i: int|
                    0 <= c < 4 && 0 <= i < j ==> invertible(#[trigger] split_sigma_factor(w, sig, c, i, beta@, gamma@)),
                ac1@.len() == j && ac2@.len() == j && ac3@.len() == j && ac4@.len() == j,
                ac5@.len() == j && ac6@.len() == j && ac7@.len() == j && ac8@.len() == j,
                forall|i: int| 0 <= i < j ==> #[trigger] ac1@[i]@ == split_component(gen, w, sig, 0, i, beta@, gamma@),
                forall|i: int| 0 <= i < j ==> #[trigger] ac2@[i]@ == split_component(gen, w, sig, 1, i, beta@, gamma@),
                forall|i: int| 0 <= i < j ==> #[trigger] ac3@[i]@ == split_component(gen, w, sig, 2, i, beta@, gamma@),
                forall|i: int| 0 <= i < j ==> #[trigger] ac4@[i]@ == split_component(gen, w, sig, 3, i, beta@, gamma@),
                forall|i: int| 0 <= i < j ==> #[trigger] ac5@[i]@ == split_component(gen, w, sig, 4, i, beta@, gamma@),
                forall|i: int| 0 <= i < j ==> #[trigger] ac6@[i]@ == split_component(gen, w, sig, 5, i, beta@, gamma@),
                forall|i: int| 0 <= i < j ==> #[trigger] ac7@[i]@ == split_component(gen, w, sig, 6, i, beta@, gamma@),
                forall|i: int| 0 <= i < j ==> #[trigger] ac8@[i]@ == split_component(gen, w, sig, 7, i, beta@, gamma@),
            decreases n - j,
        {
            proof {
                assert(split_sigma_factor(w, sig, 0, j as int, beta@, gamma@) != 0);
                assert(split_sigma_factor(w, sig, 1, j as int, beta@, gamma@) != 0);
                assert(split_sigma_factor(w, sig, 2, j as int, beta@, gamma@) != 0);
                assert(split_sigma_factor(w, sig, 3, j as int, beta@, gamma@) != 0);
            }
            // w_j + beta * root^j + gamma, and likewise on the cosets
            ac1.push(w_l_gamma[j].plus(common_roots[j]));
            ac2.push(w_r_gamma[j].plus(beta_roots_k1[j]));
            ac3.push(w_o_gamma[j].plus(beta_roots_k2[j]));
            ac4.push(w_4_gamma[j].plus(beta_roots_k3[j]));
            // 1 / (w_j + beta * sigma(j) + gamma), and likewise
            let x5 = w_l_gamma[j].plus(beta_left_sigmas[j]);
            let x6 = w_r_gamma[j].plus(beta_right_sigmas[j]);
            let x7 = w_o_gamma[j].plus(beta_out_sigmas[j]);
            let x8 = w_4_gamma[j].plus(beta_fourth_sigmas[j]);
            proof {
                assert(x5@ == split_sigma_factor(w, sig, 0, j as int, beta@, gamma@));
                assert(x6@ == split_sigma_factor(w, sig, 1, j as int, beta@, gamma@));
                assert(x7@ == split_sigma_factor(w, sig, 2, j as int, beta@, gamma@));
                assert(x8@ == split_sigma_factor(w, sig, 3, j as int, beta@, gamma@));
            }
            ac5.push(x5.inverse().unwrap());
            ac6.push(x6.inverse().unwrap());
            ac7.push(x7.inverse().unwrap());
            ac8.push(x8.inverse().unwrap());
            j = j + 1;
        }

        proof {
            assert forall|c: int, i: int| 0 <= c < 4 && 0 <= i < n implies invertible(
                #[trigger] denominator_factor(w[c][i], sig[c][i], beta@, gamma@),
            ) by {
                lemma_split_factors(gen, w, sig, c, i, beta@, gamma@);
                assert(invertible(split_sigma_factor(w, sig, c, i, beta@, gamma@)));
            }
            assert(denominators_invertible(w, sig, n as nat, beta@, gamma@));
        }

        // Running products of each component, from one, and their product.
        let mut p1 = Scalar::one();
        let mut p2 = Scalar::one();
        let mut p3 = Scalar::one();
        let mut p4 = Scalar::one();
        let mut p5 = Scalar::one();
        let mut p6 = Scalar::one();
        let mut p7 = Scalar::one();
        let mut p8 = Scalar::one();
        let mut z: Vec<Scalar> = Vec::new();
        let mut t: usize = 0;
        while t <= n
            invariant
                n == domain.spec_size(),
                n < usize::MAX,
                t <= n + 1,
                denominators_invertible(w, sig, n as nat, beta@, gamma@),
                ac1@.len() == n && ac2@.len() == n && ac3@.len() == n && ac4@.len() == n,
                ac5@.len() == n && ac6@.len() == n && ac7@.len() == n && ac8@.len() == n,
                forall|i: int| 0 <= i < n ==> #[trigger] ac1@[i]@ == split_component(gen, w, sig, 0, i, beta@, gamma@),
                forall|i: int| 0 <= i < n ==> #[trigger] ac2@[i]@ == split_component(gen, w, sig, 1, i, beta@, gamma@),
                forall|i: int| 0 <= i < n ==> #[trigger] ac3@[i]@ == split_component(gen, w, sig, 2, i, beta@, gamma@),
                forall|i: int| 0 <= i < n ==> #[trigger] ac4@[i]@ == split_component(gen, w, sig, 3, i, beta@, gamma@),
                forall|i: int| 0 <= i < n ==> #[trigger] ac5@[i]@ == split_component(gen, w, sig, 4, i, beta@, gamma@),
                forall|i: int| 0 <= i < n ==> #[trigger] ac6@[i]@ == split_component(gen, w, sig, 5, i, beta@, gamma@),
                forall|i: int| 0 <= i < n ==> #[trigger] ac7@[i]@ == split_component(gen, w, sig, 6, i, beta@, gamma@),
                forall|i: int| 0 <= i < n ==> #[trigger] ac8@[i]@ == split_component(gen, w, sig, 7, i, beta@, gamma@),
                t <= n ==> (p1@ == split_prefix(gen, w, sig, 0, t as nat, beta@, gamma@)
                    && p2@ == split_prefix(gen, w, sig, 1, t as nat, beta@, gamma@)
                    && p3@ == split_prefix(gen, w, sig, 2, t as nat, beta@, gamma@)
                    && p4@ == split_prefix(gen, w, sig, 3, t as nat, beta@, gamma@)
                    && p5@ == split_prefix(gen, w, sig, 4, t as nat, beta@, gamma@)
                    && p6@ == split_prefix(gen, w, sig, 5, t as nat, beta@, gamma@)
                    && p7@ == split_prefix(gen, w, sig, 6, t as nat, beta@, gamma@)
                    && p8@ == split_prefix(gen, w, sig, 7, t as nat, beta@, gamma@)),
                z@.len() == t,
                forall|i: int| 0 <= i < t ==> #[trigger] z@[i]@ == split_grand_product(gen, w, sig, i as nat, beta@, gamma@),
            decreases n + 1 - t,
        {
            z.push(Scalar::one().times(p1).times(p2).times(p3).times(p4).times(p5).times(p6).times(p7).times(p8));
            if t < n {
                p1 = p1.times(ac1[t]);
                p2 = p2.times(ac2[t]);
                p3 = p3.times(ac3[t]);
                p4 = p4.times(ac4[t]);
                p5 = p5.times(ac5[t]);
                p6 = p6.times(ac6[t]);
                p7 = p7.times(ac7[t]);
                p8 = p8.times(ac8[t]);
            }
            t = t + 1;
        }

        // Remove the last (n+1-th) entry.
        z.remove(n);
        proof {
            assert(sview(z@) =~= split_grand_products(gen, w, sig, n as nat, beta@, gamma@));
            lemma_split_grand_products_agree(gen, w, sig, n as nat, beta@, gamma@);
        }
        z
    }
}


// ---------------------------------------------------------------------
// The three methods agree.

/// `x` has a multiplicative inverse.
pub open spec fn invertible(x: nat) -> bool {
    is_inverse(x, finv(x))
}

/// The product of a sequence of field elements, multiplied up from one in
/// order.
pub open spec fn fprod(s: Seq<nat>) -> nat
    decreases s.len(),
{
    if s.len() == 0 {
        1
    } else {
        fmul(fprod(s.drop_last()), s.last())
    }
}

/// One more element multiplies a prefix's product by it.
proof fn lemma_fprod_take(s: Seq<nat>, i: int)
    requires
        0 <= i < s.len(),
    ensures
        fprod(s.take(i + 1)) == fmul(fprod(s.take(i)), s[i]),
{
    assert(s.take(i + 1).drop_last() =~= s.take(i));
}

/// Multiplying up four elements in order is their `fprod`.
pub(crate) proof fn lemma_fprod4(s: Seq<nat>)
    requires
        s.len() == 4,
    ensures
        fprod(s) == product4(s[0], s[1], s[2], s[3]),
{
    assert(s.take(0).len() == 0);
    lemma_fprod_take(s, 0);
    lemma_fprod_take(s, 1);
    lemma_fprod_take(s, 2);
    lemma_fprod_take(s, 3);
    assert(s.take(4) =~= s);
}

/// Multiplying up eight elements in order is their `fprod`.
proof fn lemma_fprod8(s: Seq<nat>)
    requires
        s.len() == 8,
    ensures
        fprod(s) == fmul(fmul(fmul(fmul(fmul(fmul(fmul(fmul(1, s[0]), s[1]), s[2]), s[3]), s[4]), s[5]), s[6]), s[7]),
{
    assert(s.take(0).len() == 0);
    lemma_fprod_take(s, 0);
    lemma_fprod_take(s, 1);
    lemma_fprod_take(s, 2);
    lemma_fprod_take(s, 3);
    lemma_fprod_take(s, 4);
    lemma_fprod_take(s, 5);
    lemma_fprod_take(s, 6);
    lemma_fprod_take(s, 7);
    assert(s.take(8) =~= s);
}

/// The product of pointwise products is the product of the products.
proof fn lemma_fprod_pointwise(a: Seq<nat>, b: Seq<nat>)
    requires
        a.len() == b.len(),
    ensures
        fprod(Seq::new(a.len(), |i: int| fmul(a[i], b[i]))) == fmul(fprod(a), fprod(b)),
    decreases a.len(),
{
    let ab = Seq::new(a.len(), |i: int| fmul(a[i], b[i]));
    if a.len() == 0 {
        lemma_fmul_one(1);
    } else {
        let a1 = a.drop_last();
        let b1 = b.drop_last();
        assert(ab.drop_last() =~= Seq::new(a1.len(), |i: int| fmul(a1[i], b1[i])));
        lemma_fprod_pointwise(a1, b1);
        assert(ab.last() == fmul(a.last(), b.last()));
        assert(fprod(ab) == fmul(fprod(ab.drop_last()), ab.last()));
        assert(fprod(a) == fmul(fprod(a1), a.last()));
        assert(fprod(b) == fmul(fprod(b1), b.last()));
        lemma_fmul_interchange(fprod(a1), fprod(b1), a.last(), b.last());
    }
}

/// The product of a concatenation is the product of the products.
pub(crate) proof fn lemma_fprod_concat(a: Seq<nat>, b: Seq<nat>)
    ensures
        fprod(a + b) == fmul(fprod(a), fprod(b)),
    decreases b.len(),
{
    if b.len() == 0 {
        assert(a + b =~= a);
        lemma_fprod_bound(a);
        lemma_fmul_one(fprod(a));
    } else {
        assert((a + b).drop_last() =~= a + b.drop_last());
        lemma_fprod_concat(a, b.drop_last());
        lemma_fmul_assoc(fprod(a), fprod(b.drop_last()), b.last());
    }
}

/// Products are canonical.
pub(crate) proof fn lemma_fprod_bound(s: Seq<nat>)
    ensures
        fprod(s) < modulus(),
    decreases s.len(),
{
    if s.len() > 0 {
        lemma_fprod_bound(s.drop_last());
    }
}

/// The inverse of a product of four invertible factors is the product of
/// their inverses, and the product is invertible.
proof fn lemma_finv_product4(d0: nat, d1: nat, d2: nat, d3: nat)
    requires
        d0 < modulus(),
        invertible(d0),
        invertible(d1),
        invertible(d2),
        invertible(d3),
    ensures
        invertible(product4(d0, d1, d2, d3)),
        finv(product4(d0, d1, d2, d3)) == product4(finv(d0), finv(d1), finv(d2), finv(d3)),
{
    lemma_fmul_one(d0);
    lemma_fmul_one(finv(d0));
    lemma_finv_mul(d0, d1);
    let d01 = fmul(d0, d1);
    lemma_inverse_unique(d01, fmul(finv(d0), finv(d1)));
    lemma_finv_mul(d01, d2);
    let d012 = fmul(d01, d2);
    lemma_inverse_unique(d012, fmul(finv(d01), finv(d2)));
    lemma_finv_mul(d012, d3);
    lemma_inverse_unique(fmul(d012, d3), fmul(finv(d012), finv(d3)));
}

/// The eight components of gate `j`.
pub open spec fn split_components(gen: nat, w: Seq<Seq<nat>>, sig: Seq<Seq<nat>>, j: int, beta: nat, gamma: nat) -> Seq<nat> {
    Seq::new(8, |k: int| split_component(gen, w, sig, k, j, beta, gamma))
}

/// The eight running products at `t`.
pub open spec fn split_prefixes(gen: nat, w: Seq<Seq<nat>>, sig: Seq<Seq<nat>>, t: nat, beta: nat, gamma: nat) -> Seq<nat> {
    Seq::new(8, |k: int| split_prefix(gen, w, sig, k, t, beta, gamma))
}

/// Every denominator factor of the first `n` gates is invertible.
pub open spec fn denominators_invertible(w: Seq<Seq<nat>>, sig: Seq<Seq<nat>>, n: nat, beta: nat, gamma: nat) -> bool {
    forall|c: int, j: int|
        0 <= c < 4 && 0 <= j < n ==> invertible(#[trigger] denominator_factor(w[c][j], sig[c][j], beta, gamma))
}

/// The eight-product forms of the factors are the factors.
proof fn lemma_split_factors(gen: nat, w: Seq<Seq<nat>>, sig: Seq<Seq<nat>>, c: int, j: int, beta: nat, gamma: nat)
    requires
        0 <= c < 4,
    ensures
        split_identity_factor(gen, w, c, j, beta, gamma) == numerator_factor(
            fpow(gen, j as nat),
            w[c][j],
            coset_constant(c),
            beta,
            gamma,
        ),
        split_sigma_factor(w, sig, c, j, beta, gamma) == denominator_factor(w[c][j], sig[c][j], beta, gamma),
{
    let root = fpow(gen, j as nat);
    let k = coset_constant(c);
    if c == 0 {
        lemma_fmul_mod(beta, root);
        lemma_fmul_comm(root, beta);
        assert(fmul(beta, 1) == beta % modulus());
        lemma_fadd_swap(w[c][j], fmul(fmul(beta, k), root), gamma);
    } else {
        lemma_fmul_rotate(root, beta, k);
        lemma_fmul_rotate(beta, k, root);
        lemma_fadd_swap(w[c][j], fmul(fmul(beta, k), root), gamma);
    }
    lemma_fmul_comm(sig[c][j], beta);
    lemma_fadd_swap(w[c][j], fmul(beta, sig[c][j]), gamma);
}

/// The first four components of gate `j` multiply to its numerator.
proof fn lemma_split_numerator(gen: nat, w: Seq<Seq<nat>>, sig: Seq<Seq<nat>>, j: int, beta: nat, gamma: nat)
    ensures
        fprod(split_components(gen, w, sig, j, beta, gamma).take(4)) == gate_numerator(gen, w, j, beta, gamma),
{
    let first = split_components(gen, w, sig, j, beta, gamma).take(4);
    let root = fpow(gen, j as nat);
    lemma_split_factors(gen, w, sig, 0, j, beta, gamma);
    lemma_split_factors(gen, w, sig, 1, j, beta, gamma);
    lemma_split_factors(gen, w, sig, 2, j, beta, gamma);
    lemma_split_factors(gen, w, sig, 3, j, beta, gamma);
    assert(first =~= seq![
        numerator_factor(root, w[0][j], coset_constant(0), beta, gamma),
        numerator_factor(root, w[1][j], coset_constant(1), beta, gamma),
        numerator_factor(root, w[2][j], coset_constant(2), beta, gamma),
        numerator_factor(root, w[3][j], coset_constant(3), beta, gamma),
    ]);
    lemma_fprod4(first);
}

/// The last four components of gate `j` multiply to the inverse of its
/// denominator.
proof fn lemma_split_denominator(gen: nat, w: Seq<Seq<nat>>, sig: Seq<Seq<nat>>, j: int, beta: nat, gamma: nat)
    requires
        forall|c: int| 0 <= c < 4 ==> invertible(#[trigger] denominator_factor(w[c][j], sig[c][j], beta, gamma)),
    ensures
        fprod(split_components(gen, w, sig, j, beta, gamma).skip(4)) == finv(gate_denominator(w, sig, j, beta, gamma)),
{
    let last = split_components(gen, w, sig, j, beta, gamma).skip(4);
    let d0 = denominator_factor(w[0][j], sig[0][j], beta, gamma);
    let d1 = denominator_factor(w[1][j], sig[1][j], beta, gamma);
    let d2 = denominator_factor(w[2][j], sig[2][j], beta, gamma);
    let d3 = denominator_factor(w[3][j], sig[3][j], beta, gamma);
    lemma_split_factors(gen, w, sig, 0, j, beta, gamma);
    lemma_split_factors(gen, w, sig, 1, j, beta, gamma);
    lemma_split_factors(gen, w, sig, 2, j, beta, gamma);
    lemma_split_factors(gen, w, sig, 3, j, beta, gamma);
    assert(last =~= seq![finv(d0), finv(d1), finv(d2), finv(d3)]);
    lemma_fprod4(last);
    assert(invertible(d0) && invertible(d1) && invertible(d2) && invertible(d3));
    lemma_finv_product4(d0, d1, d2, d3);
}

/// The product of gate `j`'s eight components is its ratio.
proof fn lemma_split_components_product(gen: nat, w: Seq<Seq<nat>>, sig: Seq<Seq<nat>>, j: int, beta: nat, gamma: nat)
    requires
        forall|c: int| 0 <= c < 4 ==> invertible(#[trigger] denominator_factor(w[c][j], sig[c][j], beta, gamma)),
    ensures
        fprod(split_components(gen, w, sig, j, beta, gamma)) == gate_ratio(gen, w, sig, j, beta, gamma),
{
    let comps = split_components(gen, w, sig, j, beta, gamma);
    assert(comps =~= comps.take(4) + comps.skip(4));
    lemma_fprod_concat(comps.take(4), comps.skip(4));
    lemma_split_numerator(gen, w, sig, j, beta, gamma);
    lemma_split_denominator(gen, w, sig, j, beta, gamma);
}

/// The eight running products, multiplied together, are the grand product.
proof fn lemma_split_prefixes_product(gen: nat, w: Seq<Seq<nat>>, sig: Seq<Seq<nat>>, t: nat, beta: nat, gamma: nat)
    requires
        denominators_invertible(w, sig, t, beta, gamma),
    ensures
        fprod(split_prefixes(gen, w, sig, t, beta, gamma)) == grand_product(gen, w, sig, t, beta, gamma),
    decreases t,
{
    let p = split_prefixes(gen, w, sig, t, beta, gamma);
    if t == 0 {
        lemma_fprod8(p);
    } else {
        let u = (t - 1) as nat;
        lemma_split_prefixes_product(gen, w, sig, u, beta, gamma);
        let prev = split_prefixes(gen, w, sig, u, beta, gamma);
        let comps = split_components(gen, w, sig, u as int, beta, gamma);
        assert(p =~= Seq::new(prev.len(), |k: int| fmul(prev[k], comps[k])));
        lemma_fprod_pointwise(prev, comps);
        assert forall|c: int| 0 <= c < 4 implies invertible(#[trigger] denominator_factor(w[c][u as int], sig[c][u as int], beta, gamma)) by {
            assert(invertible(denominator_factor(w[c][u as int], sig[c][u as int], beta, gamma)));
        }
        lemma_split_components_product(gen, w, sig, u as int, beta, gamma);
    }
}

/// The eight-product method computes the grand product: for every input
/// whose denominator factors are all invertible (nonzero), its entries are
/// those of `Permutation::compute_permutation_poly`'s running product.
pub proof fn lemma_split_grand_products_agree(
    gen: nat,
    w: Seq<Seq<nat>>,
    sig: Seq<Seq<nat>>,
    n: nat,
    beta: nat,
    gamma: nat,
)
    requires
        denominators_invertible(w, sig, n, beta, gamma),
    ensures
        split_grand_products(gen, w, sig, n, beta, gamma) == grand_products(gen, w, sig, n, beta, gamma),
{
    assert forall|t: int| 0 <= t < n implies #[trigger] split_grand_products(gen, w, sig, n, beta, gamma)[t]
        == grand_products(gen, w, sig, n, beta, gamma)[t] by {
        assert(denominators_invertible(w, sig, t as nat, beta, gamma));
        lemma_split_prefixes_product(gen, w, sig, t as nat, beta, gamma);
        lemma_fprod8(split_prefixes(gen, w, sig, t as nat, beta, gamma));
    }
    assert(split_grand_products(gen, w, sig, n, beta, gamma) =~= grand_products(gen, w, sig, n, beta, gamma));
}

/// The numerator/denominator forms of the factors are the factors.
proof fn lemma_paired_factors(gen: nat, w: Seq<Seq<nat>>, sig: Seq<Seq<nat>>, c: int, j: int, beta: nat, gamma: nat)
    requires
        0 <= c < 4,
    ensures
        paired_numerator_factor(gen, w, c, j, beta, gamma) == numerator_factor(
            fpow(gen, j as nat),
            w[c][j],
            coset_constant(c),
            beta,
            gamma,
        ),
        paired_denominator_factor(w, sig, c, j, beta, gamma) == denominator_factor(w[c][j], sig[c][j], beta, gamma),
{
    let root = fpow(gen, j as nat);
    let k = coset_constant(c);
    if c == 0 {
        lemma_fmul_mod(beta, root);
        lemma_fmul_comm(root, beta);
        assert(fmul(beta, 1) == beta % modulus());
        lemma_fadd_swap(w[c][j], gamma, fmul(fmul(beta, k), root));
    } else {
        lemma_fmul_rotate(k, beta, root);
        lemma_fadd_swap(w[c][j], gamma, fmul(fmul(beta, k), root));
    }
    lemma_fmul_comm(sig[c][j], beta);
    lemma_fadd_swap(w[c][j], gamma, fmul(beta, sig[c][j]));
}

/// A gate's numerator and denominator components are its numerator and
/// denominator.
pub(crate) proof fn lemma_paired_components(gen: nat, w: Seq<Seq<nat>>, sig: Seq<Seq<nat>>, j: int, beta: nat, gamma: nat)
    ensures
        numerator_component(gen, w, j, beta, gamma) == gate_numerator(gen, w, j, beta, gamma),
        denominator_component(w, sig, j, beta, gamma) == gate_denominator(w, sig, j, beta, gamma),
{
    lemma_paired_factors(gen, w, sig, 0, j, beta, gamma);
    lemma_paired_factors(gen, w, sig, 1, j, beta, gamma);
    lemma_paired_factors(gen, w, sig, 2, j, beta, gamma);
    lemma_paired_factors(gen, w, sig, 3, j, beta, gamma);
    lemma_fmul_one(paired_numerator_factor(gen, w, 0, j, beta, gamma));
    lemma_fmul_one(paired_denominator_factor(w, sig, 0, j, beta, gamma));
}

/// Up to `t`, the running denominator is invertible and the running
/// numerator over it is the grand product.
pub(crate) proof fn lemma_paired_prefix(gen: nat, w: Seq<Seq<nat>>, sig: Seq<Seq<nat>>, t: nat, beta: nat, gamma: nat)
    requires
        denominators_invertible(w, sig, t, beta, gamma),
    ensures
        invertible(denominator_coefficient(w, sig, t, beta, gamma)),
        paired_grand_product(gen, w, sig, t, beta, gamma) == grand_product(gen, w, sig, t, beta, gamma),
    decreases t,
{
    if t == 0 {
        lemma_fmul_one(1);
        lemma_inverse_unique(1, 1);
    } else {
        let u = (t - 1) as nat;
        let j = u as int;
        assert(denominators_invertible(w, sig, u, beta, gamma));
        lemma_paired_prefix(gen, w, sig, u, beta, gamma);
        lemma_paired_components(gen, w, sig, j, beta, gamma);
        let nn = numerator_coefficient(gen, w, u, beta, gamma);
        let dd = denominator_coefficient(w, sig, u, beta, gamma);
        let gn = gate_numerator(gen, w, j, beta, gamma);
        let gd = gate_denominator(w, sig, j, beta, gamma);
        let d0 = denominator_factor(w[0][j], sig[0][j], beta, gamma);
        let d1 = denominator_factor(w[1][j], sig[1][j], beta, gamma);
        let d2 = denominator_factor(w[2][j], sig[2][j], beta, gamma);
        let d3 = denominator_factor(w[3][j], sig[3][j], beta, gamma);
        assert(invertible(d0) && invertible(d1) && invertible(d2) && invertible(d3));
        lemma_finv_product4(d0, d1, d2, d3);
        assert(invertible(gd));
        // D(t) = gd * dd, and its inverse is finv(gd) * finv(dd)
        lemma_finv_mul(gd, dd);
        assert(denominator_coefficient(w, sig, t, beta, gamma) == fmul(gd, dd));
        assert(numerator_coefficient(gen, w, t, beta, gamma) == fmul(gn, nn));
        // G(t) = (nn / dd) * (gn / gd) = (gn nn) (finv gd finv dd)
        lemma_fmul_interchange(nn, finv(dd), gn, finv(gd));
        lemma_fmul_comm(nn, gn);
        lemma_fmul_comm(finv(dd), finv(gd));
    }
}

/// The numerator/denominator method computes the grand product: for every
/// input whose denominator factors are all invertible (nonzero), its entries
/// are those of `Permutation::compute_permutation_poly`'s running product.
pub proof fn lemma_paired_grand_products_agree(
    gen: nat,
    w: Seq<Seq<nat>>,
    sig: Seq<Seq<nat>>,
    n: nat,
    beta: nat,
    gamma: nat,
)
    requires
        denominators_invertible(w, sig, n, beta, gamma),
    ensures
        paired_grand_products(gen, w, sig, n, beta, gamma) == grand_products(gen, w, sig, n, beta, gamma),
{
    assert forall|t: int| 0 <= t < n implies #[trigger] paired_grand_products(gen, w, sig, n, beta, gamma)[t]
        == grand_products(gen, w, sig, n, beta, gamma)[t] by {
        assert(denominators_invertible(w, sig, t as nat, beta, gamma));
        lemma_paired_prefix(gen, w, sig, t as nat, beta, gamma);
    }
    assert(paired_grand_products(gen, w, sig, n, beta, gamma) =~= grand_products(gen, w, sig, n, beta, gamma));
}

/// A factor of an invertible product is invertible.
pub proof fn lemma_invertible_factors(a: nat, b: nat)
    requires
        invertible(fmul(a, b)),
    ensures
        invertible(a),
        invertible(b),
{
    let x = finv(fmul(a, b));
    lemma_fmul_assoc(a, b, x);
    lemma_inverse_unique(a, fmul(b, x));
    lemma_fmul_comm(a, b);
    lemma_fmul_assoc(b, a, x);
    lemma_inverse_unique(b, fmul(a, x));
}

/// An invertible running denominator has every denominator factor of its
/// gates invertible.
pub proof fn lemma_denominators_from_coefficient(w: Seq<Seq<nat>>, sig: Seq<Seq<nat>>, t: nat, beta: nat, gamma: nat)
    requires
        invertible(denominator_coefficient(w, sig, t, beta, gamma)),
    ensures
        denominators_invertible(w, sig, t, beta, gamma),
    decreases t,
{
    if t > 0 {
        let u = (t - 1) as nat;
        let j = u as int;
        lemma_invertible_factors(denominator_component(w, sig, j, beta, gamma), denominator_coefficient(w, sig, u, beta, gamma));
        lemma_denominators_from_coefficient(w, sig, u, beta, gamma);
        lemma_paired_components(0, w, sig, j, beta, gamma);
        let d0 = denominator_factor(w[0][j], sig[0][j], beta, gamma);
        let d1 = denominator_factor(w[1][j], sig[1][j], beta, gamma);
        let d2 = denominator_factor(w[2][j], sig[2][j], beta, gamma);
        let d3 = denominator_factor(w[3][j], sig[3][j], beta, gamma);
        assert(gate_denominator(w, sig, j, beta, gamma) == fmul(fmul(fmul(fmul(1, d0), d1), d2), d3));
        lemma_invertible_factors(fmul(fmul(fmul(1, d0), d1), d2), d3);
        lemma_invertible_factors(fmul(fmul(1, d0), d1), d2);
        lemma_invertible_factors(fmul(1, d0), d1);
        lemma_fmul_one(d0);
        assert forall|c: int, i: int| 0 <= c < 4 && 0 <= i < t implies invertible(
            #[trigger] denominator_factor(w[c][i], sig[c][i], beta, gamma),
        ) by {
            if i < u {
                assert(denominators_invertible(w, sig, u, beta, gamma));
            }
        }
    }
}

/// With every denominator factor invertible, every gate's denominator is
/// invertible and so nonzero: such inputs are accepted by
/// `Permutation::compute_permutation_poly` as well as by the eight-product
/// and numerator/denominator methods, and all three compute the same grand
/// product.
pub proof fn lemma_invertible_factors_agree(
    gen: nat,
    w: Seq<Seq<nat>>,
    sig: Seq<Seq<nat>>,
    n: nat,
    beta: nat,
    gamma: nat,
)
    requires
        denominators_invertible(w, sig, n, beta, gamma),
    ensures
        forall|i: int| 0 <= i < n ==> #[trigger] gate_denominator(w, sig, i, beta, gamma) != 0,
        split_grand_products(gen, w, sig, n, beta, gamma) == grand_products(gen, w, sig, n, beta, gamma),
        paired_grand_products(gen, w, sig, n, beta, gamma) == grand_products(gen, w, sig, n, beta, gamma),
{
    assert forall|i: int| 0 <= i < n implies #[trigger] gate_denominator(w, sig, i, beta, gamma) != 0 by {
        let d0 = denominator_factor(w[0][i], sig[0][i], beta, gamma);
        let d1 = denominator_factor(w[1][i], sig[1][i], beta, gamma);
        let d2 = denominator_factor(w[2][i], sig[2][i], beta, gamma);
        let d3 = denominator_factor(w[3][i], sig[3][i], beta, gamma);
        assert(invertible(d0) && invertible(d1) && invertible(d2) && invertible(d3));
        lemma_finv_product4(d0, d1, d2, d3);
        let x = gate_denominator(w, sig, i, beta, gamma);
        assert(fmul(0, finv(x)) == 0);
    }
    lemma_split_grand_products_agree(gen, w, sig, n, beta, gamma);
    lemma_paired_grand_products_agree(gen, w, sig, n, beta, gamma);
}

} // verus!
