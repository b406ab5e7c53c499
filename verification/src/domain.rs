//! Multiplicative evaluation domains of power-of-two size, FFTs over them
//! (delegated to `ark_poly`), and dense univariate polynomials.
use crate::field::{
    fadd, finv, fmul, fneg, fpow, fsub, is_inverse, lemma_fadd_comm, lemma_fmul_comm, lemma_inverse_unique,
    modulus, Scalar,
};
use ark_bls12_381::Fr;
use ark_ff::{BigInteger256, PrimeField};
use ark_poly::{EvaluationDomain as ArkDomain, GeneralEvaluationDomain};
use vstd::arithmetic::power::*;
use vstd::prelude::*;

verus! {

/// The canonical values of a sequence of field elements.
pub open spec fn sview(s: Seq<Scalar>) -> Seq<nat> {
    s.map_values(|x: Scalar| x@)
}

/// The value at `x` of the polynomial with coefficients `c` (lowest degree
/// first), computed in the field.
pub open spec fn poly_eval(c: Seq<nat>, x: nat) -> nat
    decreases c.len(),
{
    if c.len() == 0 {
        0
    } else {
        fadd(c[0], fmul(x, poly_eval(c.subrange(1, c.len() as int), x)))
    }
}

/// The first `n` values of `s`, or all of them when there are fewer.
pub open spec fn prefix<A>(s: Seq<A>, n: nat) -> Seq<A> {
    if s.len() <= n {
        s
    } else {
        s.take(n as int)
    }
}

/// `s` with its trailing zeros removed.
pub open spec fn trim_zeros(s: Seq<nat>) -> Seq<nat>
    decreases s.len(),
{
    if s.len() == 0 {
        s
    } else if s.last() == 0 {
        trim_zeros(s.drop_last())
    } else {
        s
    }
}

/// The evaluations over domain `d` of the polynomial with coefficients `c`
/// (only the first `size` coefficients count).
pub open spec fn fft_spec(d: EvaluationDomain, c: Seq<nat>) -> Seq<nat> {
    Seq::new(d.spec_size(), |i: int| poly_eval(prefix(c, d.spec_size()), fpow(d.gen(), i as nat)))
}

/// The coefficients of the polynomial that takes the values `e` over domain
/// `d` (the inverse transform; only the first `size` values count).
pub open spec fn ifft_spec(d: EvaluationDomain, e: Seq<nat>) -> Seq<nat> {
    Seq::new(
        d.spec_size(),
        |j: int| fmul(d.inv_size(), poly_eval(prefix(e, d.spec_size()), fpow(d.gen_inv(), j as nat))),
    )
}

/// `n` is a power of two.
pub open spec fn is_pow2(n: nat) -> bool
    decreases n,
{
    if n <= 1 {
        n == 1
    } else {
        n % 2 == 0 && is_pow2(n / 2)
    }
}

/// The smallest power of two that is at least `n`, searching upward from
/// the power of two `acc`.
pub open spec fn pow2_at_least_from(n: nat, acc: nat) -> nat
    decreases (if acc >= n { 0 } else { n - acc }),
{
    if acc >= n || acc == 0 {
        acc
    } else {
        pow2_at_least_from(n, 2 * acc)
    }
}

/// The smallest power of two that is at least `n` (one for zero).
pub open spec fn next_pow2(n: nat) -> nat {
    pow2_at_least_from(n, 1)
}

/// The field's root of unity of order `2^32` (`TWO_ADIC_ROOT_OF_UNITY` of
/// the scalar field, in canonical form).
pub open spec fn two_adic_root() -> nat {
    10238227357739495823651030575849232062558860180284477541189508159991286009131nat
}

/// The generator of the subgroup of order `size` (a power of two at most
/// `2^32`) that `ark_ff` picks: the `2^32`-order root squared
/// `32 - log2(size)` times, that is, raised to the power `2^32 / size`.
pub open spec fn root_of_unity(size: nat) -> nat {
    fpow(two_adic_root(), max_domain_size() / size)
}

/// `2^32`, the largest domain size the field supports.
pub open spec fn max_domain_size() -> nat {
    4294967296nat
}

/// A multiplicative subgroup of the field of power-of-two order, over which
/// polynomials are interpolated and evaluated.
#[derive(Clone, Copy, Debug)]
pub struct EvaluationDomain {
    size: u64,
    group_gen: Scalar,
    group_gen_inv: Scalar,
    size_inv: Scalar,
}

impl EvaluationDomain {
    /// The number of elements of the domain.
    pub closed spec fn spec_size(self) -> nat {
        self.size as nat
    }

    /// The generator of the domain.
    pub closed spec fn gen(self) -> nat {
        self.group_gen@
    }

    /// The inverse of the generator.
    pub closed spec fn gen_inv(self) -> nat {
        self.group_gen_inv@
    }

    /// The inverse of the size, as a field element.
    pub closed spec fn inv_size(self) -> nat {
        self.size_inv@
    }

    /// What construction guarantees of a domain.
    pub open spec fn wf(self) -> bool {
        &&& 1 <= self.spec_size() <= max_domain_size()
        &&& self.spec_size() < usize::MAX
        &&& self.gen() == root_of_unity(self.spec_size())
        &&& self.gen_inv() == finv(self.gen())
        &&& is_inverse(self.gen(), self.gen_inv())
        &&& self.inv_size() == finv(self.spec_size())
        &&& is_inverse(self.spec_size(), self.inv_size())
        &&& is_pow2(self.spec_size())
        &&& self.gen() < modulus()
        &&& fpow(self.gen(), self.spec_size()) == 1
        &&& self.spec_size() >= 2 ==> fpow(self.gen(), self.spec_size() / 2) == fneg(1)
    }
}

/// Calls `GeneralEvaluationDomain::new` and reads off the size, the
/// generator, its inverse and the inverse of the size. The domain exists
/// exactly when the next power of two is at most `2^32`; its generator is
/// what `get_root_of_unity` computes, the two-adic root of unity squared
/// `32 - log2(size)` times. That root has order exactly `2^32`, so the
/// generator has order exactly `size`: its `size`-th power is one and, for a
/// size of at least two, its `size / 2`-th power is minus one (the only square
/// root of one other than one).
#[verifier::external_body]
fn ark_domain_new(num_coeffs: usize) -> (r: Option<EvaluationDomain>)
    requires
        num_coeffs <= 0x8000_0000_0000_0000,
    ensures
        r.is_some() == (next_pow2(num_coeffs as nat) <= max_domain_size()),
        r.is_some() ==> r.unwrap().spec_size() == next_pow2(num_coeffs as nat),
        r.is_some() ==> r.unwrap().gen() == root_of_unity(r.unwrap().spec_size()),
        r.is_some() ==> is_inverse(r.unwrap().gen(), r.unwrap().gen_inv()),
        r.is_some() ==> is_inverse(r.unwrap().spec_size(), r.unwrap().inv_size()),
        r.is_some() ==> fpow(r.unwrap().gen(), r.unwrap().spec_size()) == 1,
        r.is_some() && r.unwrap().spec_size() >= 2 ==> fpow(r.unwrap().gen(), r.unwrap().spec_size() / 2)
            == fneg(1),
{
    let c = |x: Fr| Scalar { limbs: x.into_repr().0 };
    match GeneralEvaluationDomain::<Fr>::new(num_coeffs) {
        Some(GeneralEvaluationDomain::Radix2(d)) => Some(EvaluationDomain {
            size: d.size, group_gen: c(d.group_gen), group_gen_inv: c(d.group_gen_inv), size_inv: c(d.size_inv) }),
        Some(GeneralEvaluationDomain::MixedRadix(d)) => Some(EvaluationDomain {
            size: d.size, group_gen: c(d.group_gen), group_gen_inv: c(d.group_gen_inv), size_inv: c(d.size_inv) }),
        None => None,
    }
}


/// Every `Scalar` is canonical by its type invariant, so reading the inputs
/// back as `Fr` cannot fail.
/// Calls `EvaluationDomain::fft` on the domain of this size: entry `i` is
/// the value at the `i`-th domain element of the polynomial whose
/// coefficients are the first `size` inputs.
#[verifier::external_body]
fn ark_fft(d: &EvaluationDomain, coeffs: &[Scalar]) -> (r: Vec<Scalar>)
    requires
        d.wf(),
    ensures
        r@.len() == d.spec_size(),
        forall|i: int|
            0 <= i < d.spec_size() ==> #[trigger] r@[i]@ == poly_eval(
                prefix(sview(coeffs@), d.spec_size()),
                fpow(d.gen(), i as nat),
            ),
{
    let dom = GeneralEvaluationDomain::<Fr>::new(d.size as usize).unwrap();
    let xs: Vec<Fr> = coeffs.iter().map(|s| Fr::from_repr(BigInteger256(s.limbs)).unwrap()).collect();
    dom.fft(&xs).iter().map(|x| Scalar { limbs: x.into_repr().0 }).collect()
}

/// Calls `EvaluationDomain::ifft` on the domain of this size: entry `j` is
/// the inverse of the size times the value at `gen^-j` of the polynomial
/// whose coefficients are the first `size` inputs.
#[verifier::external_body]
fn ark_ifft(d: &EvaluationDomain, evals: &[Scalar]) -> (r: Vec<Scalar>)
    requires
        d.wf(),
    ensures
        r@.len() == d.spec_size(),
        forall|j: int|
            0 <= j < d.spec_size() ==> #[trigger] r@[j]@ == fmul(
                d.inv_size(),
                poly_eval(prefix(sview(evals@), d.spec_size()), fpow(d.gen_inv(), j as nat)),
            ),
{
    let dom = GeneralEvaluationDomain::<Fr>::new(d.size as usize).unwrap();
    let xs: Vec<Fr> = evals.iter().map(|s| Fr::from_repr(BigInteger256(s.limbs)).unwrap()).collect();
    dom.ifft(&xs).iter().map(|x| Scalar { limbs: x.into_repr().0 }).collect()
}

/// Calls `EvaluationDomain::elements` on the domain of this size: the powers
/// `gen^0, gen^1, ...` of the generator, one per element.
#[verifier::external_body]
fn ark_elements(d: &EvaluationDomain) -> (r: Vec<Scalar>)
    requires
        d.wf(),
    ensures
        r@.len() == d.spec_size(),
        forall|i: int| 0 <= i < d.spec_size() ==> #[trigger] r@[i]@ == fpow(d.gen(), i as nat),
{
    let dom = GeneralEvaluationDomain::<Fr>::new(d.size as usize).unwrap();
    dom.elements().map(|x| Scalar { limbs: x.into_repr().0 }).collect()
}

impl EvaluationDomain {
    /// The smallest domain with at least `num_coeffs` elements, if the
    /// field has one (and its size is below `usize::MAX`).
    pub fn new(num_coeffs: usize) -> (r: Option<EvaluationDomain>)
        requires
            num_coeffs <= 0x8000_0000_0000_0000,
        ensures
            r.is_some() == (next_pow2(num_coeffs as nat) <= max_domain_size() && next_pow2(
                num_coeffs as nat,
            ) < usize::MAX),
            r.is_some() ==> r.unwrap().wf() && r.unwrap().spec_size() == next_pow2(
                num_coeffs as nat,
            ),
    {
        let r = ark_domain_new(num_coeffs);
        if let Some(d) = r {
            proof {
                use_type_invariant(&d.group_gen);
                d.group_gen.lemma_canonical();
            }
            if d.size >= usize::MAX as u64 {
                return None;
            }
        }
        proof {
            if r.is_some() {
                let d = r.unwrap();
                lemma_inverse_unique(d.gen(), d.gen_inv());
                lemma_inverse_unique(d.spec_size(), d.inv_size());
                lemma_next_pow2_pos(num_coeffs as nat);
                lemma_next_pow2_is_pow2(num_coeffs as nat);
            }
        }
        r
    }

    /// The number of elements.
    pub fn size(&self) -> (r: usize)
        requires
            self.wf(),
        ensures
            r == self.spec_size(),
    {
        self.size as usize
    }

    /// The generator.
    pub fn group_gen(&self) -> (r: Scalar)
        ensures
            r@ == self.gen(),
    {
        self.group_gen
    }

    /// The inverse of the generator.
    pub fn group_gen_inv(&self) -> (r: Scalar)
        ensures
            r@ == self.gen_inv(),
    {
        self.group_gen_inv
    }

    /// The inverse of the size, as a field element.
    pub fn size_inv(&self) -> (r: Scalar)
        ensures
            r@ == self.inv_size(),
    {
        self.size_inv
    }

    /// The domain elements `gen^0, ..., gen^(size-1)` in order.
    pub fn elements(&self) -> (r: Vec<Scalar>)
        requires
            self.wf(),
        ensures
            r@.len() == self.spec_size(),
            forall|i: int| 0 <= i < self.spec_size() ==> #[trigger] r@[i]@ == fpow(self.gen(), i as nat),
    {
        ark_elements(self)
    }

    /// Evaluations over the domain of the polynomial with the given
    /// coefficients (truncated to the domain size).
    pub fn fft(&self, coeffs: &[Scalar]) -> (r: Vec<Scalar>)
        requires
            self.wf(),
        ensures
            r@.len() == self.spec_size(),
            forall|i: int|
                0 <= i < self.spec_size() ==> #[trigger] r@[i]@ == poly_eval(
                    prefix(sview(coeffs@), self.spec_size()),
                    fpow(self.gen(), i as nat),
                ),
            sview(r@) == fft_spec(*self, sview(coeffs@)),
    {
        let r = ark_fft(self, coeffs);
        proof {
            assert(sview(r@) =~= fft_spec(*self, sview(coeffs@)));
        }
        r
    }

    /// Coefficients of the polynomial that takes the given values over the
    /// domain (the inverse transform).
    pub fn ifft(&self, evals: &[Scalar]) -> (r: Vec<Scalar>)
        requires
            self.wf(),
        ensures
            r@.len() == self.spec_size(),
            forall|j: int|
                0 <= j < self.spec_size() ==> #[trigger] r@[j]@ == fmul(
                    self.inv_size(),
                    poly_eval(prefix(sview(evals@), self.spec_size()), fpow(self.gen_inv(), j as nat)),
                ),
            sview(r@) == ifft_spec(*self, sview(evals@)),
    {
        let r = ark_ifft(self, evals);
        proof {
            assert(sview(r@) =~= ifft_spec(*self, sview(evals@)));
        }
        r
    }

    /// The vanishing polynomial `X^size - 1` of the domain, at `tau`.
    pub fn evaluate_vanishing_polynomial(&self, tau: Scalar) -> (r: Scalar)
        requires
            self.wf(),
        ensures
            r@ == fsub(fpow(tau@, self.spec_size()), 1),
    {
        tau.pow(self.size).minus(Scalar::one())
    }
}

/// A dense univariate polynomial, coefficients lowest degree first, with no
/// trailing zero coefficient.
#[derive(Clone, Debug)]
pub struct DensePolynomial {
    coeffs: Vec<Scalar>,
}

impl View for DensePolynomial {
    type V = Seq<nat>;

    closed spec fn view(&self) -> Seq<nat> {
        sview(self.coeffs@)
    }
}

impl DensePolynomial {
    /// The polynomial with these coefficients; trailing zeros are dropped.
    pub fn from_coefficients_vec(coeffs: Vec<Scalar>) -> (r: DensePolynomial)
        ensures
            r@ == trim_zeros(sview(coeffs@)),
    {
        let mut c = coeffs;
        while c.len() > 0 && c[c.len() - 1] == Scalar::zero()
            invariant
                trim_zeros(sview(c@)) == trim_zeros(sview(coeffs@)),
            decreases c@.len(),
        {
            proof {
                assert(sview(c@).drop_last() =~= sview(c@.drop_last()));
            }
            c.pop();
        }
        DensePolynomial { coeffs: c }
    }

    /// The coefficients, lowest degree first.
    pub fn coeffs(&self) -> (r: &Vec<Scalar>)
        ensures
            sview(r@) == self@,
    {
        &self.coeffs
    }

    /// The value of the polynomial at `x`.
    pub fn evaluate(&self, x: Scalar) -> (r: Scalar)
        ensures
            r@ == poly_eval(self@, x@),
    {
        let n = self.coeffs.len();
        let mut acc = Scalar::zero();
        let mut k = n;
        while k > 0
            invariant
                k <= n == self.coeffs@.len(),
                acc@ == poly_eval(sview(self.coeffs@).subrange(k as int, n as int), x@),
            decreases k,
        {
            k = k - 1;
            let ghost prev = acc@;
            acc = acc.times(x).plus(self.coeffs[k]);
            proof {
                let s = sview(self.coeffs@);
                assert(s.subrange(k as int, n as int).subrange(1, (n - k) as int) =~= s.subrange(
                    k + 1,
                    n as int,
                ));
                lemma_fmul_comm(prev, x@);
                lemma_fadd_comm(fmul(x@, prev), s[k as int]);
            }
        }
        proof {
            assert(sview(self.coeffs@).subrange(0, n as int) =~= sview(self.coeffs@));
        }
        acc
    }
}

proof fn lemma_next_pow2_from_pos(n: nat, acc: nat)
    requires
        acc >= 1,
    ensures
        pow2_at_least_from(n, acc) >= 1,
    decreases (if acc >= n { 0 } else { n - acc }),
{
    if !(acc >= n) {
        lemma_next_pow2_from_pos(n, 2 * acc);
    }
}

proof fn lemma_pow2_at_least_from(n: nat, acc: nat)
    requires
        is_pow2(acc),
    ensures
        is_pow2(pow2_at_least_from(n, acc)),
    decreases (if acc >= n { 0 } else { n - acc }),
{
    if !(acc >= n || acc == 0) {
        assert((2 * acc) / 2 == acc);
        assert(is_pow2(2 * acc));
        lemma_pow2_at_least_from(n, 2 * acc);
    }
}

proof fn lemma_next_pow2_is_pow2(n: nat)
    ensures
        is_pow2(next_pow2(n)),
{
    lemma_pow2_at_least_from(n, 1);
}

proof fn lemma_next_pow2_pos(n: nat)
    ensures
        next_pow2(n) >= 1,
{
    lemma_next_pow2_from_pos(n, 1);
}

} // verus!
