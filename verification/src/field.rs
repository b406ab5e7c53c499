//! Elements of the scalar field of BLS12-381, held as their canonical
//! little-endian limbs, with arithmetic delegated to `ark_ff`.
use ark_bls12_381::Fr;
use ark_ff::{batch_inversion, BigInteger, BigInteger256, Field, PrimeField};
use ark_serialize::{CanonicalDeserialize, CanonicalSerialize};
use vstd::arithmetic::div_mod::*;
use vstd::arithmetic::mul::*;
use vstd::arithmetic::power::*;
use vstd::prelude::*;

verus! {

/// The order of the scalar field of BLS12-381.
pub open spec fn modulus() -> nat {
    52435875175126190479447740508185965837690552500527637822603658699938581184513nat
}

/// 2^64.
pub open spec fn limb_base() -> nat {
    18446744073709551616nat
}

/// The integer that four little-endian 64-bit limbs stand for.
pub open spec fn limbs_value(l: [u64; 4]) -> nat {
    l[0] as nat + limb_base() * (l[1] as nat + limb_base() * (l[2] as nat + limb_base() * l[3] as nat))
}

/// Field addition on canonical representatives.
pub open spec fn fadd(a: nat, b: nat) -> nat {
    (a + b) % modulus()
}

/// Field subtraction on canonical representatives.
pub open spec fn fsub(a: nat, b: nat) -> nat {
    ((a as int - b as int) % (modulus() as int)) as nat
}

/// Field negation.
pub open spec fn fneg(a: nat) -> nat {
    fsub(0, a)
}

/// Field multiplication on canonical representatives.
pub open spec fn fmul(a: nat, b: nat) -> nat {
    (a * b) % modulus()
}

/// Field exponentiation by a natural exponent.
pub open spec fn fpow(a: nat, e: nat) -> nat {
    (pow(a as int, e) % (modulus() as int)) as nat
}

/// `r` is a multiplicative inverse of `a` in the field.
pub open spec fn is_inverse(a: nat, r: nat) -> bool {
    r < modulus() && fmul(a, r) == 1
}

/// The multiplicative inverse of `a` (meaningful when `a` is invertible).
pub open spec fn finv(a: nat) -> nat {
    choose|r: nat| is_inverse(a, r)
}

/// Bit `i` of the binary expansion of `v`.
pub open spec fn bit(v: nat, i: nat) -> bool {
    (v / pow(2, i) as nat) % 2 == 1
}

/// Byte `i` of the little-endian expansion of `v`.
pub open spec fn le_byte(v: nat, i: nat) -> u8 {
    ((v / pow(256, i) as nat) % 256) as u8
}

/// The integer that a little-endian byte string stands for.
pub open spec fn le_bytes_value(b: Seq<u8>) -> nat
    decreases b.len(),
{
    if b.len() == 0 {
        0
    } else {
        b[0] as nat + 256 * le_bytes_value(b.subrange(1, b.len() as int))
    }
}

/// The 32-byte little-endian encoding of a field element.
pub open spec fn scalar_bytes(v: nat) -> Seq<u8> {
    Seq::new(32, |i: int| le_byte(v, i as nat))
}

/// The first `k` little-endian bytes of `v` spell `v` modulo `256^k`.
pub proof fn lemma_le_bytes_of_value(v: nat, k: nat)
    ensures
        le_bytes_value(Seq::new(k, |i: int| le_byte(v, i as nat))) == v % (pow(256, k) as nat),
    decreases k,
{
    reveal(pow);
    let s = Seq::new(k, |i: int| le_byte(v, i as nat));
    lemma_pow_positive(256, k);
    if k == 0 {
        assert(pow(256, 0) == 1);
    } else {
        let u = v / 256;
        let rest = Seq::new((k - 1) as nat, |i: int| le_byte(u, i as nat));
        assert forall|i: int| 0 <= i < k - 1 implies #[trigger] s.subrange(1, k as int)[i] == rest[i] by {
            lemma_pow_positive(256, i as nat);
            lemma_div_denominator(v as int, 256, pow(256, i as nat));
            assert(pow(256, (i + 1) as nat) == 256 * pow(256, i as nat));
        }
        assert(s.subrange(1, k as int) =~= rest);
        lemma_le_bytes_of_value(u, (k - 1) as nat);
        assert(pow(256, 0) == 1);
        assert(v / 1 == v);
        assert(s[0] as nat == v % 256);
        lemma_pow_positive(256, (k - 1) as nat);
        lemma_mod_breakdown(v as int, 256, pow(256, (k - 1) as nat));
        assert(pow(256, k) == 256 * pow(256, (k - 1) as nat));
    }
}

/// `256^32`, which exceeds the field order.
proof fn lemma_pow_256_32()
    ensures
        pow(256, 32) == 115792089237316195423570985008687907853269984665640564039457584007913129639936int,
        modulus() < pow(256, 32),
{
    reveal_with_fuel(pow, 33);
}

/// Reading back the 32-byte encoding of a field element gives the element.
pub proof fn lemma_scalar_bytes_value(v: nat)
    requires
        v < modulus(),
    ensures
        le_bytes_value(scalar_bytes(v)) == v,
        scalar_bytes(v).len() == 32,
{
    lemma_le_bytes_of_value(v, 32);
    lemma_pow_256_32();
    assert(scalar_bytes(v) =~= Seq::new(32, |i: int| le_byte(v, i as nat)));
    lemma_small_mod(v, pow(256, 32) as nat);
}

/// The bytes of the value a byte string spells are that string.
pub proof fn lemma_le_byte_of_bytes(b: Seq<u8>, i: int)
    requires
        0 <= i < b.len(),
    ensures
        le_byte(le_bytes_value(b), i as nat) == b[i],
    decreases b.len(),
{
    reveal(pow);
    let x = le_bytes_value(b);
    let rest = b.subrange(1, b.len() as int);
    let r = le_bytes_value(rest);
    assert(x == b[0] as nat + 256 * r);
    lemma_fundamental_div_mod_converse(x as int, 256, r as int, b[0] as int);
    assert(pow(256, 0) == 1);
    if i == 0 {
        assert(x / 1 == x);
        assert(le_byte(x, 0) == (x % 256) as u8);
    } else {
        lemma_le_byte_of_bytes(rest, i - 1);
        lemma_pow_positive(256, (i - 1) as nat);
        lemma_div_denominator(x as int, 256, pow(256, (i - 1) as nat));
        assert(pow(256, i as nat) == 256 * pow(256, (i - 1) as nat));
        assert(x / 256 == r);
        assert(x / (pow(256, i as nat) as nat) == r / (pow(256, (i - 1) as nat) as nat));
        assert(rest[i - 1] == b[i]);
    }
}

/// A 32-byte string is the encoding of the value it spells.
pub proof fn lemma_bytes_scalar_value(b: Seq<u8>)
    requires
        b.len() == 32,
    ensures
        scalar_bytes(le_bytes_value(b)) == b,
{
    assert forall|i: int| 0 <= i < 32 implies #[trigger] scalar_bytes(le_bytes_value(b))[i] == b[i] by {
        lemma_le_byte_of_bytes(b, i);
    }
    assert(scalar_bytes(le_bytes_value(b)) =~= b);
}

/// An element of the scalar field of BLS12-381.
#[derive(Clone, Copy, Debug)]
pub struct Scalar {
    pub(crate) limbs: [u64; 4],
}

impl View for Scalar {
    type V = nat;

    closed spec fn view(&self) -> nat {
        limbs_value(self.limbs)
    }
}

impl Scalar {
    /// Every `Scalar` is the canonical representative of its class.
    #[verifier::type_invariant]
    pub closed spec fn canonical(self) -> bool {
        limbs_value(self.limbs) < modulus()
    }

    /// What the type invariant says of the value.
    pub proof fn lemma_canonical(self)
        requires
            self.canonical(),
        ensures
            self@ < modulus(),
    {
    }
}

proof fn lemma_limbs_injective(a: [u64; 4], b: [u64; 4])
    requires
        limbs_value(a) == limbs_value(b),
    ensures
        a == b,
{
    let m = limb_base() as int;
    let ra = a[1] as int + m * (a[2] as int + m * a[3] as int);
    let rb = b[1] as int + m * (b[2] as int + m * b[3] as int);
    lemma_mul_is_commutative(m, ra);
    lemma_mul_is_commutative(m, rb);
    lemma_fundamental_div_mod_converse(limbs_value(a) as int, m, ra, a[0] as int);
    lemma_fundamental_div_mod_converse(limbs_value(b) as int, m, rb, b[0] as int);
    let sa = a[2] as int + m * a[3] as int;
    let sb = b[2] as int + m * b[3] as int;
    lemma_mul_is_commutative(m, sa);
    lemma_mul_is_commutative(m, sb);
    lemma_fundamental_div_mod_converse(ra, m, sa, a[1] as int);
    lemma_fundamental_div_mod_converse(rb, m, sb, b[1] as int);
    lemma_mul_is_commutative(m, a[3] as int);
    lemma_mul_is_commutative(m, b[3] as int);
    lemma_fundamental_div_mod_converse(sa, m, a[3] as int, a[2] as int);
    lemma_fundamental_div_mod_converse(sb, m, b[3] as int, b[2] as int);
    assert(a =~= b);
}

impl PartialEq for Scalar {
    fn eq(&self, other: &Scalar) -> (r: bool) {
        let r = self.limbs[0] == other.limbs[0] && self.limbs[1] == other.limbs[1]
            && self.limbs[2] == other.limbs[2] && self.limbs[3] == other.limbs[3];
        proof {
            if limbs_value(self.limbs) == limbs_value(other.limbs) {
                lemma_limbs_injective(self.limbs, other.limbs);
            }
        }
        r
    }
}

impl vstd::std_specs::cmp::PartialEqSpecImpl for Scalar {
    open spec fn obeys_eq_spec() -> bool {
        true
    }

    open spec fn eq_spec(&self, other: &Scalar) -> bool {
        self@ == other@
    }
}


/// Inverses in the field are unique: any inverse of `a` is `finv(a)`.
pub proof fn lemma_inverse_unique(a: nat, r: nat)
    requires
        is_inverse(a, r),
    ensures
        finv(a) == r,
{
    let p = modulus() as int;
    let c = finv(a);
    assert(is_inverse(a, c));
    // r == r * (a * c) == (r * a) * c == c  (mod p)
    lemma_mul_mod_noop_right(r as int, (a * c) as int, p);
    lemma_mul_is_associative(r as int, a as int, c as int);
    lemma_mul_mod_noop_left((r * a) as int, c as int, p);
    lemma_mul_is_commutative(r as int, a as int);
    lemma_small_mod(r, modulus());
    lemma_small_mod(c, modulus());
}

/// Field multiplication is commutative.
pub proof fn lemma_fmul_comm(a: nat, b: nat)
    ensures
        fmul(a, b) == fmul(b, a),
{
    lemma_mul_is_commutative(a as int, b as int);
}

/// Field addition is commutative.
pub proof fn lemma_fadd_comm(a: nat, b: nat)
    ensures
        fadd(a, b) == fadd(b, a),
{
}

/// The order of two further summands does not matter.
pub proof fn lemma_fadd_swap(a: nat, b: nat, c: nat)
    ensures
        fadd(fadd(a, b), c) == fadd(fadd(a, c), b),
        fadd(c, fadd(a, b)) == fadd(fadd(a, c), b),
{
    let p = modulus() as int;
    lemma_add_mod_noop_right(c as int, (a + b) as int, p);
    lemma_add_mod_noop_right(b as int, (a + c) as int, p);
    assert(fadd(fadd(a, b), c) == (c as int + ((a + b) as int % p)) % p);
    assert(fadd(fadd(a, c), b) == (b as int + ((a + c) as int % p)) % p);
    assert(c + (a + b) == b + (a + c));
}

/// Multiplication distributes over addition.
pub proof fn lemma_fmul_fadd(u: nat, x: nat, y: nat)
    ensures
        fmul(u, fadd(x, y)) == fadd(fmul(u, x), fmul(u, y)),
{
    let p = modulus() as int;
    lemma_mul_mod_noop_right(u as int, (x + y) as int, p);
    lemma_mul_is_distributive_add(u as int, x as int, y as int);
    lemma_add_mod_noop((u * x) as int, (u * y) as int, p);
}

/// Four summands may be regrouped.
pub proof fn lemma_fadd_regroup(a: nat, b: nat, c: nat, d: nat)
    ensures
        fadd(fadd(a, b), fadd(c, d)) == fadd(fadd(a, c), fadd(b, d)),
{
    let p = modulus() as int;
    lemma_add_mod_noop((a + b) as int, (c + d) as int, p);
    lemma_add_mod_noop((a + c) as int, (b + d) as int, p);
    assert((a + b) + (c + d) == (a + c) + (b + d));
}

/// Adding zero to a canonical element changes nothing.
pub proof fn lemma_fadd_zero(a: nat)
    requires
        a < modulus(),
    ensures
        fadd(a, 0) == a,
{
    lemma_small_mod(a, modulus());
}

/// Field multiplication is associative.
pub proof fn lemma_fmul_assoc(a: nat, b: nat, c: nat)
    ensures
        fmul(fmul(a, b), c) == fmul(a, fmul(b, c)),
{
    let p = modulus() as int;
    lemma_mul_mod_noop_left((a * b) as int, c as int, p);
    lemma_mul_mod_noop_right(a as int, (b * c) as int, p);
    lemma_mul_is_associative(a as int, b as int, c as int);
}

/// Three factors may be multiplied in any order.
pub proof fn lemma_fmul_rotate(a: nat, b: nat, c: nat)
    ensures
        fmul(fmul(a, b), c) == fmul(fmul(b, a), c),
        fmul(fmul(a, b), c) == fmul(fmul(a, c), b),
        fmul(fmul(a, b), c) == fmul(fmul(b, c), a),
{
    lemma_fmul_comm(a, b);
    lemma_fmul_assoc(a, b, c);
    lemma_fmul_assoc(a, c, b);
    lemma_fmul_comm(b, c);
    lemma_fmul_assoc(b, c, a);
    lemma_fmul_comm(a, fmul(b, c));
}

/// `(a b)(c d) = (a c)(b d)`.
pub proof fn lemma_fmul_interchange(a: nat, b: nat, c: nat, d: nat)
    ensures
        fmul(fmul(a, b), fmul(c, d)) == fmul(fmul(a, c), fmul(b, d)),
{
    lemma_fmul_assoc(a, b, fmul(c, d));
    lemma_fmul_assoc(b, c, d);
    lemma_fmul_comm(b, c);
    lemma_fmul_assoc(c, b, d);
    lemma_fmul_assoc(a, c, fmul(b, d));
}

/// One is the multiplicative identity on canonical representatives.
pub proof fn lemma_fmul_one(a: nat)
    requires
        a < modulus(),
    ensures
        fmul(a, 1) == a,
        fmul(1, a) == a,
{
    lemma_small_mod(a, modulus());
}

/// Reduction before multiplying does not change a product.
pub proof fn lemma_fmul_mod(a: nat, b: nat)
    ensures
        fmul(a % modulus(), b) == fmul(a, b),
        fmul(a, b % modulus()) == fmul(a, b),
{
    lemma_mul_mod_noop_left(a as int, b as int, modulus() as int);
    lemma_mul_mod_noop_right(a as int, b as int, modulus() as int);
}

/// The inverse of a product is the product of the inverses.
pub proof fn lemma_finv_mul(a: nat, b: nat)
    requires
        is_inverse(a, finv(a)),
        is_inverse(b, finv(b)),
    ensures
        is_inverse(fmul(a, b), fmul(finv(a), finv(b))),
        finv(fmul(a, b)) == fmul(finv(a), finv(b)),
{
    let ia = finv(a);
    let ib = finv(b);
    // (a b)(ia ib) = (a ia)(b ib) = 1
    lemma_fmul_mod(a * b, ia * ib);
    lemma_mul_mod_noop_general((a * b) as int, (ia * ib) as int, modulus() as int);
    assert((a * b) * (ia * ib) == (a * ia) * (b * ib)) by (nonlinear_arith);
    lemma_mul_mod_noop_general((a * ia) as int, (b * ib) as int, modulus() as int);
    lemma_inverse_unique(fmul(a, b), fmul(ia, ib));
}


/// Calls `<Fr as Add>::add`: the sum of two canonical elements is their sum
/// modulo the field order.
#[verifier::external_body]
fn ark_add(a: Scalar, b: Scalar) -> (r: Scalar)
    requires
        a@ < modulus(),
        b@ < modulus(),
    ensures
        r@ == fadd(a@, b@),
{
    let x = Fr::from_repr(BigInteger256(a.limbs)).unwrap() + Fr::from_repr(BigInteger256(b.limbs)).unwrap();
    Scalar { limbs: x.into_repr().0 }
}

/// Calls `<Fr as Sub>::sub`: the difference modulo the field order.
#[verifier::external_body]
fn ark_sub(a: Scalar, b: Scalar) -> (r: Scalar)
    requires
        a@ < modulus(),
        b@ < modulus(),
    ensures
        r@ == fsub(a@, b@),
{
    let x = Fr::from_repr(BigInteger256(a.limbs)).unwrap() - Fr::from_repr(BigInteger256(b.limbs)).unwrap();
    Scalar { limbs: x.into_repr().0 }
}

/// Calls `<Fr as Mul>::mul`: the product modulo the field order.
#[verifier::external_body]
fn ark_mul(a: Scalar, b: Scalar) -> (r: Scalar)
    requires
        a@ < modulus(),
        b@ < modulus(),
    ensures
        r@ == fmul(a@, b@),
{
    let x = Fr::from_repr(BigInteger256(a.limbs)).unwrap() * Fr::from_repr(BigInteger256(b.limbs)).unwrap();
    Scalar { limbs: x.into_repr().0 }
}

/// Calls `<Fr as Neg>::neg`: the additive inverse modulo the field order.
#[verifier::external_body]
fn ark_neg(a: Scalar) -> (r: Scalar)
    requires
        a@ < modulus(),
    ensures
        r@ == fneg(a@),
{
    let x = -Fr::from_repr(BigInteger256(a.limbs)).unwrap();
    Scalar { limbs: x.into_repr().0 }
}

/// Calls `Field::square`: `a * a` modulo the field order.
#[verifier::external_body]
fn ark_square(a: Scalar) -> (r: Scalar)
    requires
        a@ < modulus(),
    ensures
        r@ == fmul(a@, a@),
{
    let x = Fr::from_repr(BigInteger256(a.limbs)).unwrap().square();
    Scalar { limbs: x.into_repr().0 }
}

/// Calls `Field::pow` with the exponent `[e, 0, 0, 0]`: `a^e` modulo the
/// field order.
#[verifier::external_body]
fn ark_pow(a: Scalar, e: u64) -> (r: Scalar)
    requires
        a@ < modulus(),
    ensures
        r@ == fpow(a@, e as nat),
{
    let x = Fr::from_repr(BigInteger256(a.limbs)).unwrap().pow(&[e, 0, 0, 0]);
    Scalar { limbs: x.into_repr().0 }
}

/// Calls `Field::inverse`: `None` for zero, otherwise an element whose
/// product with `a` is one.
#[verifier::external_body]
fn ark_inverse(a: Scalar) -> (r: Option<Scalar>)
    requires
        a@ < modulus(),
    ensures
        a@ == 0 ==> r is None,
        a@ != 0 ==> r.is_some() && is_inverse(a@, r.unwrap()@),
{
    Fr::from_repr(BigInteger256(a.limbs)).unwrap().inverse().map(|x| Scalar { limbs: x.into_repr().0 })
}

/// Calls `BigInteger::to_bits_le` on the canonical representation: the 256
/// bits of `a`, least significant first.
#[verifier::external_body]
fn ark_to_bits_le(a: Scalar) -> (r: Vec<bool>)
    requires
        a@ < modulus(),
    ensures
        r@.len() == 256,
        forall|i: int| 0 <= i < 256 ==> r@[i] == bit(a@, i as nat),
{
    Fr::from_repr(BigInteger256(a.limbs)).unwrap().into_repr().to_bits_le()
}

/// Calls `CanonicalSerialize::serialize`: the 32 little-endian bytes of the
/// canonical representation of `a`.
#[verifier::external_body]
fn ark_serialize(a: Scalar) -> (r: Vec<u8>)
    requires
        a@ < modulus(),
    ensures
        r@.len() == 32,
        forall|i: int| 0 <= i < 32 ==> r@[i] == le_byte(a@, i as nat),
{
    let mut bytes = Vec::new();
    Fr::from_repr(BigInteger256(a.limbs)).unwrap().serialize(&mut bytes).unwrap();
    bytes
}

/// Calls `Field::from_random_bytes`: at most 31 bytes always read as the
/// little-endian integer they spell, which is below the field order.
#[verifier::external_body]
fn ark_from_random_bytes(bytes: &[u8]) -> (r: Option<Scalar>)
    requires
        bytes@.len() <= 31,
    ensures
        r.is_some(),
        r.unwrap()@ == le_bytes_value(bytes@),
{
    Fr::from_random_bytes(bytes).map(|x| Scalar { limbs: x.into_repr().0 })
}

/// Calls `CanonicalDeserialize::deserialize` on 32 bytes: it reads them as a
/// little-endian integer and accepts it exactly when it is below the field
/// order.
#[verifier::external_body]
fn ark_deserialize(bytes: &[u8]) -> (r: Option<Scalar>)
    requires
        bytes@.len() == 32,
    ensures
        r.is_some() == (le_bytes_value(bytes@) < modulus()),
        r.is_some() ==> r.unwrap()@ == le_bytes_value(bytes@),
{
    Fr::deserialize(bytes).ok().map(|x| Scalar { limbs: x.into_repr().0 })
}

/// Calls `ark_ff::batch_inversion`: every nonzero entry is replaced by its
/// inverse, zeros stay zero.
#[verifier::external_body]
fn ark_batch_inversion(v: &mut Vec<Scalar>)
    ensures
        final(v)@.len() == old(v)@.len(),
        forall|i: int| 0 <= i < old(v)@.len() ==> (old(v)@[i]@ == 0 ==> final(v)@[i]@ == 0) && (
            old(v)@[i]@ != 0 ==> is_inverse(old(v)@[i]@, final(v)@[i]@)),
{
    let mut xs: Vec<Fr> = v.iter().map(|s| Fr::from_repr(BigInteger256(s.limbs)).unwrap()).collect();
    batch_inversion(&mut xs);
    *v = xs.iter().map(|x| Scalar { limbs: x.into_repr().0 }).collect();
}

impl Scalar {
    /// The additive identity.
    pub fn zero() -> (r: Scalar)
        ensures
            r@ == 0,
    {
        Scalar { limbs: [0, 0, 0, 0] }
    }

    /// The multiplicative identity.
    pub fn one() -> (r: Scalar)
        ensures
            r@ == 1,
    {
        Scalar { limbs: [1, 0, 0, 0] }
    }

    /// The field element that a 64-bit integer stands for.
    pub fn from_u64(x: u64) -> (r: Scalar)
        ensures
            r@ == x as nat,
    {
        Scalar { limbs: [x, 0, 0, 0] }
    }

    /// Field addition.
    pub fn plus(self, rhs: Scalar) -> (r: Scalar)
        ensures
            r@ == fadd(self@, rhs@),
    {
        proof {
            use_type_invariant(&self);
            use_type_invariant(&rhs);
        }
        ark_add(self, rhs)
    }

    /// Field subtraction.
    pub fn minus(self, rhs: Scalar) -> (r: Scalar)
        ensures
            r@ == fsub(self@, rhs@),
    {
        proof {
            use_type_invariant(&self);
            use_type_invariant(&rhs);
        }
        ark_sub(self, rhs)
    }

    /// Field multiplication.
    pub fn times(self, rhs: Scalar) -> (r: Scalar)
        ensures
            r@ == fmul(self@, rhs@),
    {
        proof {
            use_type_invariant(&self);
            use_type_invariant(&rhs);
        }
        ark_mul(self, rhs)
    }

    /// Additive inverse.
    pub fn negate(self) -> (r: Scalar)
        ensures
            r@ == fneg(self@),
    {
        proof {
            use_type_invariant(&self);
        }
        ark_neg(self)
    }

    /// `self * self`.
    pub fn square(self) -> (r: Scalar)
        ensures
            r@ == fmul(self@, self@),
    {
        proof {
            use_type_invariant(&self);
        }
        ark_square(self)
    }

    /// `self^e`.
    pub fn pow(self, e: u64) -> (r: Scalar)
        ensures
            r@ == fpow(self@, e as nat),
    {
        proof {
            use_type_invariant(&self);
        }
        ark_pow(self, e)
    }

    /// The multiplicative inverse, `None` exactly for zero.
    pub fn inverse(self) -> (r: Option<Scalar>)
        ensures
            self@ == 0 ==> r is None,
            self@ != 0 ==> (r matches Some(i) && i@ == finv(self@) && is_inverse(self@, i@)),
    {
        proof {
            use_type_invariant(&self);
        }
        let r = ark_inverse(self);
        proof {
            if let Some(i) = r {
                lemma_inverse_unique(self@, i@);
            }
        }
        r
    }

    /// The 256 bits of the canonical representative, least significant first.
    pub fn to_bits_le(self) -> (r: Vec<bool>)
        ensures
            r@.len() == 256,
            forall|i: int| 0 <= i < 256 ==> r@[i] == bit(self@, i as nat),
    {
        proof {
            use_type_invariant(&self);
        }
        ark_to_bits_le(self)
    }

    /// The canonical 32-byte little-endian encoding.
    pub fn to_bytes(self) -> (r: Vec<u8>)
        ensures
            r@.len() == 32,
            forall|i: int| 0 <= i < 32 ==> r@[i] == le_byte(self@, i as nat),
    {
        proof {
            use_type_invariant(&self);
        }
        ark_serialize(self)
    }

    /// The field element whose canonical encoding is these 32 bytes, if they
    /// spell a value below the field order.
    pub fn from_bytes(bytes: &[u8]) -> (r: Option<Scalar>)
        ensures
            r.is_some() == (bytes@.len() == 32 && le_bytes_value(bytes@) < modulus()),
            r.is_some() ==> r.unwrap()@ == le_bytes_value(bytes@),
    {
        if bytes.len() == 32 {
            ark_deserialize(bytes)
        } else {
            None
        }
    }

    /// Reads at most 31 little-endian bytes as a field element.
    pub fn from_random_bytes(bytes: &[u8]) -> (r: Scalar)
        requires
            bytes@.len() <= 31,
        ensures
            r@ == le_bytes_value(bytes@),
    {
        let r = ark_from_random_bytes(bytes);
        r.unwrap()
    }
}

/// Replaces every nonzero entry by its inverse and leaves zeros in place.
pub fn batch_inversion_in_place(v: &mut Vec<Scalar>)
    ensures
        final(v)@.len() == old(v)@.len(),
        forall|i: int| 0 <= i < old(v)@.len() ==> (old(v)@[i]@ == 0 ==> final(v)@[i]@ == 0) && (
            old(v)@[i]@ != 0 ==> final(v)@[i]@ == finv(old(v)@[i]@)),
{
    let ghost before = v@;
    ark_batch_inversion(v);
    proof {
        assert forall|i: int| 0 <= i < before.len() && before[i]@ != 0 implies v@[i]@ == finv(
            before[i]@,
        ) by {
            lemma_inverse_unique(before[i]@, v@[i]@);
        }
    }
}

} // verus!
