use ark_bls12_381::Fr;
use ark_ff::{Field, One, PrimeField, UniformRand, Zero};
use ark_plonk::field::{batch_inversion_in_place, Scalar};
use ark_serialize::{CanonicalDeserialize, CanonicalSerialize};
use rand_core::OsRng;

fn to_fr(s: Scalar) -> Fr {
    Fr::deserialize(&s.to_bytes()[..]).unwrap()
}

fn from_fr(x: Fr) -> Scalar {
    let mut bytes = Vec::new();
    x.serialize(&mut bytes).unwrap();
    Scalar::from_bytes(&bytes).unwrap()
}

fn s(x: u64) -> Scalar {
    Scalar::from_u64(x)
}

#[test]
fn small_arithmetic_values() {
    assert_eq!(s(2).plus(s(3)), s(5));
    assert_eq!(s(7).minus(s(3)), s(4));
    assert_eq!(s(6).times(s(7)), s(42));
    assert_eq!(s(9).square(), s(81));
    assert_eq!(s(2).pow(10), s(1024));
    assert_eq!(s(5).pow(0), Scalar::one());
    assert_eq!(Scalar::zero().plus(s(11)), s(11));
}

#[test]
fn subtraction_wraps_around_the_modulus() {
    // 0 - 1 is the largest field element, p - 1.
    let minus_one = Scalar::zero().minus(Scalar::one());
    assert_eq!(minus_one, Scalar::one().negate());
    assert_eq!(to_fr(minus_one), -Fr::one());
    assert_eq!(minus_one.plus(Scalar::one()), Scalar::zero());
    assert_eq!(minus_one.times(minus_one), Scalar::one());
}

#[test]
fn arithmetic_matches_ark() {
    for _ in 0..20 {
        let a = Fr::rand(&mut OsRng);
        let b = Fr::rand(&mut OsRng);
        let (x, y) = (from_fr(a), from_fr(b));
        assert_eq!(to_fr(x.plus(y)), a + b);
        assert_eq!(to_fr(x.minus(y)), a - b);
        assert_eq!(to_fr(x.times(y)), a * b);
        assert_eq!(to_fr(x.negate()), -a);
        assert_eq!(to_fr(x.square()), a.square());
        assert_eq!(to_fr(x.pow(12345)), a.pow(&[12345u64, 0, 0, 0]));
    }
}

#[test]
fn inverse_of_zero_is_none() {
    assert!(Scalar::zero().inverse().is_none());
}

#[test]
fn inverse_times_value_is_one() {
    let x = s(12345);
    let inv = x.inverse().unwrap();
    assert_ne!(inv, x);
    assert_eq!(inv.times(x), Scalar::one());
    assert_eq!(Scalar::one().inverse().unwrap(), Scalar::one());
    // 2^-1 = (p + 1) / 2
    let half = s(2).inverse().unwrap();
    assert_eq!(to_fr(half), Fr::from(2u64).inverse().unwrap());
}

#[test]
fn batch_inversion_inverts_nonzero_entries_and_keeps_zeros() {
    let mut v = vec![s(1), s(0), s(2), s(5), s(0)];
    batch_inversion_in_place(&mut v);
    assert_eq!(v.len(), 5);
    assert_eq!(v[0], s(1));
    assert_eq!(v[1], s(0));
    assert_eq!(v[2].times(s(2)), s(1));
    assert_eq!(v[3].times(s(5)), s(1));
    assert_eq!(v[4], s(0));
    assert_ne!(v[2], s(2));
}

#[test]
fn bytes_are_little_endian() {
    let b = s(0x0102).to_bytes();
    assert_eq!(b.len(), 32);
    assert_eq!(b[0], 0x02);
    assert_eq!(b[1], 0x01);
    assert!(b[2..].iter().all(|x| *x == 0));
}

#[test]
fn bytes_roundtrip() {
    for _ in 0..10 {
        let x = from_fr(Fr::rand(&mut OsRng));
        assert_eq!(Scalar::from_bytes(&x.to_bytes()).unwrap(), x);
    }
}

#[test]
fn from_bytes_rejects_wrong_length_and_values_above_the_modulus() {
    assert!(Scalar::from_bytes(&[0u8; 31]).is_none());
    assert!(Scalar::from_bytes(&[0u8; 33]).is_none());
    assert!(Scalar::from_bytes(&[0xffu8; 32]).is_none());
    // p itself is not canonical.
    let mut p_bytes = Vec::new();
    Fr::characteristic().iter().for_each(|limb| p_bytes.extend_from_slice(&limb.to_le_bytes()));
    assert!(Scalar::from_bytes(&p_bytes).is_none());
    // p - 1 is.
    let max = Scalar::zero().minus(Scalar::one()).to_bytes();
    assert!(Scalar::from_bytes(&max).is_some());
}

#[test]
fn from_random_bytes_reads_little_endian() {
    assert_eq!(Scalar::from_random_bytes(&[1, 1]), s(257));
    assert_eq!(Scalar::from_random_bytes(&[]), Scalar::zero());
    let all = [0xffu8; 31];
    let x = Scalar::from_random_bytes(&all);
    // 2^248 - 1
    assert_eq!(x.plus(Scalar::one()), s(2).pow(248));
}

#[test]
fn bits_are_little_endian() {
    let bits = s(6).to_bits_le();
    assert_eq!(bits.len(), 256);
    assert!(!bits[0]);
    assert!(bits[1]);
    assert!(bits[2]);
    assert!(bits[3..].iter().all(|b| !*b));
    let max_bits = Scalar::one().negate().to_bits_le();
    assert!(!max_bits[255]);
    assert!(max_bits[254]);
}

#[test]
fn zero_and_one() {
    assert_eq!(to_fr(Scalar::zero()), Fr::zero());
    assert_eq!(to_fr(Scalar::one()), Fr::one());
    assert_eq!(to_fr(s(u64::MAX)), Fr::from(u64::MAX));
    assert_eq!(Fr::from_repr(to_fr(s(3)).into_repr()).unwrap(), Fr::from(3u64));
}
