use ark_bls12_381::{Fr, G1Affine};
use ark_ec::AffineCurve;
use ark_ff::Field;
use ark_plonk::commitment::Commitment;
use ark_plonk::field::Scalar;
use ark_plonk::transcript::TranscriptWrapper;
use ark_serialize::{CanonicalDeserialize, CanonicalSerialize};
use merlin::Transcript;

fn to_fr(s: Scalar) -> Fr {
    Fr::deserialize(&s.to_bytes()[..]).unwrap()
}

fn generator() -> Commitment {
    let mut bytes = Vec::new();
    G1Affine::prime_subgroup_generator().serialize(&mut bytes).unwrap();
    Commitment::from_bytes(&bytes).unwrap()
}

#[test]
fn challenges_follow_merlin() {
    let mut t = TranscriptWrapper::new(b"plonk");
    t.circuit_domain_sep(8);
    t.append_commitment(b"w_l", &generator());
    t.append_scalar(b"x", &Scalar::from_u64(5));
    let beta = t.challenge_scalar(b"beta");

    let mut m = Transcript::new(b"plonk");
    m.append_message(b"dom-sep", b"circuit_size");
    m.append_u64(b"n", 8);
    let mut g = Vec::new();
    G1Affine::prime_subgroup_generator().serialize(&mut g).unwrap();
    m.append_message(b"w_l", &g);
    let mut five = Vec::new();
    Fr::from(5u64).serialize(&mut five).unwrap();
    m.append_message(b"x", &five);
    let mut buf = vec![0u8; 31];
    m.challenge_bytes(b"beta", &mut buf);
    assert_eq!(to_fr(beta), Fr::from_random_bytes(&buf).unwrap());
}

#[test]
fn same_history_gives_same_challenges() {
    let mut a = TranscriptWrapper::new(b"label");
    let mut b = TranscriptWrapper::new(b"label");
    a.append_scalar(b"s", &Scalar::from_u64(1));
    b.append_scalar(b"s", &Scalar::from_u64(1));
    assert_eq!(a.challenge_scalar(b"c"), b.challenge_scalar(b"c"));
    assert_eq!(a.challenge_scalar(b"d"), b.challenge_scalar(b"d"));
}

#[test]
fn challenges_depend_on_history_and_label() {
    let mut a = TranscriptWrapper::new(b"label");
    let mut b = TranscriptWrapper::new(b"label");
    a.append_scalar(b"s", &Scalar::from_u64(1));
    b.append_scalar(b"s", &Scalar::from_u64(2));
    assert_ne!(a.challenge_scalar(b"c"), b.challenge_scalar(b"c"));

    let mut c = TranscriptWrapper::new(b"label");
    let mut d = TranscriptWrapper::new(b"label");
    assert_ne!(c.challenge_scalar(b"c"), d.challenge_scalar(b"e"));

    // Drawing a challenge changes the transcript.
    let mut e = TranscriptWrapper::new(b"label");
    let first = e.challenge_scalar(b"c");
    let second = e.challenge_scalar(b"c");
    assert_ne!(first, second);
}

#[test]
fn challenges_fit_in_31_bytes() {
    let mut t = TranscriptWrapper::new(b"label");
    let c = t.challenge_scalar(b"c");
    let bytes = c.to_bytes();
    assert_eq!(bytes[31], 0);
}

#[test]
fn a_clone_continues_like_its_source() {
    let mut a = TranscriptWrapper::new(b"label");
    a.append_scalar(b"s", &Scalar::from_u64(3));
    let mut b = a.clone();
    assert_eq!(a.challenge_scalar(b"c"), b.challenge_scalar(b"c"));
}
