//! A Fiat-Shamir transcript over merlin: labelled messages go in, challenge
//! field elements come out, each a function of everything appended before.
use crate::commitment::Commitment;
use crate::field::{le_byte, le_bytes_value, lemma_le_byte_of_bytes, scalar_bytes, Scalar};
use vstd::arithmetic::power::*;
use merlin::Transcript;
use vstd::prelude::*;

verus! {

/// One step in the life of a transcript.
pub ghost enum TranscriptEvent {
    /// Created with this label.
    Init(Seq<u8>),
    /// A labelled message was appended.
    Append(Seq<u8>, Seq<u8>),
    /// A labelled challenge of this many bytes was drawn.
    Challenge(Seq<u8>, nat),
}

/// A merlin transcript, carried through opaquely.
#[verifier::external_type_specification]
#[verifier::external_body]
pub struct ExTranscript(Transcript);

/// The operations made on a merlin transcript since it was created, in
/// order: its creation label, the labelled messages appended and the
/// labelled challenges drawn. Merlin's state is what its STROBE duplex holds
/// after absorbing these operations in turn; a `Transcript` is only ever
/// created or changed here, through the wrappers below.
pub uninterp spec fn transcript_history(t: Transcript) -> Seq<TranscriptEvent>;

/// The bytes merlin's `challenge_bytes` gives for this label and length
/// from a transcript with the given history.
pub uninterp spec fn merlin_challenge(history: Seq<TranscriptEvent>, label: Seq<u8>, len: nat) -> Seq<u8>;

/// Calls `merlin::Transcript::new`: a transcript whose only operation is its
/// creation with this label.
#[verifier::external_body]
fn merlin_new(label: &'static [u8]) -> (r: Transcript)
    ensures
        transcript_history(r) == seq![TranscriptEvent::Init(label@)],
{
    Transcript::new(label)
}

/// Calls `<merlin::Transcript as Clone>::clone`, which merlin derives: the
/// copy has the whole state, so the same history.
#[verifier::external_body]
fn merlin_clone(t: &Transcript) -> (r: Transcript)
    ensures
        transcript_history(r) == transcript_history(*t),
{
    t.clone()
}

/// Calls `merlin::Transcript::append_message` (which refuses messages longer
/// than `u32::MAX`): the message is appended to the history.
#[verifier::external_body]
fn merlin_append_message(t: &mut Transcript, label: &'static [u8], message: &[u8])
    requires
        message@.len() <= u32::MAX,
    ensures
        transcript_history(*final(t)) == transcript_history(*old(t)).push(TranscriptEvent::Append(label@, message@)),
{
    t.append_message(label, message)
}

/// Calls `merlin::Transcript::append_u64`, which appends the 8-byte
/// little-endian encoding of `x` as a message.
#[verifier::external_body]
fn merlin_append_u64(t: &mut Transcript, label: &'static [u8], x: u64)
    ensures
        transcript_history(*final(t)) == transcript_history(*old(t)).push(
            TranscriptEvent::Append(label@, u64_le_bytes(x)),
        ),
{
    t.append_u64(label, x)
}

/// Calls `merlin::Transcript::challenge_bytes` with a buffer of `len` bytes
/// (merlin refuses lengths above `u32::MAX`): the bytes are the named
/// function of the history, label and length, and the challenge is added to
/// the history.
#[verifier::external_body]
fn merlin_challenge_bytes(t: &mut Transcript, label: &'static [u8], len: usize) -> (r: Vec<u8>)
    requires
        len <= u32::MAX,
    ensures
        r@ == merlin_challenge(transcript_history(*old(t)), label@, len as nat),
        r@.len() == len,
        transcript_history(*final(t)) == transcript_history(*old(t)).push(TranscriptEvent::Challenge(label@, len as nat)),
{
    let mut buf = vec![0u8; len];
    t.challenge_bytes(label, &mut buf);
    buf
}

/// A wrapper around a merlin transcript.
pub struct TranscriptWrapper {
    transcript: Transcript,
}

impl View for TranscriptWrapper {
    type V = Seq<TranscriptEvent>;

    /// The operations made on the merlin transcript.
    closed spec fn view(&self) -> Seq<TranscriptEvent> {
        transcript_history(self.transcript)
    }
}

impl Clone for TranscriptWrapper {
    /// A copy in the same state.
    fn clone(&self) -> (r: TranscriptWrapper)
        ensures
            r@ == self@,
    {
        TranscriptWrapper { transcript: merlin_clone(&self.transcript) }
    }
}

/// The label `dom-sep`.
pub const DOM_SEP_LABEL: [u8; 7] = [100, 111, 109, 45, 115, 101, 112];

/// The message `circuit_size`.
pub const CIRCUIT_SIZE_MESSAGE: [u8; 12] = [99, 105, 114, 99, 117, 105, 116, 95, 115, 105, 122, 101];

/// The label `n`.
pub const CIRCUIT_SIZE_LABEL: [u8; 1] = [110];

/// The challenge field element a transcript with this history draws for a
/// label: the first 31 challenge bytes read as a little-endian integer.
pub open spec fn challenge_value(history: Seq<TranscriptEvent>, label: Seq<u8>) -> nat {
    le_bytes_value(merlin_challenge(history, label, 31))
}

/// A little-endian byte string spells a value below `256` to its length.
proof fn lemma_le_bytes_value_bound(b: Seq<u8>)
    ensures
        le_bytes_value(b) < pow(256, b.len()),
    decreases b.len(),
{
    reveal(pow);
    if b.len() > 0 {
        let rest = b.subrange(1, b.len() as int);
        lemma_le_bytes_value_bound(rest);
        assert(pow(256, b.len()) == 256 * pow(256, rest.len()));
    }
}

/// The challenge is the little-endian number spelled by exactly the 31
/// bytes merlin hands out: byte `i` of the challenge is merlin's byte `i`,
/// for every `i < 31`, and the challenge lies below `256^31`, so no byte is
/// altered, dropped or added.
pub proof fn lemma_challenge_is_merlin_bytes(history: Seq<TranscriptEvent>, label: Seq<u8>)
    requires
        merlin_challenge(history, label, 31).len() == 31,
    ensures
        forall|i: int| 0 <= i < 31 ==> le_byte(challenge_value(history, label), i as nat) == #[trigger] merlin_challenge(
            history,
            label,
            31,
        )[i],
        challenge_value(history, label) < pow(256, 31),
{
    let b = merlin_challenge(history, label, 31);
    assert forall|i: int| 0 <= i < 31 implies le_byte(challenge_value(history, label), i as nat) == #[trigger] b[i] by {
        lemma_le_byte_of_bytes(b, i);
    }
    lemma_le_bytes_value_bound(b);
}

/// Prover and verifier agree on the challenges: two transcripts that have
/// seen the same labelled messages and challenges, in the same order, draw
/// the same challenge for a label and stay in step.
pub proof fn lemma_same_history_same_challenge(a: Seq<TranscriptEvent>, b: Seq<TranscriptEvent>, label: Seq<u8>)
    requires
        a == b,
    ensures
        challenge_value(a, label) == challenge_value(b, label),
        a.push(TranscriptEvent::Challenge(label, 31)) == b.push(TranscriptEvent::Challenge(label, 31)),
{
}

/// The 8-byte little-endian encoding of `x`.
pub open spec fn u64_le_bytes(x: u64) -> Seq<u8> {
    Seq::new(8, |i: int| le_byte(x as nat, i as nat))
}

/// Calls `PrimeField::size_in_bits`, which is the modulus' bit length, 255.
#[verifier::external_body]
fn ark_size_in_bits() -> (r: usize)
    ensures
        r == 255,
{
    <ark_bls12_381::Fr as ark_ff::PrimeField>::size_in_bits()
}

impl TranscriptWrapper {
    /// A new transcript with the given label.
    pub fn new(label: &'static [u8]) -> (r: TranscriptWrapper)
        ensures
            r@ == seq![TranscriptEvent::Init(label@)],
    {
        TranscriptWrapper { transcript: merlin_new(label) }
    }

    /// Appends a commitment, in its compressed encoding.
    pub fn append_commitment(&mut self, label: &'static [u8], comm: &Commitment)
        ensures
            final(self)@ == old(self)@.push(TranscriptEvent::Append(label@, comm@)),
    {
        proof {
            use_type_invariant(comm);
            comm.lemma_valid();
        }
        merlin_append_message(&mut self.transcript, label, comm.to_bytes().as_slice());
    }

    /// Appends a field element, in its 32-byte canonical encoding.
    pub fn append_scalar(&mut self, label: &'static [u8], s: &Scalar)
        ensures
            final(self)@ == old(self)@.push(TranscriptEvent::Append(label@, scalar_bytes(s@))),
    {
        let bytes = s.to_bytes();
        proof {
            assert(bytes@ =~= scalar_bytes(s@));
        }
        merlin_append_message(&mut self.transcript, label, bytes.as_slice());
    }

    /// A challenge field element drawn from the transcript: the first
    /// `255 / 8 = 31` challenge bytes read as a little-endian integer.
    pub fn challenge_scalar(&mut self, label: &'static [u8]) -> (r: Scalar)
        ensures
            final(self)@ == old(self)@.push(TranscriptEvent::Challenge(label@, 31)),
            r@ == challenge_value(old(self)@, label@),
            forall|i: int|
                0 <= i < 31 ==> le_byte(r@, i as nat) == #[trigger] merlin_challenge(old(self)@, label@, 31)[i],
            r@ < pow(256, 31),
    {
        let size = ark_size_in_bits() / 8;
        let buf = merlin_challenge_bytes(&mut self.transcript, label, size);
        let r = Scalar::from_random_bytes(buf.as_slice());
        proof {
            assert forall|i: int| 0 <= i < 31 implies le_byte(r@, i as nat) == #[trigger] merlin_challenge(
                old(self)@,
                label@,
                31,
            )[i] by {
                lemma_le_byte_of_bytes(buf@, i);
            }
            lemma_le_bytes_value_bound(buf@);
        }
        r
    }

    /// Appends the domain separator for a circuit of `n` gates.
    pub fn circuit_domain_sep(&mut self, n: u64)
        ensures
            final(self)@ == old(self)@.push(TranscriptEvent::Append(DOM_SEP_LABEL@, CIRCUIT_SIZE_MESSAGE@)).push(
                TranscriptEvent::Append(CIRCUIT_SIZE_LABEL@, u64_le_bytes(n)),
            ),
    {
        merlin_append_message(&mut self.transcript, &DOM_SEP_LABEL, &CIRCUIT_SIZE_MESSAGE);
        merlin_append_u64(&mut self.transcript, &CIRCUIT_SIZE_LABEL, n);
    }
}

} // verus!
