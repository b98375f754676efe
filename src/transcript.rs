//! The Fiat-Shamir transcript of the FRI protocol, over a merlin transcript.
//!
//! A transcript is modelled by the ordered list of what it absorbed: each
//! entry is a label with the message appended under it, or a label alone for
//! a 64-byte challenge that was squeezed out. Challenges are a function of
//! that list, so two transcripts fed the same calls agree on every challenge.

use crate::field::{le_u32_value, modulus, BabyBear};
use crate::hash::{le_bytes, u64_to_le_bytes};
use vstd::prelude::*;
use vstd::utf8::encode_utf8;

verus! {

#[verifier::external_type_specification]
#[verifier::external_body]
pub struct ExTranscript(merlin::Transcript);

/// What a transcript absorbed: a label with its message, or a label alone
/// where 64 challenge bytes were drawn.
pub type TranscriptLog = Seq<(Seq<char>, Option<Seq<u8>>)>;

/// The 64 bytes that merlin's `challenge_bytes` yields for a transcript whose
/// whole history, the challenge request included, is `log`.
pub uninterp spec fn merlin_challenge_of(log: Seq<(Seq<char>, Option<Seq<u8>>)>) -> Seq<u8>;

/// The history of a transcript freshly made with `label`: merlin absorbs the
/// label under "dom-sep".
pub open spec fn initial_log(label: Seq<char>) -> TranscriptLog {
    seq![("dom-sep"@, Some(encode_utf8(label)))]
}

/// The field element read from the challenge for `log`: its first four bytes,
/// little-endian, reduced.
pub open spec fn challenge_value(log: TranscriptLog) -> int {
    le_u32_value(merlin_challenge_of(log)) % modulus()
}

/// Relies on `merlin::Transcript::new`, which absorbs `label` under
/// "dom-sep"; the history starts with that entry.
#[verifier::external_body]
fn merlin_new(label: &'static str) -> (r: FriTranscript)
    ensures
        r@ == initial_log(label@),
{
    FriTranscript { inner: merlin::Transcript::new(label.as_bytes()), log: Ghost(initial_log(label@)) }
}

/// Relies on `merlin::Transcript::append_message`, which absorbs `message`
/// under `label` and panics on a message longer than `u32::MAX` bytes.
#[verifier::external_body]
fn merlin_append_message(t: &mut FriTranscript, label: &'static str, message: &[u8])
    requires
        message@.len() <= u32::MAX,
    ensures
        final(t)@ == old(t)@.push((label@, Some(message@))),
{
    t.inner.append_message(label.as_bytes(), message);
    t.log = Ghost(t.log@.push((label@, Some(message@))));
}

/// Relies on `merlin::Transcript::challenge_bytes` with a 64-byte buffer: the
/// request is absorbed, and the bytes are a function of all that the
/// transcript absorbed, this request included.
#[verifier::external_body]
fn merlin_challenge_bytes(t: &mut FriTranscript, label: &'static str) -> (r: Vec<u8>)
    ensures
        final(t)@ == old(t)@.push((label@, None)),
        r@ == merlin_challenge_of(final(t)@),
        r@.len() == 64,
{
    let mut buf = [0u8; 64];
    t.inner.challenge_bytes(label.as_bytes(), &mut buf);
    t.log = Ghost(t.log@.push((label@, None)));
    buf.to_vec()
}

/// A Fiat-Shamir transcript together with its history.
pub struct FriTranscript {
    inner: merlin::Transcript,
    log: Ghost<TranscriptLog>,
}

impl View for FriTranscript {
    type V = TranscriptLog;

    closed spec fn view(&self) -> TranscriptLog {
        self.log@
    }
}

impl FriTranscript {
    /// A transcript for the protocol named `label` (ASCII).
    pub fn new(label: &'static str) -> (r: Self)
        ensures
            r@ == initial_log(label@),
    {
        merlin_new(label)
    }

    /// Absorbs `message` under `label`.
    pub fn append_message(&mut self, label: &'static str, message: &[u8])
        requires
            message@.len() <= u32::MAX,
        ensures
            final(self)@ == old(self)@.push((label@, Some(message@))),
    {
        merlin_append_message(self, label, message);
    }

    /// Draws 64 challenge bytes under `label`.
    pub fn challenge_bytes(&mut self, label: &'static str) -> (r: Vec<u8>)
        ensures
            final(self)@ == old(self)@.push((label@, None)),
            r@ == merlin_challenge_of(final(self)@),
            r@.len() == 64,
    {
        merlin_challenge_bytes(self, label)
    }
}

/// The entries that `fri_domain_sep` appends.
pub open spec fn domain_sep_entries(
    domain_separator: Seq<u8>,
    init_domain_size: u64,
    public: Seq<u8>,
) -> TranscriptLog {
    seq![
        (""@, Some(domain_separator)),
        ("Init_Domain_Size"@, Some(le_bytes(init_domain_size as nat, 8))),
        ("public"@, Some(public)),
    ]
}

/// The transcript operations of the FRI protocol.
pub trait TranscriptProtocol {
    /// Everything absorbed so far.
    spec fn log(&self) -> TranscriptLog;

    /// Binds the run to its public parameters.
    fn fri_domain_sep(
        &mut self,
        domain_seperator: &[u8],
        init_domain_size: u64,
        public: Vec<u8>,
    )
        requires
            domain_seperator@.len() <= u32::MAX,
            public@.len() <= u32::MAX,
        ensures
            final(self).log() == old(self).log() + domain_sep_entries(
                domain_seperator@,
                init_domain_size,
                public@,
            ),
    ;

    /// Appends a field element (four little-endian bytes) with the given `label`.
    fn append_root(&mut self, label: &'static str, scalar: &BabyBear)
        ensures
            final(self).log() == old(self).log().push((label@, Some(le_bytes(scalar@ as nat, 4)))),
    ;

    /// Draws a challenge field element under `label`.
    fn challenge_scalar(&mut self, label: &'static str) -> (r: BabyBear)
        ensures
            final(self).log() == old(self).log().push((label@, None)),
            r@ == challenge_value(final(self).log()),
    ;

    /// Appends the proof-of-work nonce (eight little-endian bytes).
    fn add_nonce(&mut self, nonce: u64)
        ensures
            final(self).log() == old(self).log().push(("pow_nonce"@, Some(le_bytes(nonce as nat, 8)))),
    ;

    /// Appends a field element (four little-endian bytes) with the given `label`.
    fn append_data(&mut self, label: &'static str, scalar: &BabyBear)
        ensures
            final(self).log() == old(self).log().push((label@, Some(le_bytes(scalar@ as nat, 4)))),
    ;
}

impl TranscriptProtocol for FriTranscript {
    open spec fn log(&self) -> TranscriptLog {
        self@
    }

    fn fri_domain_sep(
        &mut self,
        domain_seperator: &[u8],
        init_domain_size: u64,
        public: Vec<u8>,
    ) {
        let ghost start = self@;
        self.append_message("", domain_seperator);
        let size_bytes = u64_to_le_bytes(init_domain_size);
        self.append_message("Init_Domain_Size", size_bytes.as_slice());
        self.append_message("public", public.as_slice());
        assert(self@ =~= start + domain_sep_entries(domain_seperator@, init_domain_size, public@));
    }

    fn append_root(&mut self, label: &'static str, scalar: &BabyBear) {
        let bytes = scalar.to_bytes_le();
        self.append_message(label, bytes.as_slice());
    }

    fn challenge_scalar(&mut self, label: &'static str) -> (r: BabyBear) {
        let buf = self.challenge_bytes(label);
        BabyBear::from_bytes_le(buf.as_slice())
    }

    fn add_nonce(&mut self, nonce: u64) {
        let bytes = u64_to_le_bytes(nonce);
        self.append_message("pow_nonce", bytes.as_slice());
    }

    fn append_data(&mut self, label: &'static str, scalar: &BabyBear) {
        let bytes = scalar.to_bytes_le();
        self.append_message(label, bytes.as_slice());
    }
}

} // verus!
