//! BLAKE2s hashing, byte encodings and the proof-of-work condition.

use crate::field::BabyBear;
use vstd::prelude::*;
use vstd::std_specs::bits::u8_leading_zeros;

verus! {

/// The 32-byte BLAKE2s-256 digest of `data`.
pub uninterp spec fn blake2s_of(data: Seq<u8>) -> Seq<u8>;

/// Relies on `blake2::Blake2s256` (through `Digest::digest`): the digest is a
/// function of the input bytes and is 32 bytes long.
#[verifier::external_body]
pub(crate) fn blake2s(data: &[u8]) -> (r: Vec<u8>)
    ensures
        r@ == blake2s_of(data@),
        r@.len() == 32,
{
    <blake2::Blake2s256 as blake2::Digest>::digest(data).to_vec()
}

/// The `n` low-order bytes of `x`, least significant first.
pub open spec fn le_bytes(x: nat, n: nat) -> Seq<u8>
    decreases n,
{
    if n == 0 {
        Seq::empty()
    } else {
        seq![(x % 256) as u8] + le_bytes(x / 256, (n - 1) as nat)
    }
}

/// `le_bytes(x, n)` has `n` bytes.
pub proof fn lemma_le_bytes_len(x: nat, n: nat)
    ensures
        le_bytes(x, n).len() == n,
    decreases n,
{
    if n > 0 {
        lemma_le_bytes_len(x / 256, (n - 1) as nat);
    }
}

/// The number of leading zero bits of a byte string read as a big-endian
/// bit string (8 for every zero byte up to the first non-zero one).
pub open spec fn leading_zero_bits(bytes: Seq<u8>) -> nat
    decreases bytes.len(),
{
    if bytes.len() == 0 {
        0
    } else if bytes[0] == 0 {
        8 + leading_zero_bits(bytes.drop_first())
    } else {
        u8_leading_zeros(bytes[0]) as nat
    }
}

/// The digest that proof-of-work inspects: `H(challenge || nonce)`, with the
/// challenge as four little-endian bytes and the nonce as eight.
pub open spec fn pow_digest(challenge: int, nonce: u64) -> Seq<u8> {
    blake2s_of(le_bytes(challenge as nat, 4) + le_bytes(nonce as nat, 8))
}

/// `nonce` solves the proof-of-work for `challenge`: its digest has exactly
/// `pow_bits` leading zero bits.
pub open spec fn pow_holds(challenge: int, nonce: u64, pow_bits: usize) -> bool {
    leading_zero_bits(pow_digest(challenge, nonce)) == pow_bits
}

/// The eight little-endian bytes of `x`.
pub fn u64_to_le_bytes(x: u64) -> (r: Vec<u8>)
    ensures
        r@ == le_bytes(x as nat, 8),
        r@.len() == 8,
{
    proof {
        lemma_le_bytes_len(x as nat, 8);
    }
    let mut r: Vec<u8> = Vec::new();
    let mut y: u64 = x;
    for i in 0..8usize
        invariant
            r@ + le_bytes(y as nat, (8 - i) as nat) == le_bytes(x as nat, 8),
    {
        let ghost old_r = r@;
        r.push((y % 256) as u8);
        proof {
            assert(le_bytes(y as nat, (8 - i) as nat) == seq![(y % 256) as u8] + le_bytes(
                (y / 256) as nat,
                (8 - i - 1) as nat,
            ));
            assert(old_r + le_bytes(y as nat, (8 - i) as nat) =~= r@ + le_bytes(
                (y / 256) as nat,
                (8 - i - 1) as nat,
            ));
        }
        y = y / 256;
    }
    assert(r@ =~= r@ + le_bytes(y as nat, 0));
    r
}

/// Hashes the concatenation `a || b`.
pub fn hash_fuse(a: Vec<u8>, b: Vec<u8>) -> (r: Vec<u8>)
    ensures
        r@ == blake2s_of(a@ + b@),
        r@.len() == 32,
{
    let mut fused: Vec<u8> = a;
    let mut tail: Vec<u8> = b;
    fused.append(&mut tail);
    blake2s(fused.as_slice())
}

/// The number of leading zero bits of `bytes`.
pub fn num_leading_zeros(bytes: Vec<u8>) -> (r: usize)
    requires
        bytes@.len() <= usize::MAX / 8,
    ensures
        r == leading_zero_bits(bytes@),
{
    let mut leading_zeros: usize = 0;
    let mut i: usize = 0;
    assert(bytes@.skip(0) =~= bytes@);
    while i < bytes.len()
        invariant
            i <= bytes@.len() <= usize::MAX / 8,
            leading_zeros == 8 * i,
            leading_zero_bits(bytes@) == leading_zeros + leading_zero_bits(bytes@.skip(i as int)),
        decreases bytes@.len() - i,
    {
        let ghost rest = bytes@.skip(i as int);
        assert(rest.drop_first() =~= bytes@.skip(i + 1));
        if bytes[i] == 0 {
            leading_zeros = leading_zeros + 8;
        } else {
            let lz = bytes[i].leading_zeros();
            proof {
                vstd::std_specs::bits::axiom_u8_leading_zeros(bytes@[i as int]);
            }
            return leading_zeros + lz as usize;
        }
        i = i + 1;
    }
    leading_zeros
}

/// The digest `H(challenge || nonce)` used by proof-of-work.
pub fn pow_hash(challenge: BabyBear, nonce: u64) -> (r: Vec<u8>)
    ensures
        r@ == pow_digest(challenge@, nonce),
        r@.len() == 32,
{
    hash_fuse(challenge.to_bytes_le(), u64_to_le_bytes(nonce))
}

/// Searches the nonces `0, 1, ...` below `u64::MAX` for the first one whose
/// digest with `transcript_challenge` has exactly `pow_bits` leading zero bits.
pub fn proof_of_work(pow_bits: usize, transcript_challenge: BabyBear) -> (r: Option<u64>)
    ensures
        r matches Some(n) ==> n < u64::MAX && pow_holds(transcript_challenge@, n, pow_bits),
        r matches Some(n) ==> forall|m: u64| m < n ==> !pow_holds(transcript_challenge@, m, pow_bits),
        r is None ==> forall|m: u64| m < u64::MAX ==> !pow_holds(transcript_challenge@, m, pow_bits),
{
    let mut nonce: u64 = 0;
    while nonce < u64::MAX
        invariant
            forall|m: u64| m < nonce ==> !pow_holds(transcript_challenge@, m, pow_bits),
        decreases u64::MAX - nonce,
    {
        let output = pow_hash(transcript_challenge, nonce);
        let leading_zeros = num_leading_zeros(output);
        if leading_zeros == pow_bits {
            return Some(nonce);
        }
        nonce = nonce + 1;
    }
    None
}

} // verus!
