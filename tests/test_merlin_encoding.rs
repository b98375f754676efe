use fri_poc::field::{get_root_of_unity, pow, BabyBear, MODULUS};
use fri_poc::hash::{hash_fuse, num_leading_zeros, proof_of_work, u64_to_le_bytes};
use fri_poc::sampling::generate_samples_in_range;
use fri_poc::transcript::{FriTranscript, TranscriptProtocol};

fn test_transcript() -> FriTranscript {
    let mut new_transcript = FriTranscript::new("test");
    let public = BabyBear::from_u32(99).to_bytes_le();
    let sep: Vec<u8> = b"friv1".to_vec();
    new_transcript.fri_domain_sep(&sep, 2u64, public);
    let t = BabyBear::from_u32(3);
    new_transcript.append_root("scalar", &t);
    new_transcript
}

#[test]
#[allow(non_snake_case)]
fn test_FS_merlin_encoding() {
    let mut new_transcript = test_transcript();
    let challenge = new_transcript.challenge_scalar("challenge");
    println!("transcript challenge from strobe128: {:?}", challenge);
    // PRF: a63e776d...; the first four bytes read little-endian.
    assert_eq!(challenge.value(), 0x6d773ea6);
}

#[test]
fn transcripts_agree_on_equal_histories() {
    let mut a = test_transcript();
    let mut b = test_transcript();
    assert_eq!(a.challenge_scalar("challenge"), b.challenge_scalar("challenge"));
    a.add_nonce(5);
    b.add_nonce(6);
    assert_ne!(a.challenge_bytes("x"), b.challenge_bytes("x"));
}

#[test]
fn pow_with_eight_bits() {
    let mut new_transcript = test_transcript();
    let challenge = new_transcript.challenge_scalar("challenge");
    let pow_bits: usize = 8;
    let nonce = proof_of_work(pow_bits, challenge).unwrap();
    let out: Vec<u8> = hash_fuse(challenge.to_bytes_le(), nonce.to_le_bytes().to_vec());
    assert_eq!(num_leading_zeros(out), pow_bits);
    for earlier in 0..nonce {
        let out = hash_fuse(challenge.to_bytes_le(), earlier.to_le_bytes().to_vec());
        assert_ne!(num_leading_zeros(out), pow_bits);
    }
}

#[test]
fn blake2s_known_digest() {
    let d = hash_fuse(b"ab".to_vec(), b"c".to_vec());
    let expected: [u8; 32] = [
        0x50, 0x8c, 0x5e, 0x8c, 0x32, 0x7c, 0x14, 0xe2, 0xe1, 0xa7, 0x2b, 0xa3, 0x4e, 0xeb, 0x45, 0x2f,
        0x37, 0x45, 0x8b, 0x20, 0x9e, 0xd6, 0x3a, 0x29, 0x4d, 0x99, 0x9b, 0x4c, 0x86, 0x67, 0x59, 0x82,
    ];
    assert_eq!(d, expected.to_vec());
}

#[test]
fn leading_zero_counts() {
    assert_eq!(num_leading_zeros(vec![]), 0);
    assert_eq!(num_leading_zeros(vec![0x80, 0]), 0);
    assert_eq!(num_leading_zeros(vec![0x01]), 7);
    assert_eq!(num_leading_zeros(vec![0, 0]), 16);
    assert_eq!(num_leading_zeros(vec![0, 0, 1, 0xff]), 23);
    assert_eq!(num_leading_zeros(vec![0, 0x10]), 11);
}

#[test]
fn samples_are_deterministic_and_in_range() {
    let a = generate_samples_in_range(vec![1, 2, 3], 20, 1000);
    let b = generate_samples_in_range(vec![1, 2, 3], 20, 1000);
    let c = generate_samples_in_range(vec![1, 2, 4], 20, 1000);
    assert_eq!(a, b);
    assert_ne!(a, c);
    assert_eq!(a.len(), 20);
    assert!(a.iter().all(|&x| x < 1000));
    // Bytes past the 32nd do not change the seed.
    let long1: Vec<u8> = (0..40u8).collect();
    let mut long2 = long1.clone();
    long2[35] = 99;
    assert_eq!(generate_samples_in_range(long1, 5, 77), generate_samples_in_range(long2, 5, 77));
}

#[test]
fn field_arithmetic() {
    let two = BabyBear::from_u32(2);
    assert_eq!(two.mul(two.inv()), BabyBear::one());
    assert_eq!(BabyBear::from_u32(MODULUS), BabyBear::zero());
    assert_eq!(BabyBear::from_u32(MODULUS - 1).add(BabyBear::from_u32(5)), BabyBear::from_u32(4));
    assert_eq!(BabyBear::from_u32(3).sub(BabyBear::from_u32(5)).value(), MODULUS - 2);
    assert_eq!(pow(BabyBear::from_u32(3), 5), BabyBear::from_u32(243));
    assert_eq!(BabyBear::from_u32(0x01020304).to_bytes_le(), vec![4, 3, 2, 1]);
    assert_eq!(BabyBear::from_bytes_le(&[0xff, 0xff, 0xff, 0xff, 7]).value(), 0xffff_ffff - 2 * MODULUS);
    assert_eq!(BabyBear::zero().inv(), BabyBear::zero());
    assert_eq!(u64_to_le_bytes(0x0102), vec![2, 1, 0, 0, 0, 0, 0, 0]);
}

#[test]
fn roots_of_unity() {
    let w = get_root_of_unity(8);
    assert_eq!(pow(w, 8), BabyBear::one());
    assert_eq!(pow(w, 4), BabyBear::from_u32(MODULUS - 1));
    assert_eq!(get_root_of_unity(4), w.sqr());
    assert_eq!(get_root_of_unity(1), BabyBear::one());
}

#[test]
fn pow_with_sixteen_bits() {
    let mut new_transcript = test_transcript();
    let challenge = new_transcript.challenge_scalar("challenge");
    let pow_bits: usize = 16;
    let nonce = proof_of_work(pow_bits, challenge).unwrap();
    let out: Vec<u8> = hash_fuse(challenge.to_bytes_le(), nonce.to_le_bytes().to_vec());
    assert_eq!(num_leading_zeros(out), pow_bits);
}
