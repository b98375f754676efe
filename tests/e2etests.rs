use fri_poc::codeword::{coeff_to_eval_blowup, horner};
use fri_poc::data_structures::{FriError, Friconfig, Friproof};
use fri_poc::field::{get_root_of_unity, pow, BabyBear};
use fri_poc::fri_verifier::verify;
use fri_poc::hash::{num_leading_zeros, pow_hash};
use fri_poc::prover::{num_rounds, prove};
use fri_poc::transcript::{FriTranscript, TranscriptProtocol};
use rand::rngs::StdRng;
use rand::{Rng, SeedableRng};

fn small_config() -> Friconfig {
    Friconfig { blow_up_factor: 4, folding_factor: 2, pow_bits: 10, num_queries: 1, stopping_size: 1 }
}

fn small_codeword() -> Vec<BabyBear> {
    let input: Vec<BabyBear> = (1..=8u32).map(BabyBear::from_u32).collect();
    coeff_to_eval_blowup(input, 8 * 4)
}

fn small_proof(config: Friconfig) -> Friproof {
    let mut t = FriTranscript::new("small_fri");
    prove(config, &mut t, small_codeword()).unwrap()
}

fn verify_small(config: Friconfig, proof: Friproof) -> Result<bool, FriError> {
    let mut t = FriTranscript::new("small_fri");
    verify(config, proof, &mut t)
}

#[test]
fn diagnostic_prover_test() {
    let fri_config = small_config();
    let input_data: Vec<BabyBear> = (1..=8u32).map(BabyBear::from_u32).collect();
    let size: usize = input_data.len() * fri_config.blow_up_factor;
    let code_word = coeff_to_eval_blowup(input_data.clone(), size);
    let nr = num_rounds(size, fri_config.stopping_size);
    assert_eq!(nr, 5);
    let mut prover_transcript = FriTranscript::new("Shitty_FRI");
    let friproof = prove(fri_config, &mut prover_transcript, code_word.clone()).unwrap();
    assert_eq!(friproof.final_poly.len(), 1);
    assert_eq!(friproof.query_proofs.len(), nr);
    // 32 -> 16 -> 8 -> 4 -> 2 -> 1: each round opens its own layer.
    let mut layer_size = size;
    for query_proof in friproof.query_proofs.iter() {
        assert_eq!(query_proof.len(), 2);
        assert!((query_proof[0].leaf_index as usize) < layer_size);
        assert_eq!(query_proof[0].path.len(), layer_size.trailing_zeros() as usize);
        println!(
            "layer size {:?}, leaf {:?}, leaf sym {:?}",
            layer_size, query_proof[0].leaf, query_proof[1].leaf
        );
        layer_size /= 2;
    }
    assert_eq!(friproof.query_proofs[0][0].leaf, code_word[friproof.query_proofs[0][0].leaf_index as usize]);
    let mut verifier_transcript = FriTranscript::new("Shitty_FRI");
    assert_eq!(verify(fri_config, friproof, &mut verifier_transcript), Ok(true));
}

#[test]
fn collinearity_each_round_concrete() {
    let proof = small_proof(small_config());
    let size = 32usize;
    let two_inv = BabyBear::from_u32(2).inv();
    // Replay the challenges as the verifier does.
    let mut t = FriTranscript::new("small_fri");
    let sep: Vec<u8> = b"my_Shitty_FRI".to_vec();
    t.fri_domain_sep(&sep, size as u64, b"public".to_vec());
    let mut betas = Vec::new();
    for r in 0..5 {
        let root = BabyBear::from_bytes_le(&proof.query_proofs[r][0].root);
        t.append_root("commit", &root);
        betas.push(t.challenge_scalar("challenge"));
    }
    for r in 0..5 {
        let leaf = proof.query_proofs[r][0].leaf;
        let leaf_sym = proof.query_proofs[r][1].leaf;
        let index = proof.query_proofs[r][0].leaf_index;
        let rou_inv = get_root_of_unity((size >> r) as u64).inv();
        let l_even = leaf.add(leaf_sym).mul(two_inv);
        let l_odd = leaf.sub(leaf_sym).mul(two_inv).mul(pow(rou_inv, index as u32));
        let l_next = l_even.add(betas[r].mul(l_odd));
        if r == 4 {
            assert_eq!(l_next, proof.final_poly[0]);
        } else {
            assert_eq!(l_next, proof.query_proofs[r + 1][0].leaf);
        }
    }
}

#[test]
fn e2e_fri_test() {
    let fri_config = Friconfig {
        blow_up_factor: 4,
        folding_factor: 2,
        pow_bits: 10,
        num_queries: 50,
        stopping_size: 256,
    };
    let starting_size: usize = 1 << 16;
    let mut rng = StdRng::seed_from_u64(7);
    let input_data: Vec<BabyBear> =
        (0..starting_size).map(|_| BabyBear::from_u32(rng.random::<u32>())).collect();
    let size: usize = input_data.len() * fri_config.blow_up_factor;
    let code_word = coeff_to_eval_blowup(input_data, size);
    let mut prover_transcript = FriTranscript::new("Real_FRI");
    let friproof = prove(fri_config, &mut prover_transcript, code_word).unwrap();
    assert_eq!(friproof.query_proofs.len(), 50 * 10);
    assert_eq!(friproof.final_poly.len(), 256);
    let mut verifier_transcript = FriTranscript::new("Real_FRI");
    assert_eq!(verify(fri_config, friproof, &mut verifier_transcript), Ok(true));
}

#[test]
fn poly_extend_poly() {
    let v: Vec<BabyBear> = (1..=8u32).map(BabyBear::from_u32).collect();
    let v_b = coeff_to_eval_blowup(v.clone(), 16);
    println!("Vec on big domain  {:?}", v_b);
    let w = get_root_of_unity(16);
    for i in 0..16u32 {
        assert_eq!(v_b[i as usize], horner(&v, pow(w, i)));
    }
    // The value at 1 is the sum of the coefficients.
    assert_eq!(v_b[0], BabyBear::from_u32(36));
}

#[test]
fn round_count_examples() {
    assert_eq!(num_rounds(32, 1), 5);
    assert_eq!(num_rounds(1 << 18, 256), 10);
    assert_eq!(num_rounds(256, 256), 0);
    assert_eq!(num_rounds(2, 1), 1);
}

#[test]
fn tampered_leaf_is_rejected() {
    let config = small_config();
    let mut proof = small_proof(config);
    let leaf = proof.query_proofs[2][0].leaf;
    let mut bytes = leaf.to_bytes_le();
    bytes[0] ^= 1;
    proof.query_proofs[2][0].leaf = BabyBear::from_bytes_le(&bytes);
    let r = verify_small(config, proof);
    assert_eq!(r, Err(FriError::Authentication { query: 0, round: 2 }));
}

#[test]
fn tampered_final_poly_is_rejected() {
    let config = small_config();
    let mut proof = small_proof(config);
    let mut bytes = proof.final_poly[0].to_bytes_le();
    bytes[1] ^= 0x10;
    proof.final_poly[0] = BabyBear::from_bytes_le(&bytes);
    let r = verify_small(config, proof);
    assert_eq!(r, Err(FriError::Collinearity { query: 0, round: 4 }));
}

#[test]
fn wrong_nonce_is_rejected() {
    let config = small_config();
    let proof = small_proof(config);
    // Recompute the proof-of-work challenge the verifier will draw.
    let mut t = FriTranscript::new("small_fri");
    let sep: Vec<u8> = b"my_Shitty_FRI".to_vec();
    t.fri_domain_sep(&sep, 32, b"public".to_vec());
    for r in 0..5 {
        let root = BabyBear::from_bytes_le(&proof.query_proofs[r][0].root);
        t.append_root("commit", &root);
        let _ = t.challenge_scalar("challenge");
    }
    let challenge = t.challenge_scalar("challenge");
    assert_eq!(num_leading_zeros(pow_hash(challenge, proof.pow_nonce)), config.pow_bits);
    let mut wrong = proof.pow_nonce + 1;
    while num_leading_zeros(pow_hash(challenge, wrong)) == config.pow_bits {
        wrong += 1;
    }
    let mut bad = proof.clone();
    bad.pow_nonce = wrong;
    assert_eq!(verify_small(config, bad), Err(FriError::ProofOfWork));
    assert_eq!(verify_small(config, proof), Ok(true));
}

#[test]
fn reordered_queries_break_binding() {
    let config = Friconfig { num_queries: 4, ..small_config() };
    let proof = small_proof(config);
    let nr = 5;
    let top: Vec<u64> = (0..4).map(|q| proof.query_proofs[q * nr][0].leaf_index).collect();
    let (a, b) = (0..4)
        .flat_map(|x| (0..4).map(move |y| (x, y)))
        .find(|&(x, y)| top[x] != top[y])
        .expect("two queries with different indices");
    let mut swapped = proof.clone();
    for r in 0..nr {
        swapped.query_proofs.swap(a * nr + r, b * nr + r);
    }
    let r = verify_small(config, swapped);
    assert!(matches!(r, Err(FriError::Binding { .. })));
    assert_eq!(verify_small(config, proof), Ok(true));
}

#[test]
fn malformed_shape_is_rejected() {
    let config = small_config();
    let mut proof = small_proof(config);
    proof.query_proofs.pop();
    let config2 = Friconfig { num_queries: 3, ..config };
    assert_eq!(verify_small(config2, proof.clone()), Err(FriError::Shape));
    proof.query_proofs.clear();
    assert_eq!(verify_small(config, proof), Err(FriError::Shape));
    let no_queries = Friconfig { num_queries: 0, ..config };
    assert_eq!(verify_small(no_queries, small_proof(config)), Err(FriError::Shape));
}

#[test]
fn proof_is_deterministic() {
    let config = small_config();
    let a = small_proof(config);
    let b = small_proof(config);
    assert_eq!(a.pow_nonce, b.pow_nonce);
    assert_eq!(a.final_poly, b.final_poly);
    let other = {
        let mut t = FriTranscript::new("another protocol");
        prove(config, &mut t, small_codeword()).unwrap()
    };
    assert_eq!(a.final_poly.len(), other.final_poly.len());
    assert_eq!(a.query_proofs[0][0].root, other.query_proofs[0][0].root);
}

#[test]
fn eval_to_eval_matches_coefficients() {
    let coeffs: Vec<BabyBear> = (1..=8u32).map(BabyBear::from_u32).collect();
    let evals = coeff_to_eval_blowup(coeffs.clone(), 8);
    let extended = fri_poc::codeword::eval_to_eval_blowup(evals, 32);
    assert_eq!(extended, coeff_to_eval_blowup(coeffs, 32));
}

#[test]
fn defaults_are_empty() {
    let p = Friproof::default();
    assert!(p.query_proofs.is_empty() && p.final_poly.is_empty() && p.pow_nonce == 0);
    let l = fri_poc::data_structures::Frilayerdata::default();
    assert_eq!(l.total_layers(), 0);
    let c = fri_poc::fold::Current_layer::default();
    assert!(c.current_code_word.is_empty());
}

#[test]
fn foreign_root_is_rejected() {
    let config = Friconfig { num_queries: 2, ..small_config() };
    let proof = small_proof(config);
    let nr = 5;
    // Replace query 1's round-0 openings by openings of another codeword's tree.
    let mut other: Vec<BabyBear> = small_codeword();
    other[0] = other[0].add(BabyBear::one());
    let mut layer = fri_poc::fold::Current_layer { current_code_word: other };
    let tree = layer.commit();
    let mut forged = proof.clone();
    for t in 0..2 {
        let index = forged.query_proofs[nr][t].leaf_index;
        forged.query_proofs[nr][t] = layer.layer_query(index, &tree);
        assert!(layer.test_verify_path(forged.query_proofs[nr][t].clone()));
    }
    assert_ne!(forged.query_proofs[nr][0].root, proof.query_proofs[0][0].root);
    assert_eq!(verify_small(config, forged), Err(FriError::Authentication { query: 1, round: 0 }));
}
