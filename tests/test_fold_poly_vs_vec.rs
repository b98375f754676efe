use fri_poc::codeword::horner;
use fri_poc::field::{get_root_of_unity, pow, BabyBear};
use fri_poc::fold::{inverse_powers, Current_layer};
use fri_poc::merkle::MerkleTree;
use fri_poc::sampling::generate_random_vector;
use rand::Rng;

fn v8() -> Vec<BabyBear> {
    (1..=8u32).map(BabyBear::from_u32).collect()
}

/// Evaluations of the polynomial with coefficients `c` on `g * <w>`, `w` of order `n`.
fn coset_evals(c: &Vec<BabyBear>, g: BabyBear, n: usize) -> Vec<BabyBear> {
    let w = get_root_of_unity(n as u64);
    (0..n).map(|i| horner(c, g.mul(pow(w, i as u32)))).collect()
}

#[test]
pub fn poly_fold_vector_fold_sanity_no_coset() {
    let size: usize = 8;
    let v = v8();
    let gamma = BabyBear::from_u32(200);
    let mut frilayer = Current_layer { current_code_word: v.clone() };
    let v_fold = frilayer.fold_evals(BabyBear::from_u32(1u32), gamma);
    println!("fold vec in evals: coset gen =1  {:?} ", v_fold);

    let rou = get_root_of_unity(size as u64);
    let rou_inv = rou.inv();
    let two_inv = BabyBear::from_u32(2).inv();
    let mut f_e = Vec::<BabyBear>::new();
    let mut f_o = Vec::<BabyBear>::new();
    let mut f_f = Vec::<BabyBear>::new();
    for i in 0..size / 2 {
        f_e.push(v[i].add(v[i + 4]).mul(two_inv));
        f_o.push(v[i].sub(v[i + 4]).mul(two_inv).mul(pow(rou_inv, i as u32)));
        f_f.push(f_e[i].add(gamma.mul(f_o[i])));
    }
    println!("manual compute {:?}", f_f);
    assert_eq!(v_fold, f_f);
}

#[test]
pub fn poly_fold_vector_fold_sanity_coset() {
    let size: usize = 8;
    let v = v8();
    let coset_gen3 = BabyBear::from_u32(3u32);
    let v_eval_coset_vec = coset_evals(&v, coset_gen3, size);
    let gamma = BabyBear::from_u32(2);
    let mut frilayer = Current_layer { current_code_word: v_eval_coset_vec.clone() };
    let v_fold = frilayer.fold_evals(coset_gen3, gamma);
    println!("fold vec in evals: coset D^2  {:?} ", v_fold);
    // Entry i uses (coset_gen * w)^(-i).
    let step = coset_gen3.mul(get_root_of_unity(size as u64)).inv();
    let two_inv = BabyBear::from_u32(2).inv();
    for i in 0..size / 2 {
        let a = v_eval_coset_vec[i];
        let b = v_eval_coset_vec[i + size / 2];
        let expected = a.add(b).mul(two_inv).add(gamma.mul(a.sub(b).mul(two_inv).mul(pow(step, i as u32))));
        assert_eq!(v_fold[i], expected);
    }
    assert_eq!(frilayer.current_code_word, v_eval_coset_vec);
}

#[test]
pub fn fold_evals_test() {
    let size: usize = 8;
    let v = v8();
    let coset_gen = BabyBear::from_u32(3u32);
    let v_eval_coset_vec = coset_evals(&v, coset_gen, size);
    let mut current = Current_layer { current_code_word: v_eval_coset_vec.clone() };
    let gamma = BabyBear::from_u32(2);
    let v_fold = current.fold_evals(coset_gen, gamma);
    println!("fold vec in evals: coset D^2  {:?} ", v_fold);
    assert_eq!(v_fold.len(), size / 2);
}

#[test]
fn fold_is_linear_in_the_challenge() {
    let v: Vec<BabyBear> = (0..16u32).map(|i| BabyBear::from_u32(i * i + 7)).collect();
    let b1 = BabyBear::from_u32(123456);
    let b2 = BabyBear::from_u32(2000000000);
    let mut layer = Current_layer { current_code_word: v };
    let f1 = layer.fold_evals(BabyBear::one(), b1);
    let f2 = layer.fold_evals(BabyBear::one(), b2);
    let f0 = layer.fold_evals(BabyBear::one(), BabyBear::zero());
    let f12 = layer.fold_evals(BabyBear::one(), b1.add(b2));
    for i in 0..8 {
        assert_eq!(f1[i].add(f2[i]).sub(f0[i]), f12[i]);
    }
}

#[test]
fn both_folds_agree() {
    // A run starting at 32: round 2 folds a codeword of 8 with every 4th entry
    // of the inverse domain of 32.
    let size = 32usize;
    let rou_inv = get_root_of_unity(size as u64).inv();
    let inv_domain = inverse_powers(rou_inv, size / 2);
    let v: Vec<BabyBear> = (0..8u32).map(|i| BabyBear::from_u32(1000 + 17 * i)).collect();
    let beta = BabyBear::from_u32(987654321);
    let two_inv = BabyBear::from_u32(2).inv();
    let mut strided: Vec<BabyBear> = inv_domain.iter().step_by(4).cloned().collect();
    assert_eq!(strided.len(), 4);
    let mut layer = Current_layer { current_code_word: v };
    let a = layer.fold_evals_precompute_domain(&mut strided, &two_inv, beta);
    let b = layer.fold_evals(BabyBear::one(), beta);
    assert_eq!(a, b);
}

#[test]
pub fn commit_and_verify() {
    let v = v8();
    let mut current = Current_layer { current_code_word: v.clone() };
    let tree: MerkleTree = current.commit();
    let proof = current.layer_query(1, &tree);
    assert_eq!(proof.leaf, v[1]);
    assert_eq!(proof.leaf_index, 1);
    assert_eq!(proof.path.len(), 3);
    assert_eq!(proof.root, tree.get_root());
    let result = current.test_verify_path(proof);
    println!("result {:?}", result);
    assert!(result);
    drop(tree);
}

#[test]
pub fn commit_and_verify_random() {
    let size: usize = 131072;
    let test_vec = generate_random_vector(size);
    assert_eq!(test_vec.len(), size);
    let mut current = Current_layer { current_code_word: test_vec.clone() };
    let mut rng = rand::rng();
    let r: u64 = rng.random_range(0..size) as u64;
    let tree: MerkleTree = current.commit();
    let proof = current.layer_query(r, &tree);
    let result = current.test_verify_path(proof);
    assert!(result);
    drop(tree);
}

#[test]
fn forged_openings_fail_the_path_check() {
    let v = v8();
    let mut current = Current_layer { current_code_word: v.clone() };
    let tree = current.commit();
    let good = current.layer_query(5, &tree);
    let mut wrong_leaf = good.clone();
    wrong_leaf.leaf = v[4];
    assert!(!current.test_verify_path(wrong_leaf));
    let mut wrong_index = good.clone();
    wrong_index.leaf_index = 4;
    assert!(!current.test_verify_path(wrong_index));
    let mut out_of_range = good.clone();
    out_of_range.leaf_index = 5 + 8;
    assert!(!current.test_verify_path(out_of_range));
    let mut short = good.clone();
    short.path.pop();
    assert!(!current.test_verify_path(short));
    assert!(current.test_verify_path(good));
}

#[test]
fn roots_differ_for_different_codewords() {
    let mut a = Current_layer { current_code_word: v8() };
    let mut w = v8();
    w[7] = BabyBear::from_u32(9);
    let mut b = Current_layer { current_code_word: w };
    assert_ne!(a.commit().get_root(), b.commit().get_root());
    assert_eq!(a.commit().get_root().len(), 32);
}
