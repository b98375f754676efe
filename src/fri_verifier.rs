//! The FRI verifier: replays the transcript from the proof's commitments and
//! checks authentication, proof-of-work, index binding and collinearity.

use crate::data_structures::{FriError, Friconfig, Friproof};
use crate::field::{
    fadd, finv, fmul, fpow, fsub, get_root_of_unity, is_pow2, lemma_fmul_comm, lemma_fpow_add,
    lemma_fpow_mul, lemma_root_of_unity, log2, modulus, pow, root_of_unity_spec,
    BabyBear, MODULUS,
};
use crate::fold::{fold_spec, powers};
use crate::hash::{le_bytes, num_leading_zeros, pow_hash, pow_holds};
use crate::merkle::{
    bytes_eq, ilog2, lemma_pow2_half, path_accepts, shift, verify_merkle_path, MerkleProof,
};
use crate::prover::{
    commit_round_log, domain_separator_bytes, lemma_flat_index, public_input, start_log,
};
use crate::sampling::{generate_samples_in_range, samples_spec};
use crate::transcript::{challenge_value, FriTranscript, TranscriptLog, TranscriptProtocol};
use vstd::arithmetic::div_mod::{
    lemma_fundamental_div_mod, lemma_mod_multiples_vanish, lemma_mul_mod_noop_left,
    lemma_mul_mod_noop_right,
};
use vstd::arithmetic::power::lemma_pow0;
use vstd::arithmetic::power2::{lemma_pow2_unfold, pow2};
use vstd::prelude::*;

verus! {

/// The number of rounds that the proof's shape implies.
pub open spec fn proof_rounds(c: Friconfig, p: Friproof) -> nat {
    p.query_proofs@.len() / (c.num_queries as nat)
}

/// The height of the round-0 tree: `log2` of the original codeword length.
pub open spec fn top_height(c: Friconfig, p: Friproof) -> nat {
    proof_rounds(c, p) + log2(c.stopping_size as nat)
}

/// The proof has one pair of openings per query and round, at least one
/// round, a domain within the field's two-adic subgroup, and a final
/// codeword of `stopping_size` entries.
pub open spec fn shape_ok(c: Friconfig, p: Friproof) -> bool {
    &&& c.num_queries > 0
    &&& p.query_proofs@.len() % (c.num_queries as nat) == 0
    &&& proof_rounds(c, p) >= 1
    &&& top_height(c, p) <= 27
    &&& p.final_poly@.len() == c.stopping_size
    &&& forall|i: int| 0 <= i < p.query_proofs@.len() ==> (#[trigger] p.query_proofs@[i])@.len() == 2
}

/// Both openings of entry `i` (round `i mod nr`) authenticate in a tree of that round's height.
/// Both also claim the round's root, that of the first query's opening in
/// that round (entry `i mod nr`).
pub open spec fn entry_authenticated(c: Friconfig, p: Friproof, i: int) -> bool {
    let j = i % (proof_rounds(c, p) as int);
    let height = (top_height(c, p) - j) as nat;
    &&& path_accepts(p.query_proofs@[i]@[0], height)
    &&& path_accepts(p.query_proofs@[i]@[1], height)
    &&& p.query_proofs@[i]@[0].root@ == p.query_proofs@[j]@[0].root@
    &&& p.query_proofs@[i]@[1].root@ == p.query_proofs@[j]@[0].root@
}

/// Every opening authenticates.
pub open spec fn auth_ok(c: Friconfig, p: Friproof) -> bool {
    forall|i: int| 0 <= i < p.query_proofs@.len() ==> #[trigger] entry_authenticated(c, p, i)
}

/// The verifier's transcript after replaying `j` rounds: each absorbs the
/// round's root, read from the first query's opening, and draws a challenge.
pub open spec fn replay_log(log0: TranscriptLog, qp: Seq<Vec<MerkleProof>>, j: nat) -> TranscriptLog
    decreases j,
{
    if j == 0 {
        log0
    } else {
        commit_round_log(replay_log(log0, qp, (j - 1) as nat), qp[j - 1]@[0].root@)
    }
}

/// The verifier's transcript once the run is bound to the proof's domain size.
pub open spec fn verifier_start(c: Friconfig, p: Friproof, log: TranscriptLog) -> TranscriptLog {
    start_log(log, pow2(top_height(c, p)))
}

/// The challenge of round `j`.
pub open spec fn round_challenge(c: Friconfig, p: Friproof, log: TranscriptLog, j: nat) -> int {
    challenge_value(replay_log(verifier_start(c, p, log), p.query_proofs@, j + 1))
}

/// The transcript when the proof-of-work challenge is drawn.
pub open spec fn pow_log(c: Friconfig, p: Friproof, log: TranscriptLog) -> TranscriptLog {
    replay_log(verifier_start(c, p, log), p.query_proofs@, proof_rounds(c, p)).push(
        ("challenge"@, None),
    )
}

/// The nonce meets the proof-of-work condition.
pub open spec fn pow_ok(c: Friconfig, p: Friproof, log: TranscriptLog) -> bool {
    pow_holds(challenge_value(pow_log(c, p, log)), p.pow_nonce, c.pow_bits)
}

/// The transcript when the sampling seed is drawn.
pub open spec fn sample_log(c: Friconfig, p: Friproof, log: TranscriptLog) -> TranscriptLog {
    pow_log(c, p, log).push(("pow_nonce"@, Some(le_bytes(p.pow_nonce as nat, 8)))).push(
        ("sample"@, None),
    )
}

/// The top-level indices that the transcript samples.
pub open spec fn sampled_indices(c: Friconfig, p: Friproof, log: TranscriptLog) -> Seq<usize> {
    samples_spec(
        le_bytes(challenge_value(sample_log(c, p, log)) as nat, 4),
        c.num_queries as nat,
        pow2(top_height(c, p)) / 2,
    )
}

/// Every query's round-0 opening sits at the sampled index.
pub open spec fn binding_ok(c: Friconfig, p: Friproof, log: TranscriptLog) -> bool {
    forall|q: int|
        0 <= q < c.num_queries ==> (#[trigger] p.query_proofs@[q * proof_rounds(c, p)])@[0].leaf_index
            == sampled_indices(c, p, log)[q] as u64
}

/// The folded value that the verifier derives from the pair `f(x) = a`,
/// `f(-x) = b` at position `index`, where `w_inv` is the inverse generator of
/// the round's domain.
pub open spec fn collinear_value(a: int, b: int, w_inv: int, index: nat, beta: int, two_inv: int) -> int {
    fadd(fmul(fadd(a, b), two_inv), fmul(beta, fmul(fmul(fsub(a, b), two_inv), fpow(w_inv, index))))
}

/// The value folded from entry `i` agrees with the next round's opened leaf,
/// or for the last round with the final codeword.
pub open spec fn entry_collinear(c: Friconfig, p: Friproof, log: TranscriptLog, i: int) -> bool {
    let nr = proof_rounds(c, p) as int;
    let j = i % nr;
    let e = p.query_proofs@[i]@;
    let height = (top_height(c, p) - j) as nat;
    let index = e[0].leaf_index as nat;
    let next = collinear_value(
        e[0].leaf@,
        e[1].leaf@,
        finv(root_of_unity_spec(pow2(height))),
        index,
        round_challenge(c, p, log, j as nat),
        finv(2),
    );
    if j == nr - 1 {
        next == p.final_poly@[(index % (c.stopping_size as nat)) as int]@
    } else {
        next == p.query_proofs@[i + 1]@[0].leaf@
    }
}

/// Every entry passes the collinearity check.
pub open spec fn collinearity_ok(c: Friconfig, p: Friproof, log: TranscriptLog) -> bool {
    forall|i: int| 0 <= i < p.query_proofs@.len() ==> #[trigger] entry_collinear(c, p, log, i)
}

/// The verifier accepts `p` against a transcript whose history is `log`.
pub open spec fn fri_accepts(c: Friconfig, p: Friproof, log: TranscriptLog) -> bool {
    &&& shape_ok(c, p)
    &&& auth_ok(c, p)
    &&& pow_ok(c, p, log)
    &&& binding_ok(c, p, log)
    &&& collinearity_ok(c, p, log)
}

/// `1^k == 1`.
proof fn lemma_fpow_one(k: nat)
    ensures
        fpow(1, k) == 1,
    decreases k,
{
    if k > 0 {
        lemma_fpow_one((k - 1) as nat);
        vstd::arithmetic::div_mod::lemma_small_mod(1, modulus() as nat);
    }
}

/// `(-1)^(p - 2) == -1`, the exponent being odd.
proof fn lemma_minus_one_inverse()
    ensures
        finv(MODULUS - 1) == MODULUS - 1,
{
    let m1 = (MODULUS - 1) as int;
    let k = 1006632959nat;
    assert((2013265920int * 2013265920int) % 2013265921int == 1int) by (nonlinear_arith);
    assert(fmul(m1, m1) == 1);
    crate::field::lemma_fpow_square(m1, k);
    lemma_fpow_one(k);
    assert(fpow(m1, 2 * k + 1) == fmul(m1, fpow(m1, 2 * k)));
    assert(2 * k + 1 == MODULUS - 2);
}

/// The inverse generator of a subgroup of order `n` raised to `n/2` is `-1`.
proof fn lemma_inverse_root_half(n: nat)
    requires
        is_pow2(n),
        2 <= n <= 0x800_0000,
    ensures
        fpow(finv(root_of_unity_spec(n)), n / 2) == MODULUS - 1,
{
    let r = root_of_unity_spec(n);
    let p2 = (MODULUS - 2) as nat;
    lemma_root_of_unity(n);
    lemma_fpow_mul(r, p2, n / 2);
    lemma_fpow_mul(r, n / 2, p2);
    assert(p2 * (n / 2) == (n / 2) * p2) by (nonlinear_arith);
    lemma_minus_one_inverse();
}

/// `x * (w * -1) == w * ((b - a) * t)` where `x = (a - b) * t`, in the field.
proof fn lemma_negated_product(a: int, b: int, t: int, w: int)
    ensures
        fmul(fmul(fsub(a, b), t), fmul(w, MODULUS - 1)) == fmul(w, fmul(t, fsub(b, a))),
{
    let m = modulus();
    let d = fsub(a, b);
    lemma_mul_mod_noop_left(d * t, (w * (MODULUS - 1)) % m, m);
    lemma_mul_mod_noop_right(d * t, w * (MODULUS - 1), m);
    assert(d * t * (w * (MODULUS - 1)) == d * (t * w * (MODULUS - 1))) by (nonlinear_arith);
    lemma_mul_mod_noop_left(a - b, t * w * (MODULUS - 1), m);
    assert((a - b) * (t * w * (MODULUS - 1)) == m * ((a - b) * t * w) + (b - a) * t * w) by (nonlinear_arith)
        requires
            m == MODULUS,
    ;
    lemma_mod_multiples_vanish((a - b) * t * w, (b - a) * t * w, m);
    let d2 = fsub(b, a);
    lemma_mul_mod_noop_right(t, b - a, m);
    lemma_mul_mod_noop_right(w, t * (b - a), m);
    assert(w * (t * (b - a)) == (b - a) * t * w) by (nonlinear_arith);
}

/// The verifier's collinearity equation holds for honest folding: for a
/// codeword `v` over the subgroup of its length `n`, the value recomputed from
/// the openings at any position `idx` and at its symmetric position equals
/// entry `idx mod n/2` of `v` folded with the challenge.
pub proof fn lemma_collinearity(v: Seq<int>, idx: nat, beta: int)
    requires
        is_pow2(v.len()),
        2 <= v.len() <= 0x800_0000,
        idx < v.len(),
    ensures
        collinear_value(
            v[idx as int],
            v[((idx + v.len() / 2) % v.len()) as int],
            finv(root_of_unity_spec(v.len())),
            idx,
            beta,
            finv(2),
        ) == fold_spec(v, powers(finv(root_of_unity_spec(v.len())), v.len() / 2), beta, finv(2))[(
        idx % (v.len() / 2)) as int],
{
    let n = v.len();
    let h = n / 2;
    let w = finv(root_of_unity_spec(n));
    let t = finv(2);
    lemma_pow2_half(n);
    if idx < h {
        vstd::arithmetic::div_mod::lemma_small_mod(idx, h);
        vstd::arithmetic::div_mod::lemma_small_mod(idx + h, n);
        let a = v[idx as int];
        let b = v[(idx + h) as int];
        let ww = fpow(w, idx);
        lemma_fmul_comm(fadd(a, b), t);
        lemma_fmul_comm(fsub(a, b), t);
        lemma_fmul_comm(fmul(t, fsub(a, b)), ww);
    } else {
        let i = (idx - h) as nat;
        vstd::arithmetic::div_mod::lemma_small_mod(i, h);
        assert(idx % h == i) by {
            vstd::arithmetic::div_mod::lemma_fundamental_div_mod_converse(idx as int, h as int, 1, i as int);
        }
        assert((idx + h) % n == i) by {
            vstd::arithmetic::div_mod::lemma_fundamental_div_mod_converse((idx + h) as int, n as int, 1, i as int);
        }
        let a = v[idx as int];
        let b = v[i as int];
        assert(a == v[(i + h) as int]);
        let wi = fpow(w, i);
        lemma_fpow_add(w, i, h);
        lemma_inverse_root_half(n);
        assert(fpow(w, idx) == fmul(wi, MODULUS - 1));
        lemma_negated_product(a, b, t, wi);
        lemma_fmul_comm(fadd(a, b), t);
        assert(fadd(a, b) == fadd(b, a));
    }
}

/// A proof whose round-0 opening of some query is not at the index that the
/// transcript samples for that query is rejected.
pub proof fn lemma_index_binding(c: Friconfig, p: Friproof, log: TranscriptLog, q: int)
    requires
        0 <= q < c.num_queries,
        p.query_proofs@[q * proof_rounds(c, p)]@[0].leaf_index != sampled_indices(c, p, log)[q] as u64,
    ensures
        !fri_accepts(c, p, log),
{
}

/// A proof whose nonce does not give exactly `pow_bits` leading zero bits
/// with the transcript's proof-of-work challenge is rejected.
pub proof fn lemma_wrong_nonce_rejected(c: Friconfig, p: Friproof, log: TranscriptLog)
    requires
        !pow_holds(challenge_value(pow_log(c, p, log)), p.pow_nonce, c.pow_bits),
    ensures
        !fri_accepts(c, p, log),
{
}

/// `2^k`.
pub fn pow2_usize(k: usize) -> (r: usize)
    requires
        k <= 27,
    ensures
        r == pow2(k as nat),
        is_pow2(r as nat),
        log2(r as nat) == k,
{
    let mut r: usize = 1;
    let mut i: usize = 0;
    proof {
        lemma_pow0(2);
    }
    while i < k
        invariant
            i <= k <= 27,
            r == pow2(i as nat),
            is_pow2(r as nat),
            log2(r as nat) == i,
            r <= 0x800_0000,
        decreases k - i,
    {
        proof {
            lemma_pow2_unfold((i + 1) as nat);
            if i + 1 < 27 {
                vstd::arithmetic::power2::lemma_pow2_strictly_increases((i + 1) as nat, 27);
            }
            vstd::arithmetic::power2::lemma2_to64();
        }
        r = r * 2;
        i = i + 1;
        assert((r as nat) / 2 == (r / 2) as nat);
    }
    r
}

/// A leaf index that climbs out of a tree of height `h` is below `2^h`.
pub proof fn lemma_shift_zero(j: nat, h: nat)
    requires
        shift(j, h) == 0,
    ensures
        j < pow2(h),
    decreases h,
{
    if h == 0 {
        lemma_pow0(2);
    } else {
        lemma_shift_zero(j / 2, (h - 1) as nat);
        lemma_pow2_unfold(h);
    }
}

impl Friproof {
    /// Checks opening `leaf_index` (0 or 1) of entry `layer_index` against a tree of height `tree_height`.
    pub fn verify_path(&mut self, layer_index: usize, leaf_index: usize, tree_height: usize) -> (r: bool)
        requires
            layer_index < old(self).query_proofs@.len(),
            leaf_index < old(self).query_proofs@[layer_index as int]@.len(),
        ensures
            *final(self) == *old(self),
            r == path_accepts(old(self).query_proofs@[layer_index as int]@[leaf_index as int], tree_height as nat),
            r ==> old(self).query_proofs@[layer_index as int]@[leaf_index as int].root@.len() == 32,
    {
        verify_merkle_path(&self.query_proofs[layer_index][leaf_index], tree_height)
    }
}

/// A well-shaped proof holds `num_queries * rounds` entries.
pub proof fn lemma_shape_len(c: Friconfig, p: Friproof)
    requires
        shape_ok(c, p),
    ensures
        p.query_proofs@.len() == c.num_queries * proof_rounds(c, p),
        p.query_proofs@.len() == proof_rounds(c, p) * c.num_queries,
{
    lemma_fundamental_div_mod(p.query_proofs@.len() as int, c.num_queries as int);
    assert(c.num_queries * proof_rounds(c, p) == proof_rounds(c, p) * c.num_queries) by (nonlinear_arith);
}

/// Checks the proof's shape against the configuration.
fn check_shape(c: Friconfig, p: &Friproof) -> (r: bool)
    ensures
        r == shape_ok(c, *p),
{
    if c.num_queries == 0 {
        return false;
    }
    let len = p.query_proofs.len();
    if len % c.num_queries != 0 {
        return false;
    }
    let nr = len / c.num_queries;
    if nr < 1 || nr > 27 {
        return false;
    }
    let ls = ilog2(c.stopping_size);
    if ls > 27 || nr + ls > 27 {
        return false;
    }
    if p.final_poly.len() != c.stopping_size {
        return false;
    }
    for i in 0..len
        invariant
            len == p.query_proofs@.len(),
            forall|k: int| 0 <= k < i ==> (#[trigger] p.query_proofs@[k])@.len() == 2,
    {
        if p.query_proofs[i].len() != 2 {
            return false;
        }
    }
    true
}

/// Authenticates every opening against its round's tree height.
fn authenticate(c: Friconfig, p: &Friproof, nr: usize, top: usize) -> (r: Result<(), FriError>)
    requires
        shape_ok(c, *p),
        nr == proof_rounds(c, *p),
        top == top_height(c, *p),
    ensures
        r is Ok <==> auth_ok(c, *p),
        r is Ok ==> forall|i: int, t: int|
            0 <= i < p.query_proofs@.len() && 0 <= t < 2 ==> (#[trigger] p.query_proofs@[i]@[t]).root@.len() == 32,
        r matches Err(e) ==> e matches FriError::Authentication { query, round } && query
            < c.num_queries && round < nr && !entry_authenticated(c, *p, query * nr + round),
{
    let len = p.query_proofs.len();
    let ghost p0 = *p;
    proof {
        lemma_shape_len(c, p0);
    }
    for i in 0..len
        invariant
            *p == p0,
            p0.query_proofs@.len() == c.num_queries * nr,
            shape_ok(c, p0),
            nr == proof_rounds(c, p0),
            top == top_height(c, p0),
            len == p0.query_proofs@.len(),
            forall|k: int| 0 <= k < i ==> #[trigger] entry_authenticated(c, p0, k),
            forall|k: int, t: int|
                0 <= k < i && 0 <= t < 2 ==> (#[trigger] p0.query_proofs@[k]@[t]).root@.len() == 32,
    {
        let q = i / nr;
        let j = i % nr;
        let height = top - j;
        proof {
            lemma_fundamental_div_mod(i as int, nr as int);
            assert(q < c.num_queries) by (nonlinear_arith)
                requires
                    i < c.num_queries * nr,
                    q == i / nr,
                    nr > 0,
            ;
            assert(p0.query_proofs@[i as int]@.len() == 2);
        }
        let ok0 = verify_merkle_path(&p.query_proofs[i][0], height);
        let ok1 = verify_merkle_path(&p.query_proofs[i][1], height);
        proof {
            assert(j < len);
            assert(p0.query_proofs@[j as int]@.len() == 2);
        }
        let round_root = &p.query_proofs[j][0].root;
        let same0 = bytes_eq(&p.query_proofs[i][0].root, round_root);
        let same1 = bytes_eq(&p.query_proofs[i][1].root, round_root);
        if !ok0 || !ok1 || !same0 || !same1 {
            proof {
                assert(q * nr + j == i) by (nonlinear_arith)
                    requires
                        i == nr * q + j,
                ;
                assert(!entry_authenticated(c, *p, i as int));
            }
            return Err(FriError::Authentication { query: q, round: j });
        }
    }
    Ok(())
}

/// Replays the commit phase: absorbs each round's root, read from the first
/// query's opening, and draws that round's challenge.
fn replay_challenges(p: &Friproof, nr: usize, transcript: &mut FriTranscript) -> (betas: Vec<BabyBear>)
    requires
        nr <= p.query_proofs@.len(),
        forall|j: int| 0 <= j < nr ==> (#[trigger] p.query_proofs@[j])@.len() == 2,
        forall|j: int| 0 <= j < nr ==> (#[trigger] p.query_proofs@[j]@[0]).root@.len() == 32,
    ensures
        betas@.len() == nr,
        forall|j: int|
            0 <= j < nr ==> (#[trigger] betas@[j])@ == challenge_value(
                replay_log(old(transcript)@, p.query_proofs@, (j + 1) as nat),
            ),
        final(transcript)@ == replay_log(old(transcript)@, p.query_proofs@, nr as nat),
{
    let ghost log0 = transcript@;
    let mut betas: Vec<BabyBear> = Vec::new();
    for j in 0..nr
        invariant
            nr <= p.query_proofs@.len(),
            forall|k: int| 0 <= k < nr ==> (#[trigger] p.query_proofs@[k])@.len() == 2,
            forall|k: int| 0 <= k < nr ==> (#[trigger] p.query_proofs@[k]@[0]).root@.len() == 32,
            betas@.len() == j,
            forall|k: int|
                0 <= k < j ==> (#[trigger] betas@[k])@ == challenge_value(
                    replay_log(log0, p.query_proofs@, (k + 1) as nat),
                ),
            transcript@ == replay_log(log0, p.query_proofs@, j as nat),
    {
        let root = &p.query_proofs[j][0].root;
        let current_root = BabyBear::from_bytes_le(root.as_slice());
        transcript.append_root("commit", &current_root);
        let beta = transcript.challenge_scalar("challenge");
        betas.push(beta);
    }
    betas
}

/// Checks that each query's round-0 opening sits at the index sampled for it.
fn check_binding(p: &Friproof, nr: usize, indices: &Vec<usize>) -> (r: Result<(), FriError>)
    requires
        nr >= 1,
        p.query_proofs@.len() == indices@.len() * nr,
        forall|i: int| 0 <= i < p.query_proofs@.len() ==> (#[trigger] p.query_proofs@[i])@.len() == 2,
    ensures
        r is Ok <==> forall|q: int|
            0 <= q < indices@.len() ==> (#[trigger] p.query_proofs@[q * nr])@[0].leaf_index
                == indices@[q] as u64,
        r matches Err(e) ==> e matches FriError::Binding { query } && query < indices@.len()
            && p.query_proofs@[query * nr]@[0].leaf_index != indices@[query as int] as u64,
{
    let nq = indices.len();
    let len = p.query_proofs.len();
    for q in 0..nq
        invariant
            nq == indices@.len(),
            len == p.query_proofs@.len(),
            nr >= 1,
            p.query_proofs@.len() == nq * nr,
            forall|i: int| 0 <= i < p.query_proofs@.len() ==> (#[trigger] p.query_proofs@[i])@.len() == 2,
            forall|k: int|
                0 <= k < q ==> (#[trigger] p.query_proofs@[k * nr])@[0].leaf_index == indices@[k] as u64,
    {
        proof {
            lemma_flat_index(q as int, 0, nr as int, nq as int);
        }
        let i = q * nr;
        if p.query_proofs[i][0].leaf_index != indices[q] as u64 {
            return Err(FriError::Binding { query: q });
        }
    }
    Ok(())
}

/// Checks the collinearity equation for every entry.
fn check_collinearity(
    c: Friconfig,
    p: &Friproof,
    nr: usize,
    top: usize,
    betas: &Vec<BabyBear>,
    Ghost(log): Ghost<TranscriptLog>,
) -> (r: Result<(), FriError>)
    requires
        shape_ok(c, *p),
        auth_ok(c, *p),
        is_pow2(c.stopping_size as nat),
        nr == proof_rounds(c, *p),
        top == top_height(c, *p),
        betas@.len() == nr,
        forall|j: int| 0 <= j < nr ==> (#[trigger] betas@[j])@ == round_challenge(c, *p, log, j as nat),
    ensures
        r is Ok <==> collinearity_ok(c, *p, log),
        r matches Err(e) ==> e matches FriError::Collinearity { query, round } && query
            < c.num_queries && round < nr && !entry_collinear(c, *p, log, query * nr + round),
{
    let len = p.query_proofs.len();
    let stop = c.stopping_size;
    let two = BabyBear::from_u32(2);
    proof {
        vstd::arithmetic::div_mod::lemma_small_mod(2, modulus() as nat);
    }
    let two_inv = two.inv();
    proof {
        lemma_shape_len(c, *p);
        crate::field::lemma_pow2_positive(stop as nat);
    }
    for i in 0..len
        invariant
            p.query_proofs@.len() == c.num_queries * nr,
            shape_ok(c, *p),
            auth_ok(c, *p),
            stop >= 1,
            nr == proof_rounds(c, *p),
            top == top_height(c, *p),
            stop == c.stopping_size,
            len == p.query_proofs@.len(),
            betas@.len() == nr,
            forall|j: int| 0 <= j < nr ==> (#[trigger] betas@[j])@ == round_challenge(c, *p, log, j as nat),
            two_inv@ == finv(2),
            forall|k: int| 0 <= k < i ==> #[trigger] entry_collinear(c, *p, log, k),
    {
        let q = i / nr;
        let j = i % nr;
        proof {
            lemma_fundamental_div_mod(i as int, nr as int);
            assert(q < c.num_queries) by (nonlinear_arith)
                requires
                    i < c.num_queries * nr,
                    q == i / nr,
                    nr > 0,
            ;
            assert(entry_authenticated(c, *p, i as int));
            assert(p.query_proofs@[i as int]@.len() == 2);
        }
        let height = top - j;
        let e = &p.query_proofs[i];
        let leaf = e[0].leaf;
        let leaf_sym = e[1].leaf;
        let index = e[0].leaf_index;
        proof {
            lemma_shift_zero(index as nat, height as nat);
            if height < 27 {
                vstd::arithmetic::power2::lemma_pow2_strictly_increases(height as nat, 27);
            }
            vstd::arithmetic::power2::lemma2_to64();
        }
        let layer_size = pow2_usize(height);
        let rou = get_root_of_unity(layer_size as u64);
        let rou_inv = rou.inv();
        let l_even = leaf.add(leaf_sym).mul(two_inv);
        let l_odd = leaf.sub(leaf_sym).mul(two_inv).mul(pow(rou_inv, index as u32));
        let l_next = l_even.add(betas[j].mul(l_odd));
        proof {
            assert(q * nr + j == i) by (nonlinear_arith)
                requires
                    i == nr * q + j,
            ;
            assert(l_next@ == collinear_value(
                leaf@,
                leaf_sym@,
                finv(root_of_unity_spec(pow2(height as nat))),
                index as nat,
                round_challenge(c, *p, log, j as nat),
                finv(2),
            ));
        }
        if j == nr - 1 {
            let fi = (index % (stop as u64)) as usize;
            if !l_next.equals(&p.final_poly[fi]) {
                assert(!entry_collinear(c, *p, log, i as int));
                return Err(FriError::Collinearity { query: q, round: j });
            }
        } else {
            proof {
                assert(i + 1 < len) by (nonlinear_arith)
                    requires
                        i == nr * q + j,
                        j < nr - 1,
                        q < c.num_queries,
                        len == c.num_queries * nr,
                ;
                assert(p.query_proofs@[i + 1]@.len() == 2);
            }
            if !l_next.equals(&p.query_proofs[i + 1][0].leaf) {
                assert(!entry_collinear(c, *p, log, i as int));
                return Err(FriError::Collinearity { query: q, round: j });
            }
        }
    }
    Ok(())
}

/// Verifies a FRI proof against a transcript in the state that the prover's
/// transcript had before proving. The round count and the original codeword
/// length are read from the proof's shape; the transcript is bound to them,
/// every opening is authenticated, the round challenges are replayed from the
/// opened roots, the proof-of-work nonce is checked, the round-0 indices are
/// matched against the sampled ones, and each query is folded round by round
/// against the next opening and finally against the final codeword.
pub fn verify(fri_config: Friconfig, friproof: Friproof, transcript: &mut FriTranscript) -> (r:
    Result<bool, FriError>)
    requires
        is_pow2(fri_config.stopping_size as nat),
        fri_config.folding_factor == 2,
    ensures
        r is Ok ==> r == Ok::<bool, FriError>(true),
        r == Ok::<bool, FriError>(true) <==> fri_accepts(fri_config, friproof, old(transcript)@),
        r == Ok::<bool, FriError>(true) ==> final(transcript)@ == sample_log(
            fri_config,
            friproof,
            old(transcript)@,
        ),
        r == Err::<bool, FriError>(FriError::Shape) <==> !shape_ok(fri_config, friproof),
        r matches Err(FriError::Authentication { query, round }) ==> shape_ok(fri_config, friproof)
            && query < fri_config.num_queries && round < proof_rounds(fri_config, friproof)
            && !entry_authenticated(
            fri_config,
            friproof,
            query * proof_rounds(fri_config, friproof) + round,
        ),
        r == Err::<bool, FriError>(FriError::ProofOfWork) ==> shape_ok(fri_config, friproof)
            && auth_ok(fri_config, friproof) && !pow_ok(fri_config, friproof, old(transcript)@),
        r matches Err(FriError::Binding { query }) ==> shape_ok(fri_config, friproof) && auth_ok(
            fri_config,
            friproof,
        ) && pow_ok(fri_config, friproof, old(transcript)@) && query < fri_config.num_queries
            && friproof.query_proofs@[query * proof_rounds(fri_config, friproof)]@[0].leaf_index
            != sampled_indices(fri_config, friproof, old(transcript)@)[query as int] as u64,
        r matches Err(FriError::Collinearity { query, round }) ==> fri_accepts(
            fri_config,
            friproof,
            old(transcript)@,
        ) == false && shape_ok(fri_config, friproof) && auth_ok(fri_config, friproof) && pow_ok(
            fri_config,
            friproof,
            old(transcript)@,
        ) && binding_ok(fri_config, friproof, old(transcript)@) && query < fri_config.num_queries
            && round < proof_rounds(fri_config, friproof) && !entry_collinear(
            fri_config,
            friproof,
            old(transcript)@,
            query * proof_rounds(fri_config, friproof) + round,
        ),
        !(r == Err::<bool, FriError>(FriError::ProofOfWorkExhausted)),
        shape_ok(fri_config, friproof) && !auth_ok(fri_config, friproof) ==> r matches Err(
            FriError::Authentication { .. },
        ),
        shape_ok(fri_config, friproof) && auth_ok(fri_config, friproof) && !pow_ok(
            fri_config,
            friproof,
            old(transcript)@,
        ) ==> r == Err::<bool, FriError>(FriError::ProofOfWork),
        shape_ok(fri_config, friproof) && auth_ok(fri_config, friproof) && pow_ok(
            fri_config,
            friproof,
            old(transcript)@,
        ) && !binding_ok(fri_config, friproof, old(transcript)@) ==> r matches Err(
            FriError::Binding { .. },
        ),
        shape_ok(fri_config, friproof) && auth_ok(fri_config, friproof) && pow_ok(
            fri_config,
            friproof,
            old(transcript)@,
        ) && binding_ok(fri_config, friproof, old(transcript)@) && !collinearity_ok(
            fri_config,
            friproof,
            old(transcript)@,
        ) ==> r matches Err(FriError::Collinearity { .. }),
{
    let ghost log = transcript@;
    if !check_shape(fri_config, &friproof) {
        return Err(FriError::Shape);
    }
    let nq = fri_config.num_queries;
    let nr = friproof.query_proofs.len() / nq;
    let top = nr + ilog2(fri_config.stopping_size);
    let size = pow2_usize(top);
    let separator = domain_separator_bytes();
    transcript.fri_domain_sep(separator.as_slice(), size as u64, public_input());
    assert(transcript@ == verifier_start(fri_config, friproof, log));
    match authenticate(fri_config, &friproof, nr, top) {
        Ok(()) => {},
        Err(e) => {
            return Err(e);
        },
    }
    let betas = replay_challenges(&friproof, nr, transcript);
    let pow_challenge = transcript.challenge_scalar("challenge");
    let out = pow_hash(pow_challenge, friproof.pow_nonce);
    let out_lead_zeros = num_leading_zeros(out);
    if out_lead_zeros != fri_config.pow_bits {
        return Err(FriError::ProofOfWork);
    }
    transcript.add_nonce(friproof.pow_nonce);
    let sample = transcript.challenge_scalar("sample");
    assert(transcript@ == sample_log(fri_config, friproof, log));
    let seed = sample.to_bytes_le();
    proof {
        lemma_pow2_half(size as nat);
        lemma_shape_len(fri_config, friproof);
    }
    let query_indices = generate_samples_in_range(seed, nq, size / 2);
    assert(query_indices@ == sampled_indices(fri_config, friproof, log));
    match check_binding(&friproof, nr, &query_indices) {
        Ok(()) => {},
        Err(e) => {
            return Err(e);
        },
    }
    match check_collinearity(fri_config, &friproof, nr, top, &betas, Ghost(log)) {
        Ok(()) => {},
        Err(e) => {
            return Err(e);
        },
    }
    Ok(true)
}

} // verus!
