//! Honest proofs are accepted: what the prover makes, the verifier accepts.

use crate::data_structures::{Friconfig, Friproof};
use crate::field::{
    finv, is_pow2, lemma_fmul_one, lemma_fpow_range, lemma_pow2_positive, log2,
    root_of_unity_spec, GENERATOR, MODULUS,
};
use crate::fold::{fold_spec, values};
use crate::hash::{le_bytes, pow_holds};
use crate::fri_verifier::{
    auth_ok, binding_ok, collinear_value, entry_authenticated, entry_collinear,
    fri_accepts, lemma_collinearity, pow_ok, proof_rounds, replay_log, round_challenge,
    sampled_indices, shape_ok, top_height, verifier_start,
};
use crate::hash::blake2s_of;
use crate::merkle::{
    MerkleProof, climb, digests, leaf_digest, lemma_opening_accepted, lemma_pow2_half, path_accepts,
};
use crate::prover::{
    commit_phase, honest_proof, inverse_domain, lemma_commit_phase_len,
    lemma_fold_agreement, lemma_log2_mono, lemma_pow2_log2_injective, opens_query,
    proof_sample_log, query_entry, start_log, strided,
};

use crate::sampling::samples_spec;
use crate::transcript::{challenge_value, TranscriptLog};
use vstd::arithmetic::div_mod::{
    lemma_add_mod_noop, lemma_fundamental_div_mod, lemma_fundamental_div_mod_converse, lemma_mod_mod,
    lemma_small_mod,
};
use vstd::arithmetic::power::lemma_pow0;
use vstd::arithmetic::power2::{lemma_pow2_adds, lemma_pow2_unfold, pow2};
use vstd::prelude::*;

verus! {

/// Later rounds of the commit phase keep the earlier codewords.
pub proof fn lemma_phase_prefix(
    cw: Seq<int>,
    log0: TranscriptLog,
    dom: Seq<int>,
    j: nat,
    k: nat,
)
    requires
        k <= j,
    ensures
        commit_phase(cw, log0, dom, j).0[k as int] == commit_phase(cw, log0, dom, k).0[k as int],
    decreases j,
{
    if k < j {
        lemma_phase_prefix(cw, log0, dom, (j - 1) as nat, k);
        lemma_commit_phase_len(cw, log0, dom, (j - 1) as nat);
    }
}

/// The codeword of round `k` has length `2^(log2(size) - k)`.
pub proof fn lemma_phase_layer(cw: Seq<int>, log0: TranscriptLog, dom: Seq<int>, k: nat)
    requires
        is_pow2(cw.len()),
        k <= log2(cw.len()),
    ensures
        is_pow2(commit_phase(cw, log0, dom, k).0[k as int].len()),
        log2(commit_phase(cw, log0, dom, k).0[k as int].len()) + k == log2(cw.len()),
    decreases k,
{
    lemma_commit_phase_len(cw, log0, dom, k);
    if k > 0 {
        lemma_phase_layer(cw, log0, dom, (k - 1) as nat);
        lemma_commit_phase_len(cw, log0, dom, (k - 1) as nat);
        let prev = commit_phase(cw, log0, dom, (k - 1) as nat).0[k - 1];
        lemma_pow2_positive(prev.len());
        lemma_pow2_half(prev.len());
    }
}

/// A power of two is two to its logarithm.
pub proof fn lemma_pow2_of_log2(n: nat)
    requires
        is_pow2(n),
    ensures
        n == pow2(log2(n)),
    decreases n,
{
    lemma_pow2_positive(n);
    if n == 1 {
        lemma_pow0(2);
    } else {
        lemma_pow2_half(n);
        lemma_pow2_of_log2(n / 2);
        lemma_pow2_unfold(log2(n));
    }
}

/// The verifier's replayed transcript is the prover's when the proof's
/// first-query roots are the prover's roots.
pub proof fn lemma_replay(
    cw: Seq<int>,
    log0: TranscriptLog,
    dom: Seq<int>,
    qp: Seq<Vec<crate::merkle::MerkleProof>>,
    nr: nat,
    j: nat,
)
    requires
        j <= nr,
        forall|k: int|
            0 <= k < nr ==> (#[trigger] qp[k])@[0].root@ == crate::merkle::merkle_root(
                commit_phase(cw, log0, dom, nr).0[k],
            ),
    ensures
        replay_log(log0, qp, j) == commit_phase(cw, log0, dom, j).1,
    decreases j,
{
    if j > 0 {
        lemma_replay(cw, log0, dom, qp, nr, (j - 1) as nat);
        lemma_phase_prefix(cw, log0, dom, nr, (j - 1) as nat);
        lemma_commit_phase_len(cw, log0, dom, (j - 1) as nat);
    }
}

/// The setting of the round trip: the prover's inputs, its output `proof`,
/// and the facts about the proof's shape that the verifier reads.
spec fn round_trip(c: Friconfig, cw: Seq<int>, log: TranscriptLog, proof: Friproof) -> bool {
    let size = cw.len();
    let nr = (log2(size) - log2(c.stopping_size as nat)) as nat;
    let log0 = start_log(log, size);
    let dom = inverse_domain(size);
    &&& is_pow2(size)
    &&& 2 <= size <= 0x800_0000
    &&& is_pow2(c.stopping_size as nat)
    &&& c.stopping_size < size
    &&& c.num_queries > 0
    &&& honest_proof(c, cw, log, proof)
    &&& nr >= 1
    &&& log2(size) <= 27
    &&& proof_rounds(c, proof) == nr
    &&& top_height(c, proof) == log2(size)
    &&& pow2(log2(size)) == size
    &&& verifier_start(c, proof, log) == log0
    &&& proof.query_proofs@.len() == c.num_queries * nr
    &&& forall|j: nat| j <= nr ==> #[trigger] replay_log(log0, proof.query_proofs@, j) == commit_phase(cw, log0, dom, j).1
}

/// Entry `i` is entry `(i / nr, i % nr)` of the prover's openings.
proof fn lemma_entry_split(c: Friconfig, cw: Seq<int>, log: TranscriptLog, proof: Friproof, i: int)
    requires
        round_trip(c, cw, log, proof),
        0 <= i < proof.query_proofs@.len(),
    ensures
        ({
            let nr = proof_rounds(c, proof) as int;
            &&& 0 <= i / nr < c.num_queries
            &&& 0 <= i % nr < nr
            &&& i == (i / nr) * nr + i % nr
            &&& proof.query_proofs@[i]@ == query_entry(proof.query_proofs@, nr as nat, i / nr, i % nr)
        }),
{
    let nr = proof_rounds(c, proof) as int;
    lemma_fundamental_div_mod(i, nr);
    assert(i / nr < c.num_queries) by (nonlinear_arith)
        requires
            i < c.num_queries * nr,
            i == nr * (i / nr) + i % nr,
            0 <= i % nr,
            nr > 0,
    ;
    assert(i == (i / nr) * nr + i % nr) by (nonlinear_arith)
        requires
            i == nr * (i / nr) + i % nr,
    ;
}

/// Each opening of an honest proof authenticates.
proof fn lemma_entry_authenticated(c: Friconfig, cw: Seq<int>, log: TranscriptLog, proof: Friproof, i: int)
    requires
        round_trip(c, cw, log, proof),
        0 <= i < proof.query_proofs@.len(),
    ensures
        entry_authenticated(c, proof, i),
{
    let size = cw.len();
    let nr = proof_rounds(c, proof);
    let log0 = start_log(log, size);
    let dom = inverse_domain(size);
    let phase = commit_phase(cw, log0, dom, nr);
    lemma_entry_split(c, cw, log, proof, i);
    let q = i / (nr as int);
    let j = i % (nr as int);
    let e = proof.query_proofs@[i]@;
    let indices = sampled_indices(c, proof, log);
    assert(opens_query(query_entry(proof.query_proofs@, nr, q, j), phase.0[j], indices[q] as nat));
    let layer = phase.0[j];
    lemma_phase_prefix(cw, log0, dom, nr, j as nat);
    lemma_phase_layer(cw, log0, dom, j as nat);
    lemma_pow2_positive(layer.len());
    let idx0 = (indices[q] as nat % layer.len()) as nat;
    let idx1 = ((indices[q] as nat + layer.len() / 2) % layer.len()) as nat;
    lemma_opening_accepted(layer, idx0);
    lemma_opening_accepted(layer, idx1);
    assert(digests(e[0].path@).len() == e[0].path@.len());
    assert(digests(e[1].path@).len() == e[1].path@.len());
    assert(path_accepts(e[0], log2(layer.len())));
    assert(path_accepts(e[1], log2(layer.len())));
    assert(0 * (nr as int) + j == j);
    assert(opens_query(query_entry(proof.query_proofs@, nr, 0, j), phase.0[j], indices[0] as nat));
}

/// Each entry of an honest proof passes the collinearity check.
#[verifier::rlimit(40)]
proof fn lemma_entry_collinear(c: Friconfig, cw: Seq<int>, log: TranscriptLog, proof: Friproof, i: int)
    requires
        round_trip(c, cw, log, proof),
        0 <= i < proof.query_proofs@.len(),
    ensures
        entry_collinear(c, proof, log, i),
{
    let size = cw.len();
    let nr = proof_rounds(c, proof);
    let log0 = start_log(log, size);
    let dom = inverse_domain(size);
    let phase = commit_phase(cw, log0, dom, nr);
    lemma_entry_split(c, cw, log, proof, i);
    let q = i / (nr as int);
    let j = i % (nr as int);
    let e = proof.query_proofs@[i]@;
    let indices = sampled_indices(c, proof, log);
    let big_i = indices[q] as nat;
    assert(opens_query(query_entry(proof.query_proofs@, nr, q, j), phase.0[j], big_i));
    let layer = phase.0[j];
    lemma_phase_prefix(cw, log0, dom, nr, j as nat);
    lemma_phase_layer(cw, log0, dom, j as nat);
    let n = layer.len();
    let h = n / 2;
    lemma_pow2_positive(n);
    lemma_pow2_half(n);
    lemma_pow2_of_log2(n);
    lemma_pow2_adds(log2(n), j as nat);
    assert(n * pow2(j as nat) == size);
    assert(pow2(j as nat) >= 1) by {
        vstd::arithmetic::power2::lemma_pow2_pos(j as nat);
    }
    assert(n <= size) by (nonlinear_arith)
        requires
            n * pow2(j as nat) == size,
            pow2(j as nat) >= 1,
    ;
    let idx0 = big_i % n;
    lemma_add_mod_noop(big_i as int, h as int, n as int);
    lemma_small_mod(h, n);
    assert(((big_i + h) % n) as int == ((idx0 + h) % n) as int);
    let beta = round_challenge(c, proof, log, j as nat);
    assert(replay_log(log0, proof.query_proofs@, (j + 1) as nat) == commit_phase(cw, log0, dom, (j + 1) as nat).1);
    lemma_collinearity(layer, idx0, beta);
    lemma_fold_agreement(layer, size, j as nat, beta);
    lemma_fpow_range(GENERATOR as int, ((MODULUS - 1) as nat / n) as nat);
    lemma_fmul_one(root_of_unity_spec(n));
    let next_layer = commit_phase(cw, log0, dom, (j + 1) as nat).0[j + 1];
    lemma_commit_phase_len(cw, log0, dom, j as nat);
    assert(next_layer == fold_spec(layer, strided(dom, pow2(j as nat), h), beta, finv(2)));
    let l_next = collinear_value(e[0].leaf@, e[1].leaf@, finv(root_of_unity_spec(n)), idx0, beta, finv(2));
    assert(l_next == next_layer[(idx0 % h) as int]);
    lemma_mod_mod(big_i as int, h as int, 2);
    assert(h * 2 == n);
    if j < nr - 1 {
        lemma_phase_prefix(cw, log0, dom, nr, (j + 1) as nat);
        lemma_phase_layer(cw, log0, dom, (j + 1) as nat);
        assert(i + 1 == q * nr + (j + 1));
        assert(opens_query(query_entry(proof.query_proofs@, nr, q, j + 1), phase.0[j + 1], big_i));
        assert(phase.0[j + 1].len() == h);
    } else {
        lemma_phase_layer(cw, log0, dom, (j + 1) as nat);
        lemma_pow2_log2_injective(next_layer.len(), c.stopping_size as nat);
        assert(next_layer.len() == h);
        assert(phase.0[nr as int] == next_layer);
    }
}

/// Completeness: a proof that the prover makes is accepted. If `proof` is the
/// prover's output for the codeword `cw` (of power-of-two length up to
/// `2^27`, folded down to a smaller power-of-two `stopping_size`, with at
/// least one query) from a transcript with history `log`, the verifier
/// accepts it from a transcript with the same history.
pub proof fn lemma_honest_proof_accepted(c: Friconfig, cw: Seq<int>, log: TranscriptLog, proof: Friproof)
    requires
        is_pow2(cw.len()),
        2 <= cw.len() <= 0x800_0000,
        is_pow2(c.stopping_size as nat),
        c.stopping_size < cw.len(),
        c.num_queries > 0,
        honest_proof(c, cw, log, proof),
    ensures
        fri_accepts(c, proof, log),
{
    let size = cw.len();
    let stop = c.stopping_size as nat;
    let nq = c.num_queries as nat;
    let nr = (log2(size) - log2(stop)) as nat;
    let log0 = start_log(log, size);
    let dom = inverse_domain(size);
    let phase = commit_phase(cw, log0, dom, nr);
    let qp = proof.query_proofs@;
    lemma_log2_mono(stop, size);
    if log2(stop) == log2(size) {
        lemma_pow2_log2_injective(stop, size);
    }
    assert(log2(0x800_0000) == 27) by {
        reveal_with_fuel(log2, 28);
    }
    lemma_log2_mono(size, 0x800_0000);
    assert(qp.len() == nr * nq) by (nonlinear_arith)
        requires
            qp.len() == nq * nr,
    ;
    lemma_fundamental_div_mod_converse(qp.len() as int, nq as int, nr as int, 0);
    assert(proof_rounds(c, proof) == nr);
    lemma_pow2_of_log2(size);
    assert(verifier_start(c, proof, log) == log0);
    assert forall|k: int| 0 <= k < nr implies (#[trigger] qp[k])@[0].root@ == crate::merkle::merkle_root(phase.0[k]) by {
        assert(0 * nr + k == k);
        let honest_indices = samples_spec(
            le_bytes(
                challenge_value(proof_sample_log(phase.1.push(("challenge"@, None)), proof.pow_nonce))
                    as nat,
                4,
            ),
            nq,
            size / 2,
        );
        assert(opens_query(query_entry(qp, nr, 0, k), phase.0[k], honest_indices[0] as nat));
    }
    assert forall|j: nat| j <= nr implies #[trigger] replay_log(log0, qp, j) == commit_phase(cw, log0, dom, j).1 by {
        lemma_replay(cw, log0, dom, qp, nr, j);
    }
    assert(round_trip(c, cw, log, proof));
    // shape
    lemma_phase_layer(cw, log0, dom, nr);
    lemma_pow2_log2_injective(phase.0[nr as int].len(), stop);
    assert(proof.final_poly@.len() == c.stopping_size);
    assert forall|i: int| 0 <= i < qp.len() implies (#[trigger] qp[i])@.len() == 2 by {
        lemma_entry_split(c, cw, log, proof, i);
        let q = i / (nr as int);
        let j = i % (nr as int);
        assert(opens_query(query_entry(qp, nr, q, j), phase.0[j], sampled_indices(c, proof, log)[q] as nat));
    }
    assert(shape_ok(c, proof));
    assert forall|i: int| 0 <= i < qp.len() implies #[trigger] entry_authenticated(c, proof, i) by {
        lemma_entry_authenticated(c, cw, log, proof, i);
    }
    assert(auth_ok(c, proof));
    assert(pow_ok(c, proof, log));
    assert forall|q: int| 0 <= q < c.num_queries implies (#[trigger] qp[q * proof_rounds(c, proof)])@[0].leaf_index
        == sampled_indices(c, proof, log)[q] as u64 by {
        let indices = sampled_indices(c, proof, log);
        assert(q * nr + 0 == q * nr);
        assert(opens_query(query_entry(qp, nr, q, 0), phase.0[0], indices[q] as nat));
        lemma_phase_prefix(cw, log0, dom, nr, 0);
        lemma_small_mod(indices[q] as nat, size);
    }
    assert(binding_ok(c, proof, log));
    assert forall|i: int| 0 <= i < qp.len() implies #[trigger] entry_collinear(c, proof, log, i) by {
        lemma_entry_collinear(c, cw, log, proof, i);
    }
}

/// Tampering with the final codeword where a query lands is detected. Take an
/// honest proof as in `lemma_honest_proof_accepted`, and a forged one with the
/// same openings and nonce whose final codeword differs at the position that
/// query `q`'s last-round opening folds onto: the verifier rejects the forgery.
pub proof fn lemma_tampered_final_poly_rejected(
    c: Friconfig,
    cw: Seq<int>,
    log: TranscriptLog,
    proof: Friproof,
    forged: Friproof,
    q: int,
)
    requires
        is_pow2(cw.len()),
        2 <= cw.len() <= 0x800_0000,
        is_pow2(c.stopping_size as nat),
        c.stopping_size < cw.len(),
        c.num_queries > 0,
        honest_proof(c, cw, log, proof),
        forged.query_proofs == proof.query_proofs,
        forged.pow_nonce == proof.pow_nonce,
        forged.final_poly@.len() == proof.final_poly@.len(),
        0 <= q < c.num_queries,
        ({
            let nr = proof_rounds(c, proof) as int;
            let k = (proof.query_proofs@[q * nr + nr - 1]@[0].leaf_index as nat) % (
            c.stopping_size as nat);
            forged.final_poly@[k as int]@ != proof.final_poly@[k as int]@
        }),
    ensures
        !fri_accepts(c, forged, log),
{
    lemma_honest_proof_accepted(c, cw, log, proof);
    let nr = proof_rounds(c, proof) as int;
    let nq = c.num_queries as int;
    let i = q * nr + nr - 1;
    assert(nr >= 1);
    assert(proof.query_proofs@.len() == nq * nr) by {
        lemma_fundamental_div_mod(proof.query_proofs@.len() as int, nq);
        assert(nq * nr == nr * nq) by (nonlinear_arith);
    }
    crate::prover::lemma_flat_index(q, nr - 1, nr, nq);
    assert(entry_collinear(c, proof, log, i));
    assert(!entry_collinear(c, forged, log, i));
}

/// BLAKE2s has a collision: two different inputs with the same digest.
pub open spec fn blake2s_collision() -> bool {
    exists|a: Seq<u8>, b: Seq<u8>| a != b && blake2s_of(a) == blake2s_of(b)
}

/// The four bytes of a value below `2^32` give the value back.
proof fn lemma_le_bytes_value(x: nat)
    requires
        x < 0x1_0000_0000,
    ensures
        crate::field::le_u32_value(le_bytes(x, 4)) == x,
{
    reveal_with_fuel(le_bytes, 5);
}

/// Two different digests that climb the same path to the same root reveal a collision.
pub proof fn lemma_climb_collision(d1: Seq<u8>, d2: Seq<u8>, j: nat, path: Seq<Seq<u8>>)
    requires
        d1 != d2,
        climb(d1, j, path) == climb(d2, j, path),
    ensures
        blake2s_collision(),
    decreases path.len(),
{
    if path.len() > 0 {
        let (a, b) = if j % 2 == 0 {
            (d1 + path[0], d2 + path[0])
        } else {
            (path[0] + d1, path[0] + d2)
        };
        if a == b {
            if j % 2 == 0 {
                assert(d1 =~= a.take(d1.len() as int));
                assert(d2 =~= b.take(d2.len() as int));
                assert(a.len() == b.len());
            } else {
                assert(d1 =~= a.skip(path[0].len() as int));
                assert(d2 =~= b.skip(path[0].len() as int));
            }
        }
        if blake2s_of(a) == blake2s_of(b) {
            assert(a != b && blake2s_of(a) == blake2s_of(b));
        } else {
            lemma_climb_collision(blake2s_of(a), blake2s_of(b), j / 2, path.drop_first());
        }
    }
}

/// Tampering with an opened leaf is detected unless BLAKE2s collides. Take
/// an honest proof as in `lemma_honest_proof_accepted`, and a forged one that
/// differs only in the leaf value of opening `t` of entry `i`: if the verifier
/// accepts the forgery, two different inputs have the same BLAKE2s digest.
pub proof fn lemma_tampered_leaf_needs_collision(
    c: Friconfig,
    cw: Seq<int>,
    log: TranscriptLog,
    proof: Friproof,
    forged: Friproof,
    i: int,
    t: int,
)
    requires
        is_pow2(cw.len()),
        2 <= cw.len() <= 0x800_0000,
        is_pow2(c.stopping_size as nat),
        c.stopping_size < cw.len(),
        c.num_queries > 0,
        honest_proof(c, cw, log, proof),
        forged.query_proofs@.len() == proof.query_proofs@.len(),
        0 <= i < proof.query_proofs@.len(),
        0 <= t < 2,
        forged.query_proofs@[i]@.len() == 2,
        forged.query_proofs@[i]@[t].root == proof.query_proofs@[i]@[t].root,
        forged.query_proofs@[i]@[t].leaf_index == proof.query_proofs@[i]@[t].leaf_index,
        forged.query_proofs@[i]@[t].path == proof.query_proofs@[i]@[t].path,
        forged.query_proofs@[i]@[t].leaf@ != proof.query_proofs@[i]@[t].leaf@,
        fri_accepts(c, forged, log),
    ensures
        blake2s_collision(),
{
    lemma_honest_proof_accepted(c, cw, log, proof);
    assert(entry_authenticated(c, proof, i));
    assert(entry_authenticated(c, forged, i));
    let honest = proof.query_proofs@[i]@[t];
    let fake = forged.query_proofs@[i]@[t];
    let x = fake.leaf@;
    let y = honest.leaf@;
    fake.leaf.lemma_range();
    honest.leaf.lemma_range();
    let bx = le_bytes(x as nat, 4);
    let by = le_bytes(y as nat, 4);
    lemma_le_bytes_value(x as nat);
    lemma_le_bytes_value(y as nat);
    assert(bx != by);
    if leaf_digest(x) == leaf_digest(y) {
        assert(bx != by && blake2s_of(bx) == blake2s_of(by));
    } else {
        lemma_climb_collision(leaf_digest(x), leaf_digest(y), fake.leaf_index as nat, digests(fake.path@));
    }
}

/// Proving is deterministic: two proofs that the prover makes for the same
/// codeword, configuration and transcript history have the same nonce, the
/// same final codeword and, entry by entry, the same openings.
pub proof fn lemma_honest_proof_unique(
    c: Friconfig,
    cw: Seq<int>,
    log: TranscriptLog,
    p1: Friproof,
    p2: Friproof,
)
    requires
        honest_proof(c, cw, log, p1),
        honest_proof(c, cw, log, p2),
    ensures
        p1.pow_nonce == p2.pow_nonce,
        values(p1.final_poly@) == values(p2.final_poly@),
        p1.query_proofs@.len() == p2.query_proofs@.len(),
        forall|q: int, j: int|
            0 <= q < c.num_queries && 0 <= j < rounds_of(c, cw) ==> same_openings(
                #[trigger] query_entry(p1.query_proofs@, rounds_of(c, cw), q, j),
                query_entry(p2.query_proofs@, rounds_of(c, cw), q, j),
            ),
{
    let size = cw.len();
    let nr = (log2(size) - log2(c.stopping_size as nat)) as nat;
    let phase = commit_phase(cw, start_log(log, size), inverse_domain(size), nr);
    let pow_log = phase.1.push(("challenge"@, None));
    if p1.pow_nonce < p2.pow_nonce {
        assert(!pow_holds(challenge_value(pow_log), p1.pow_nonce, c.pow_bits));
    }
    if p2.pow_nonce < p1.pow_nonce {
        assert(!pow_holds(challenge_value(pow_log), p2.pow_nonce, c.pow_bits));
    }
    assert forall|q: int, j: int| 0 <= q < c.num_queries && 0 <= j < nr implies same_openings(
        #[trigger] query_entry(p1.query_proofs@, nr, q, j),
        query_entry(p2.query_proofs@, nr, q, j),
    ) by {
        let e1 = query_entry(p1.query_proofs@, nr, q, j);
        let e2 = query_entry(p2.query_proofs@, nr, q, j);
        assert(opens_query(e2, phase.0[j], sampled_from(c, cw, log, p2)[q] as nat));
        assert(opens_query(e1, phase.0[j], sampled_from(c, cw, log, p1)[q] as nat));
    }
}

/// The number of folding rounds for `cw` under `c`.
pub open spec fn rounds_of(c: Friconfig, cw: Seq<int>) -> nat {
    (log2(cw.len()) - log2(c.stopping_size as nat)) as nat
}

/// Two pairs of openings agree in root, leaf value, index and path.
pub open spec fn same_openings(e1: Seq<MerkleProof>, e2: Seq<MerkleProof>) -> bool {
    forall|t: int|
        0 <= t < 2 ==> e1[t].root@ == e2[t].root@ && e1[t].leaf@ == e2[t].leaf@ && e1[t].leaf_index
            == e2[t].leaf_index && digests(e1[t].path@) == digests(e2[t].path@)
}

/// The indices that an honest proof of `cw` opens, as the prover samples them.
spec fn sampled_from(c: Friconfig, cw: Seq<int>, log: TranscriptLog, p: Friproof) -> Seq<usize> {
    let size = cw.len();
    let nr = (log2(size) - log2(c.stopping_size as nat)) as nat;
    let phase = commit_phase(cw, start_log(log, size), inverse_domain(size), nr);
    samples_spec(
        le_bytes(
            challenge_value(proof_sample_log(phase.1.push(("challenge"@, None)), p.pow_nonce))
                as nat,
            4,
        ),
        c.num_queries as nat,
        size / 2,
    )
}

/// The shape of an honest proof: `num_queries * nr` pairs of openings, round
/// `j < nr` opening a codeword of length `size / 2^j`, and a final codeword of
/// `stopping_size` entries, where `nr = log2(size) - log2(stopping_size)`.
pub proof fn lemma_honest_proof_shape(c: Friconfig, cw: Seq<int>, log: TranscriptLog, proof: Friproof)
    requires
        is_pow2(cw.len()),
        2 <= cw.len() <= 0x800_0000,
        is_pow2(c.stopping_size as nat),
        c.stopping_size < cw.len(),
        honest_proof(c, cw, log, proof),
    ensures
        ({
            let size = cw.len();
            let nr = (log2(size) - log2(c.stopping_size as nat)) as nat;
            let phase = commit_phase(cw, start_log(log, size), inverse_domain(size), nr);
            &&& nr >= 1
            &&& proof.query_proofs@.len() == c.num_queries * nr
            &&& forall|i: int| 0 <= i < proof.query_proofs@.len() ==> (#[trigger] proof.query_proofs@[i])@.len() == 2
            &&& proof.final_poly@.len() == c.stopping_size
            &&& forall|j: int| 0 <= j <= nr ==> (#[trigger] phase.0[j]).len() * pow2(j as nat) == size
        }),
{
    let size = cw.len();
    let stop = c.stopping_size as nat;
    let nr = (log2(size) - log2(stop)) as nat;
    let log0 = start_log(log, size);
    let dom = inverse_domain(size);
    let phase = commit_phase(cw, log0, dom, nr);
    let qp = proof.query_proofs@;
    lemma_log2_mono(stop, size);
    if log2(stop) == log2(size) {
        lemma_pow2_log2_injective(stop, size);
    }
    lemma_phase_layer(cw, log0, dom, nr);
    lemma_pow2_log2_injective(phase.0[nr as int].len(), stop);
    assert forall|i: int| 0 <= i < qp.len() implies (#[trigger] qp[i])@.len() == 2 by {
        let nq = c.num_queries as int;
        let ni = nr as int;
        lemma_fundamental_div_mod(i, ni);
        assert(i / ni < nq) by (nonlinear_arith)
            requires
                i < nq * ni,
                i == ni * (i / ni) + i % ni,
                0 <= i % ni,
                ni > 0,
        ;
        assert(i == (i / ni) * ni + i % ni) by (nonlinear_arith)
            requires
                i == ni * (i / ni) + i % ni,
        ;
        assert(opens_query(query_entry(qp, nr, i / ni, i % ni), phase.0[i % ni], sampled_from(c, cw, log, proof)[i / ni] as nat));
    }
    lemma_pow2_of_log2(size);
    assert forall|j: int| 0 <= j <= nr implies (#[trigger] phase.0[j]).len() * pow2(j as nat) == size by {
        lemma_phase_prefix(cw, log0, dom, nr, j as nat);
        lemma_phase_layer(cw, log0, dom, j as nat);
        let n = phase.0[j].len();
        lemma_pow2_of_log2(n);
        lemma_pow2_adds(log2(n), j as nat);
    }
}

} // verus!
