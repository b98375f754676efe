//! The FRI prover: commit phase, proof-of-work and query phase.

use crate::data_structures::{FriError, Friconfig, Frilayerdata, Friproof};
use crate::field::{
    finv, fmul, fpow, get_root_of_unity, is_pow2, le_u32_value, lemma_fmul_one, lemma_fpow_mul,
    lemma_fpow_range, lemma_root_exponent, log2, modulus, root_of_unity_spec, BabyBear, GENERATOR,
    MODULUS,
};
use crate::fold::{fold_spec, inverse_powers, powers, values, Current_layer};
use crate::hash::{le_bytes, pow_holds, proof_of_work};
use crate::merkle::{
    auth_path, digests, ilog2, lemma_pow2_half, merkle_root, MerkleProof, };
use crate::sampling::{generate_samples_in_range, samples_spec};
use crate::transcript::{
    challenge_value, domain_sep_entries, FriTranscript, TranscriptLog, TranscriptProtocol,
};
use vstd::arithmetic::div_mod::lemma_fundamental_div_mod_converse;
use vstd::arithmetic::power::lemma_pow0;
use vstd::arithmetic::power2::{lemma_pow2_unfold, pow2};
use vstd::prelude::*;

verus! {

/// The bytes that bind a transcript to this protocol: "my_Shitty_FRI".
pub open spec fn domain_separator() -> Seq<u8> {
    seq![109u8, 121u8, 95u8, 83u8, 104u8, 105u8, 116u8, 116u8, 121u8, 95u8, 70u8, 82u8, 73u8]
}

/// The bytes that bind a transcript to this protocol.
pub fn domain_separator_bytes() -> (r: Vec<u8>)
    ensures
        r@ == domain_separator(),
{
    let mut r: Vec<u8> = Vec::new();
    r.push(109);
    r.push(121);
    r.push(95);
    r.push(83);
    r.push(104);
    r.push(105);
    r.push(116);
    r.push(116);
    r.push(121);
    r.push(95);
    r.push(70);
    r.push(82);
    r.push(73);
    assert(r@ =~= domain_separator());
    r
}

/// The public input bound into the transcript: the bytes of "public".
pub open spec fn public_bytes() -> Seq<u8> {
    seq![112u8, 117u8, 98u8, 108u8, 105u8, 99u8]
}

/// The public input bound into the transcript.
pub fn public_input() -> (r: Vec<u8>)
    ensures
        r@ == public_bytes(),
{
    let mut r: Vec<u8> = Vec::new();
    r.push(112);
    r.push(117);
    r.push(98);
    r.push(108);
    r.push(105);
    r.push(99);
    assert(r@ =~= public_bytes());
    r
}

/// The transcript once the run is bound to a codeword of length `size`.
pub open spec fn start_log(log: TranscriptLog, size: nat) -> TranscriptLog {
    log + domain_sep_entries(domain_separator(), size as u64, public_bytes())
}

/// The field element that stands for a Merkle root in the transcript: its
/// first four bytes, little-endian, reduced.
pub open spec fn root_scalar(root: Seq<u8>) -> int {
    le_u32_value(root) % modulus()
}

/// The transcript after committing to `root` and drawing the round's challenge.
pub open spec fn commit_round_log(log: TranscriptLog, root: Seq<u8>) -> TranscriptLog {
    log.push(("commit"@, Some(le_bytes(root_scalar(root) as nat, 4)))).push(("challenge"@, None))
}

/// Every `step`-th entry of `table`, `count` of them.
pub open spec fn strided(table: Seq<int>, step: nat, count: nat) -> Seq<int> {
    Seq::new(count, |i: int| table[i * step])
}

/// The inverse domain `1, w^-1, w^-2, ...` (half the domain) of a codeword of length `size`.
pub open spec fn inverse_domain(size: nat) -> Seq<int> {
    powers(finv(root_of_unity_spec(size)), size / 2)
}

/// The codewords of rounds `0..=j` and the transcript after `j` rounds of the
/// commit phase, starting from `codeword` and the transcript `log0`. Round `r`
/// folds with every `2^r`-th entry of `inv_domain` and the challenge drawn
/// after committing to that round's root.
pub open spec fn commit_phase(
    codeword: Seq<int>,
    log0: TranscriptLog,
    inv_domain: Seq<int>,
    j: nat,
) -> (Seq<Seq<int>>, TranscriptLog)
    decreases j,
{
    if j == 0 {
        (seq![codeword], log0)
    } else {
        let prev = commit_phase(codeword, log0, inv_domain, (j - 1) as nat);
        let layer = prev.0.last();
        let log = commit_round_log(prev.1, merkle_root(layer));
        let table = strided(inv_domain, pow2((j - 1) as nat), layer.len() / 2);
        (prev.0.push(fold_spec(layer, table, challenge_value(log), finv(2))), log)
    }
}

/// `p` opens position `index` of `layer` in the tree over `layer`.
pub open spec fn is_opening(p: MerkleProof, layer: Seq<int>, index: nat) -> bool {
    &&& p.root@ == merkle_root(layer)
    &&& p.leaf@ == layer[index as int]
    &&& p.leaf_index == index
    &&& digests(p.path@) == auth_path(layer, index)
}

/// The two openings of one query in one round, at positions `index` and
/// `index + n/2` (mod `n`) of a layer of length `n`.
pub open spec fn opens_query(e: Seq<MerkleProof>, layer: Seq<int>, index: nat) -> bool {
    &&& e.len() == 2
    &&& is_opening(e[0], layer, index % layer.len())
    &&& is_opening(e[1], layer, (index + layer.len() / 2) % layer.len())
}

/// The entry of query `q` in round `j` when each query holds `nr` rounds.
pub open spec fn query_entry(qp: Seq<Vec<MerkleProof>>, nr: nat, q: int, j: int) -> Seq<MerkleProof> {
    qp[q * nr + j]@
}

/// Position `q * nr + j` is entry `j` of group `q`.
pub proof fn lemma_flat_index(q: int, j: int, nr: int, nq: int)
    requires
        0 <= q < nq,
        0 <= j < nr,
    ensures
        (q * nr + j) / nr == q,
        (q * nr + j) % nr == j,
        0 <= q * nr + j < nq * nr,
{
    lemma_fundamental_div_mod_converse(q * nr + j, nr, q, j);
    assert(0 <= q * nr + j < nq * nr) by (nonlinear_arith)
        requires
            0 <= q < nq,
            0 <= j < nr,
    ;
}

/// Opens, for each sampled index and each committed round, the index and its
/// symmetric index in that round's tree; the result holds the rounds of each
/// query together, query after query.
fn open_queries(layers: &Frilayerdata, indices: &Vec<usize>, nr: usize, Ghost(ls): Ghost<Seq<Seq<int>>>) -> (r: Vec<Vec<MerkleProof>>)
    requires
        layers.layer_code_words@.len() == nr,
        layers.layer_trees@.len() == nr,
        ls.len() >= nr,
        forall|j: int| 0 <= j < nr ==> values(#[trigger] layers.layer_code_words@[j]@) == ls[j],
        forall|j: int|
            0 <= j < nr ==> (#[trigger] layers.layer_trees@[j]).wf() && layers.layer_trees@[j].leaves()
                == ls[j],
        forall|j: int| 0 <= j < nr ==> 1 <= (#[trigger] ls[j]).len() <= 0x800_0000,
        forall|q: int| 0 <= q < indices@.len() ==> #[trigger] indices@[q] < 0x800_0000,
    ensures
        r@.len() == indices@.len() * nr,
        forall|q: int, j: int|
            0 <= q < indices@.len() && 0 <= j < nr ==> opens_query(
                #[trigger] query_entry(r@, nr as nat, q, j),
                ls[j],
                indices@[q] as nat,
            ),
{
    let nq = indices.len();
    let mut r: Vec<Vec<MerkleProof>> = Vec::new();
    let mut q: usize = 0;
    while q < nq
        invariant
            nq == indices@.len(),
            q <= nq,
            layers.layer_code_words@.len() == nr,
            layers.layer_trees@.len() == nr,
            ls.len() >= nr,
            forall|j: int| 0 <= j < nr ==> values(#[trigger] layers.layer_code_words@[j]@) == ls[j],
            forall|j: int|
                0 <= j < nr ==> (#[trigger] layers.layer_trees@[j]).wf()
                    && layers.layer_trees@[j].leaves() == ls[j],
            forall|j: int| 0 <= j < nr ==> 1 <= (#[trigger] ls[j]).len() <= 0x800_0000,
            forall|k: int| 0 <= k < indices@.len() ==> #[trigger] indices@[k] < 0x800_0000,
            r@.len() == q * nr,
            forall|i: int|
                0 <= i < r@.len() ==> opens_query(
                    #[trigger] r@[i]@,
                    ls[i % (nr as int)],
                    indices@[i / (nr as int)] as nat,
                ),
        decreases nq - q,
    {
        let qi = indices[q];
        let mut j: usize = 0;
        while j < nr
            invariant
                nq == indices@.len(),
                q < nq,
                j <= nr,
                qi == indices@[q as int],
                qi < 0x800_0000,
                layers.layer_code_words@.len() == nr,
                layers.layer_trees@.len() == nr,
                ls.len() >= nr,
                forall|k: int| 0 <= k < nr ==> values(#[trigger] layers.layer_code_words@[k]@) == ls[k],
                forall|k: int|
                    0 <= k < nr ==> (#[trigger] layers.layer_trees@[k]).wf()
                        && layers.layer_trees@[k].leaves() == ls[k],
                forall|k: int| 0 <= k < nr ==> 1 <= (#[trigger] ls[k]).len() <= 0x800_0000,
                r@.len() == q * nr + j,
                forall|i: int|
                    0 <= i < r@.len() ==> opens_query(
                        #[trigger] r@[i]@,
                        ls[i % (nr as int)],
                        indices@[i / (nr as int)] as nat,
                    ),
            decreases nr - j,
        {
            let layer = &layers.layer_code_words[j];
            let ghost lv = ls[j as int];
            assert(values(layer@) == lv);
            let size = layer.len();
            let index = qi % size;
            let index_sym = (qi + size / 2) % size;
            let p0 = layers.layer_trees[j].get_proof(layer[index], index as u64);
            let p1 = layers.layer_trees[j].get_proof(layer[index_sym], index_sym as u64);
            let mut pair: Vec<MerkleProof> = Vec::new();
            pair.push(p0);
            pair.push(p1);
            let ghost before = r@;
            proof {
                lemma_flat_index(q as int, j as int, nr as int, nq as int);
                assert(opens_query(pair@, lv, qi as nat));
            }
            r.push(pair);
            assert forall|i: int|
                0 <= i < r@.len() implies opens_query(
                #[trigger] r@[i]@,
                ls[i % (nr as int)],
                indices@[i / (nr as int)] as nat,
            ) by {
                if i < before.len() {
                    assert(r@[i] == before[i]);
                }
            }
            j = j + 1;
        }
        proof {
            assert((q + 1) * nr == q * nr + nr) by (nonlinear_arith);
        }
        q = q + 1;
    }
    assert forall|qq: int, jj: int|
        0 <= qq < indices@.len() && 0 <= jj < nr implies opens_query(
        #[trigger] query_entry(r@, nr as nat, qq, jj),
        ls[jj],
        indices@[qq] as nat,
    ) by {
        lemma_flat_index(qq, jj, nr as int, nq as int);
    }
    r
}

/// `log2` is monotonic.
pub proof fn lemma_log2_mono(a: nat, b: nat)
    requires
        a <= b,
    ensures
        log2(a) <= log2(b),
    decreases b,
{
    if a > 1 {
        lemma_log2_mono(a / 2, b / 2);
    }
}

/// The commit phase after `j` rounds holds `j + 1` codewords.
pub proof fn lemma_commit_phase_len(codeword: Seq<int>, log0: TranscriptLog, inv_domain: Seq<int>, j: nat)
    ensures
        commit_phase(codeword, log0, inv_domain, j).0.len() == j + 1,
    decreases j,
{
    if j > 0 {
        lemma_commit_phase_len(codeword, log0, inv_domain, (j - 1) as nat);
    }
}

/// The number of folding rounds from `size` down to `stopping_size`.
pub fn num_rounds(size: usize, stopping_size: usize) -> (r: usize)
    requires
        log2(stopping_size as nat) <= log2(size as nat),
    ensures
        r == log2(size as nat) - log2(stopping_size as nat),
{
    ilog2(size) - ilog2(stopping_size)
}

/// Two powers of two with the same logarithm are equal.
pub proof fn lemma_pow2_log2_injective(a: nat, b: nat)
    requires
        is_pow2(a),
        is_pow2(b),
        log2(a) == log2(b),
    ensures
        a == b,
    decreases a,
{
    crate::field::lemma_pow2_positive(a);
    crate::field::lemma_pow2_positive(b);
    if a > 1 && b > 1 {
        lemma_pow2_half(a);
        lemma_pow2_half(b);
        lemma_pow2_log2_injective(a / 2, b / 2);
    }
}

/// The two fold implementations agree. A round-`j` codeword `v` of a run
/// that started at length `size` folds to the same codeword with every
/// `2^j`-th entry of the inverse domain precomputed for `size` as with the
/// inverse powers computed afresh for `v`'s own domain (coset generator 1).
pub proof fn lemma_fold_agreement(v: Seq<int>, size: nat, j: nat, beta: int)
    requires
        is_pow2(size),
        size <= 0x800_0000,
        v.len() >= 2,
        v.len() * pow2(j) == size,
    ensures
        fold_spec(v, strided(inverse_domain(size), pow2(j), v.len() / 2), beta, finv(2)) == fold_spec(
            v,
            powers(finv(fmul(1, root_of_unity_spec(v.len()))), v.len() / 2),
            beta,
            finv(2),
        ),
{
    let n = v.len();
    let s = pow2(j);
    let e = (MODULUS - 1) as nat / size;
    let big = root_of_unity_spec(size);
    let small = root_of_unity_spec(n);
    lemma_root_exponent(size);
    assert((MODULUS - 1) as int == (e * s) * n) by (nonlinear_arith)
        requires
            e * size == MODULUS - 1,
            n * s == size,
    ;
    vstd::arithmetic::div_mod::lemma_fundamental_div_mod_converse(
        (MODULUS - 1) as int,
        n as int,
        (e * s) as int,
        0,
    );
    lemma_fpow_mul(GENERATOR as int, e, s);
    assert(small == fpow(big, s));
    lemma_fpow_range(GENERATOR as int, (e * s) as nat);
    lemma_fmul_one(small);
    let fresh = powers(finv(fmul(1, small)), n / 2);
    let table = strided(inverse_domain(size), s, n / 2);
    let p2 = (MODULUS - 2) as nat;
    assert forall|i: int| 0 <= i < n / 2 implies table[i] == fresh[i] by {
        assert(i * s < size / 2) by (nonlinear_arith)
            requires
                0 <= i < n / 2,
                n * s == size,
                s > 0,
        ;
        lemma_fpow_mul(big, p2, (i * s) as nat);
        lemma_fpow_mul(small, p2, i as nat);
        lemma_fpow_mul(big, s, (p2 * i) as nat);
        assert(p2 * (i * s) == s * (p2 * i)) by (nonlinear_arith);
    }
    assert(fold_spec(v, table, beta, finv(2)) =~= fold_spec(v, fresh, beta, finv(2)));
}

/// A power of two below another one is at most half of it.
pub proof fn lemma_pow2_le_half(a: nat, b: nat)
    requires
        is_pow2(a),
        is_pow2(b),
        a < b,
    ensures
        a <= b / 2,
    decreases a,
{
    crate::field::lemma_pow2_positive(a);
    lemma_pow2_half(b);
    if a > 1 {
        lemma_pow2_half(a);
        lemma_pow2_le_half(a / 2, b / 2);
    }
}

/// Folding a power-of-two `size` down to a power-of-two `stopping_size` takes
/// `log2(size) - log2(stopping_size)` halvings: `size` is `stopping_size`
/// times two to that many.
pub proof fn lemma_round_count(size: nat, stopping_size: nat)
    requires
        is_pow2(size),
        is_pow2(stopping_size),
        stopping_size <= size,
    ensures
        log2(stopping_size) <= log2(size),
        size == stopping_size * pow2((log2(size) - log2(stopping_size)) as nat),
    decreases size,
{
    crate::field::lemma_pow2_positive(size);
    crate::field::lemma_pow2_positive(stopping_size);
    lemma_log2_mono(stopping_size, size);
    if size == stopping_size {
        lemma_pow0(2);
        assert(pow2(0) == 1);
        assert(size == stopping_size * pow2(0));
    } else {
        lemma_pow2_half(size);
        lemma_pow2_le_half(stopping_size, size);
        lemma_round_count(size / 2, stopping_size);
        let r = (log2(size / 2) - log2(stopping_size)) as nat;
        lemma_pow2_unfold(r + 1);
        assert(size == stopping_size * pow2(r + 1)) by (nonlinear_arith)
            requires
                size == 2 * (size / 2),
                size / 2 == stopping_size * pow2(r),
                pow2(r + 1) == 2 * pow2(r),
        ;
        assert((log2(size) - log2(stopping_size)) as nat == r + 1);
    }
}

/// A power of two of positive logarithm is above one.
proof fn lemma_log2_positive(a: nat)
    requires
        is_pow2(a),
        log2(a) > 0,
    ensures
        a > 1,
{
    crate::field::lemma_pow2_positive(a);
}

/// Every `step`-th entry of `table`, `count` of them.
fn stride_table(table: &Vec<BabyBear>, step: usize, count: usize) -> (r: Vec<BabyBear>)
    requires
        count == 0 || (count - 1) * step < table@.len(),
    ensures
        r@.len() == count,
        values(r@) == strided(values(table@), step as nat, count as nat),
{
    let mut r: Vec<BabyBear> = Vec::new();
    let n = table.len();
    let mut i: usize = 0;
    while i < count
        invariant
            count == 0 || (count - 1) * step < table@.len(),
            table@.len() == n,
            i <= count,
            r@.len() == i,
            forall|k: int| 0 <= k < i ==> #[trigger] (k * step) < table@.len(),
            forall|k: int| 0 <= k < i ==> #[trigger] r@[k] == table@[k * step],
        decreases count - i,
    {
        assert(i * step <= (count - 1) * step) by (nonlinear_arith)
            requires
                i < count,
        ;
        let x = table[i * step];
        let ghost before = r@;
        r.push(x);
        assert forall|k: int| 0 <= k < i + 1 implies #[trigger] r@[k] == table@[k * step] by {
            if k < i {
                assert(r@[k] == before[k]);
            }
        }
        assert forall|k: int| 0 <= k < i + 1 implies #[trigger] (k * step) < table@.len() by {
            if k < i {
            } else {
                assert(k * step == i * step);
            }
        }
        i = i + 1;
    }
    assert(values(r@) =~= strided(values(table@), step as nat, count as nat));
    r
}

/// Proves that `code_word`, the evaluations of a polynomial over the subgroup
/// of its (power-of-two) length, is close to a low-degree polynomial. The
/// codeword is folded in half round after round until it has
/// `stopping_size` entries; each round's codeword is committed to in a Merkle
/// tree whose root is absorbed by `transcript` before the round's challenge is
/// drawn. Then a proof-of-work nonce is searched for, the query indices are
/// sampled from the transcript, and every round is opened at each index and
/// at its symmetric index.
pub fn prove(fri_config: Friconfig, transcript: &mut FriTranscript, code_word: Vec<BabyBear>) -> (r:
    Result<Friproof, FriError>)
    requires
        is_pow2(code_word@.len()),
        2 <= code_word@.len() <= 0x800_0000,
        is_pow2(fri_config.stopping_size as nat),
        fri_config.stopping_size <= code_word@.len(),
        fri_config.folding_factor == 2,
    ensures
        ({
            let size = code_word@.len();
            let nr = (log2(size) - log2(fri_config.stopping_size as nat)) as nat;
            let phase = commit_phase(
                values(code_word@),
                start_log(old(transcript)@, size),
                inverse_domain(size),
                nr,
            );
            let pow_log = phase.1.push(("challenge"@, None));
            let pow_challenge = challenge_value(pow_log);
            &&& (r is Err <==> forall|m: u64|
                m < u64::MAX ==> !pow_holds(pow_challenge, m, fri_config.pow_bits))
            &&& (r is Err ==> r == Err::<Friproof, FriError>(FriError::ProofOfWorkExhausted))
            &&& (r matches Ok(proof) ==> honest_proof(fri_config, values(code_word@), old(transcript)@, proof)
                && final(transcript)@ == proof_sample_log(pow_log, proof.pow_nonce))
        }),
{
    let size = code_word.len();
    let stop = fri_config.stopping_size;
    let rou = get_root_of_unity(size as u64);
    let rou_inv = rou.inv();
    let inv_domain = inverse_powers(rou_inv, size / 2);
    let two = BabyBear::from_u32(2);
    proof {
        vstd::arithmetic::div_mod::lemma_small_mod(2, modulus() as nat);
    }
    let two_inv = two.inv();
    proof {
        lemma_log2_mono(stop as nat, size as nat);
    }
    let nr = num_rounds(size, stop);
    let separator = domain_separator_bytes();
    transcript.fri_domain_sep(separator.as_slice(), size as u64, public_input());
    let ghost log0 = transcript@;
    let ghost cw0 = values(code_word@);
    let ghost dom = values(inv_domain@);
    assert(log0 == start_log(old(transcript)@, size as nat));
    assert(dom == inverse_domain(size as nat));
    let mut layers = Frilayerdata::new();
    let mut friproof = Friproof::new();
    let mut current = Current_layer::new();
    current.current_code_word = code_word;
    let mut step: usize = 1;
    let mut j: usize = 0;
    proof {
        lemma_pow0(2);
        lemma_commit_phase_len(cw0, log0, dom, 0);
    }
    while j < nr
        invariant
            size == cw0.len(),
            2 <= size <= 0x800_0000,
            is_pow2(size as nat),
            is_pow2(stop as nat),
            nr == log2(size as nat) - log2(stop as nat),
            j <= nr,
            dom == values(inv_domain@),
            inv_domain@.len() == size / 2,
            two_inv@ == finv(2),
            commit_phase(cw0, log0, dom, j as nat).0.len() == j + 1,
            transcript@ == commit_phase(cw0, log0, dom, j as nat).1,
            values(current.current_code_word@) == commit_phase(cw0, log0, dom, j as nat).0[j as int],
            layers.layer_code_words@.len() == j,
            layers.layer_trees@.len() == j,
            forall|k: int|
                0 <= k < j ==> values(#[trigger] layers.layer_code_words@[k]@) == commit_phase(
                    cw0,
                    log0,
                    dom,
                    j as nat,
                ).0[k],
            forall|k: int|
                0 <= k < j ==> (#[trigger] layers.layer_trees@[k]).wf()
                    && layers.layer_trees@[k].leaves() == commit_phase(cw0, log0, dom, j as nat).0[k],
            is_pow2(current.current_code_word@.len()),
            log2(current.current_code_word@.len()) + j == log2(size as nat),
            step == pow2(j as nat),
            step * current.current_code_word@.len() == size,
            j == 0 ==> friproof.final_poly@.len() == 0,
            j > 0 && j == nr ==> values(friproof.final_poly@) == commit_phase(cw0, log0, dom, j as nat).0[j as int],
            friproof.query_proofs@.len() == 0,
            forall|k: int|
                0 <= k <= j ==> 1 <= (#[trigger] commit_phase(cw0, log0, dom, j as nat).0[k]).len()
                    <= 0x800_0000,
        decreases nr - j,
    {
        let ghost cp = commit_phase(cw0, log0, dom, j as nat);
        let ghost len = current.current_code_word@.len();
        proof {
            lemma_log2_positive(len);
            lemma_pow2_half(len);
            lemma_commit_phase_len(cw0, log0, dom, (j + 1) as nat);
        }
        let cw_copy = copy_codeword(&current.current_code_word);
        layers.layer_code_words.push(cw_copy);
        let tree = current.commit();
        let root = tree.get_root();
        let root_scalar = BabyBear::from_bytes_le(root.as_slice());
        layers.layer_trees.push(tree);
        transcript.append_root("commit", &root_scalar);
        let beta = transcript.challenge_scalar("challenge");
        let half = current.current_code_word.len() / 2;
        proof {
            assert(step >= 1) by (nonlinear_arith)
                requires
                    step * len == size,
                    size >= 2,
            ;
            assert((half - 1) * step < size / 2 && 2 * step <= size) by (nonlinear_arith)
                requires
                    half >= 1,
                    step >= 1,
                    len == 2 * half,
                    step * len == size,
            ;
        }
        let mut table = stride_table(&inv_domain, step, half);
        let folded = current.fold_evals_precompute_domain(&mut table, &two_inv, beta);
        current.current_code_word = folded;
        let ghost next = commit_phase(cw0, log0, dom, (j + 1) as nat);
        assert(values(current.current_code_word@) == next.0[j + 1]);
        if current.current_code_word.len() == stop {
            friproof.final_poly = copy_codeword(&current.current_code_word);
        }
        proof {
            assert(step * 2 * half == size) by (nonlinear_arith)
                requires
                    step * len == size,
                    len == 2 * half,
            ;
            lemma_pow2_unfold((j + 1) as nat);
            if j + 1 == nr {
                lemma_pow2_log2_injective(current.current_code_word@.len(), stop as nat);
            }
            assert forall|k: int| 0 <= k < j + 1 implies values(
                #[trigger] layers.layer_code_words@[k]@,
            ) == next.0[k] by {
                assert(next.0[k] == cp.0[k]);
            }
            assert forall|k: int| 0 <= k < j + 1 implies (#[trigger] layers.layer_trees@[k]).wf()
                && layers.layer_trees@[k].leaves() == next.0[k] by {
                assert(next.0[k] == cp.0[k]);
            }
            assert forall|k: int| 0 <= k <= j + 1 implies 1 <= (#[trigger] next.0[k]).len() <= 0x800_0000 by {
                if k <= j {
                    assert(next.0[k] == cp.0[k]);
                }
            }
        }
        step = step * 2;
        j = j + 1;
    }
    let pow_challenge = transcript.challenge_scalar("challenge");
    let nonce = match proof_of_work(fri_config.pow_bits, pow_challenge) {
        Some(n) => n,
        None => {
            return Err(FriError::ProofOfWorkExhausted);
        },
    };
    transcript.add_nonce(nonce);
    friproof.pow_nonce = nonce;
    let sample = transcript.challenge_scalar("sample");
    let seed = sample.to_bytes_le();
    let query_indices = generate_samples_in_range(seed, fri_config.num_queries, size / 2);
    friproof.query_proofs = open_queries(&layers, &query_indices, nr, Ghost(commit_phase(cw0, log0, dom, nr as nat).0));
    Ok(friproof)
}

/// The transcript when the prover draws the sampling seed.
pub open spec fn proof_sample_log(pow_log: TranscriptLog, nonce: u64) -> TranscriptLog {
    pow_log.push(("pow_nonce"@, Some(le_bytes(nonce as nat, 8)))).push(("sample"@, None))
}

/// `proof` is what the prover makes for `codeword` from a transcript with
/// history `log` (with the nonce it found): the commit phase's layers, the
/// final layer, a nonce meeting the proof-of-work condition, and for every
/// sampled index and round the openings at the index and its symmetric
/// index. The nonce is the least one that meets the condition, so the proof is
/// a function of the codeword, the configuration and the history.
pub open spec fn honest_proof(c: Friconfig, codeword: Seq<int>, log: TranscriptLog, proof: Friproof) -> bool {
    let size = codeword.len();
    let nr = (log2(size) - log2(c.stopping_size as nat)) as nat;
    let phase = commit_phase(codeword, start_log(log, size), inverse_domain(size), nr);
    let pow_log = phase.1.push(("challenge"@, None));
    let indices = samples_spec(
        le_bytes(challenge_value(proof_sample_log(pow_log, proof.pow_nonce)) as nat, 4),
        c.num_queries as nat,
        size / 2,
    );
    &&& pow_holds(challenge_value(pow_log), proof.pow_nonce, c.pow_bits)
    &&& forall|m: u64| m < proof.pow_nonce ==> !pow_holds(challenge_value(pow_log), m, c.pow_bits)
    &&& forall|q: int| 0 <= q < c.num_queries ==> #[trigger] indices[q] < size / 2
    &&& (nr > 0 ==> values(proof.final_poly@) == phase.0[nr as int])
    &&& (nr == 0 ==> proof.final_poly@.len() == 0)
    &&& proof.query_proofs@.len() == c.num_queries * nr
    &&& forall|q: int, j: int|
        0 <= q < c.num_queries && 0 <= j < nr ==> opens_query(
            #[trigger] query_entry(proof.query_proofs@, nr, q, j),
            phase.0[j],
            indices[q] as nat,
        )
}

/// A copy of a codeword.
fn copy_codeword(v: &Vec<BabyBear>) -> (r: Vec<BabyBear>)
    ensures
        r@ == v@,
{
    let mut r: Vec<BabyBear> = Vec::new();
    for i in 0..v.len()
        invariant
            r@ == v@.take(i as int),
    {
        r.push(v[i]);
        assert(r@ =~= v@.take(i + 1));
    }
    assert(r@ =~= v@);
    r
}

} // verus!
