//! Binary Merkle trees over codewords: one BLAKE2s leaf digest per field
//! element, and `H(left || right)` for each inner node.

use crate::field::{is_pow2, log2, BabyBear};
use crate::fold::{values, Current_layer};
use crate::hash::{blake2s, blake2s_of, le_bytes};
use vstd::prelude::*;

verus! {

/// The digest of a leaf holding the field element `x`.
pub open spec fn leaf_digest(x: int) -> Seq<u8> {
    blake2s_of(le_bytes(x as nat, 4))
}

/// The digest of an inner node.
pub open spec fn node_digest(left: Seq<u8>, right: Seq<u8>) -> Seq<u8> {
    blake2s_of(left + right)
}

/// Level `k` of the tree over `leaves` (level 0 holds the leaf digests).
pub open spec fn tree_level(leaves: Seq<int>, k: nat) -> Seq<Seq<u8>>
    decreases k,
{
    if k == 0 {
        leaves.map_values(|x: int| leaf_digest(x))
    } else {
        let below = tree_level(leaves, (k - 1) as nat);
        Seq::new(below.len() / 2, |i: int| node_digest(below[2 * i], below[2 * i + 1]))
    }
}

/// The root of the tree over `leaves`.
pub open spec fn merkle_root(leaves: Seq<int>) -> Seq<u8> {
    tree_level(leaves, log2(leaves.len()))[0]
}

/// The other child of the parent of node `j`.
pub open spec fn sibling(j: nat) -> nat {
    if j % 2 == 0 {
        j + 1
    } else {
        (j - 1) as nat
    }
}

/// The siblings met on the way from node `j` of level `k` up to level `h`.
pub open spec fn auth_path_from(leaves: Seq<int>, k: nat, j: nat, h: nat) -> Seq<Seq<u8>>
    decreases h - k,
{
    if k >= h {
        Seq::empty()
    } else {
        seq![tree_level(leaves, k)[sibling(j) as int]] + auth_path_from(
            leaves,
            k + 1,
            j / 2,
            h,
        )
    }
}

/// The authentication path of leaf `index`.
pub open spec fn auth_path(leaves: Seq<int>, index: nat) -> Seq<Seq<u8>> {
    auth_path_from(leaves, 0, index, log2(leaves.len()))
}

/// The digest reached from `d` at position `j` by hashing in the siblings of `path`.
pub open spec fn climb(d: Seq<u8>, j: nat, path: Seq<Seq<u8>>) -> Seq<u8>
    decreases path.len(),
{
    if path.len() == 0 {
        d
    } else {
        let up = if j % 2 == 0 {
            node_digest(d, path[0])
        } else {
            node_digest(path[0], d)
        };
        climb(up, j / 2, path.drop_first())
    }
}

/// `j` with its `n` low bits shifted out.
pub open spec fn shift(j: nat, n: nat) -> nat
    decreases n,
{
    if n == 0 {
        j
    } else {
        shift(j / 2, (n - 1) as nat)
    }
}

/// An opening of one leaf: the root it claims, the leaf, its index and the sibling digests.
#[derive(Clone, Debug)]
pub struct MerkleProof {
    pub root: Vec<u8>,
    pub leaf: BabyBear,
    pub leaf_index: u64,
    pub path: Vec<Vec<u8>>,
}

/// The digests of a sequence of digests.
pub open spec fn digests(v: Seq<Vec<u8>>) -> Seq<Seq<u8>> {
    v.map_values(|d: Vec<u8>| d@)
}

/// The proof authenticates its leaf against its root in a tree of height `tree_height`.
pub open spec fn path_accepts(proof: MerkleProof, tree_height: nat) -> bool {
    &&& proof.path@.len() == tree_height
    &&& shift(proof.leaf_index as nat, tree_height) == 0
    &&& climb(leaf_digest(proof.leaf@), proof.leaf_index as nat, digests(proof.path@))
        == proof.root@
}

/// A Merkle tree, stored level by level from the leaf digests up to the root.
pub struct MerkleTree {
    levels: Vec<Vec<Vec<u8>>>,
    leaves: Ghost<Seq<int>>,
}

impl MerkleTree {
    /// The leaf values the tree was built over.
    pub closed spec fn leaves(&self) -> Seq<int> {
        self.leaves@
    }

    /// The tree holds every level of the tree over its leaves, whose number
    /// is a power of two.
    pub closed spec fn wf(&self) -> bool {
        &&& is_pow2(self.leaves@.len())
        &&& self.levels@.len() == log2(self.leaves@.len()) + 1
        &&& forall|k: int|
            0 <= k <= log2(self.leaves@.len()) ==> #[trigger] digests(self.levels@[k]@)
                == tree_level(self.leaves@, k as nat)
        &&& forall|k: int, i: int|
            0 <= k < self.levels@.len() && 0 <= i < self.levels@[k]@.len()
                ==> (#[trigger] self.levels@[k]@[i])@.len() == 32
    }

    /// The root digest.
    pub fn get_root(&self) -> (r: Vec<u8>)
        requires
            self.wf(),
        ensures
            r@ == merkle_root(self.leaves()),
            r@.len() == 32,
    {
        let top = self.levels.len() - 1;
        proof {
            lemma_level_len(self.leaves@, log2(self.leaves@.len()));
            crate::field::lemma_pow2_positive(tree_level(self.leaves@, log2(self.leaves@.len())).len());
            assert(digests(self.levels@[top as int]@)[0] == self.levels@[top as int]@[0]@);
        }
        copy_bytes(&self.levels[top][0])
    }

    /// Opens leaf `index`, whose value is `leaf`.
    pub fn get_proof(&self, leaf: BabyBear, index: u64) -> (r: MerkleProof)
        requires
            self.wf(),
            index < self.leaves().len(),
            leaf@ == self.leaves()[index as int],
        ensures
            r.root@ == merkle_root(self.leaves()),
            r.leaf == leaf,
            r.leaf_index == index,
            digests(r.path@) == auth_path(self.leaves(), index as nat),
    {
        let ghost leaves = self.leaves@;
        let ghost h = log2(leaves.len());
        let top = self.levels.len() - 1;
        let mut path: Vec<Vec<u8>> = Vec::new();
        proof {
            lemma_level_len(leaves, 0);
            assert(digests(self.levels@[0]@) == tree_level(leaves, 0));
            assert(self.levels@[0]@.len() == leaves.len());
            assert(digests(path@) + auth_path_from(leaves, 0, index as nat, h) =~= auth_path_from(
                leaves,
                0,
                index as nat,
                h,
            ));
        }
        let n0 = self.levels[0].len();
        assert(index < n0);
        let mut j: usize = index as usize;
        let mut k: usize = 0;
        while k < top
            invariant
                self.wf(),
                leaves == self.leaves@,
                h == log2(leaves.len()),
                top == h,
                k <= top,
                j < tree_level(leaves, k as nat).len(),
                is_pow2(tree_level(leaves, k as nat).len()),
                log2(tree_level(leaves, k as nat).len()) + k == h,
                digests(path@) + auth_path_from(leaves, k as nat, j as nat, h) == auth_path_from(
                    leaves,
                    0,
                    index as nat,
                    h,
                ),
            decreases top - k,
        {
            let ghost level = tree_level(leaves, k as nat);
            proof {
                lemma_pow2_half(level.len());
                lemma_level_len(leaves, (k + 1) as nat);
                assert(digests(self.levels@[k as int]@) == level);
            }
            let sib: usize = if j % 2 == 0 {
                j + 1
            } else {
                j - 1
            };
            let d = copy_bytes(&self.levels[k][sib]);
            let ghost old_path = digests(path@);
            path.push(d);
            proof {
                assert(digests(path@) =~= old_path.push(level[sib as int]));
                assert(auth_path_from(leaves, k as nat, j as nat, h) =~= seq![level[sib as int]]
                    + auth_path_from(leaves, (k + 1) as nat, (j / 2) as nat, h));
                assert(digests(path@) + auth_path_from(leaves, (k + 1) as nat, (j / 2) as nat, h)
                    =~= old_path + auth_path_from(leaves, k as nat, j as nat, h));
            }
            j = j / 2;
            k = k + 1;
        }
        proof {
            assert(auth_path_from(leaves, k as nat, j as nat, h) =~= Seq::<Seq<u8>>::empty());
            assert(digests(path@) =~= digests(path@) + auth_path_from(leaves, k as nat, j as nat, h));
        }
        let root = self.get_root();
        MerkleProof { root, leaf, leaf_index: index, path }
    }
}

impl Current_layer {
    /// Commits to the codeword, whose length is a power of two: builds the
    /// Merkle tree over its elements.
    pub fn commit(&mut self) -> (r: MerkleTree)
        requires
            is_pow2(old(self).current_code_word@.len()),
        ensures
            *final(self) == *old(self),
            r.wf(),
            r.leaves() == values(old(self).current_code_word@),
    {
        let v = &self.current_code_word;
        let ghost leaves = values(v@);
        let mut level: Vec<Vec<u8>> = Vec::new();
        for i in 0..v.len()
            invariant
                leaves == values(v@),
                digests(level@) == tree_level(leaves, 0).take(i as int),
                forall|m: int| 0 <= m < level@.len() ==> (#[trigger] level@[m])@.len() == 32,
        {
            let bytes = v[i].to_bytes_le();
            let d = blake2s(bytes.as_slice());
            let ghost before = digests(level@);
            proof {
                assert(tree_level(leaves, 0)[i as int] == leaf_digest(leaves[i as int]));
            }
            level.push(d);
            assert(digests(level@) =~= before.push(d@));
            assert(digests(level@) =~= tree_level(leaves, 0).take(i + 1));
        }
        assert(digests(level@) =~= tree_level(leaves, 0));
        let mut levels: Vec<Vec<Vec<u8>>> = Vec::new();
        levels.push(level);
        let mut k: usize = 0;
        proof {
            lemma_level_len(leaves, 0);
        }
        while levels[k].len() > 1
            invariant
                is_pow2(leaves.len()),
                leaves.len() <= usize::MAX,
                levels@.len() == k + 1,
                forall|m: int| 0 <= m <= k ==> #[trigger] digests(levels@[m]@) == tree_level(leaves, m as nat),
                forall|m: int, i: int|
                    0 <= m < levels@.len() && 0 <= i < levels@[m]@.len() ==> (#[trigger] levels@[m]@[i])@.len()
                        == 32,
                is_pow2(tree_level(leaves, k as nat).len()),
                log2(tree_level(leaves, k as nat).len()) + k == log2(leaves.len()),
            decreases log2(leaves.len()) - k,
        {
            let ghost below = tree_level(leaves, k as nat);
            proof {
                assert(digests(levels@[k as int]@) == below);
                lemma_pow2_half(below.len());
                lemma_log2_le(leaves.len());
            }
            let cur = &levels[k];
            let half = cur.len() / 2;
            let mut next: Vec<Vec<u8>> = Vec::new();
            for i in 0..half
                invariant
                    below == tree_level(leaves, k as nat),
                    half == below.len() / 2,
                    cur@.len() == 2 * half,
                    2 * half <= usize::MAX,
                    digests(cur@) == below,
                    digests(next@) == tree_level(leaves, (k + 1) as nat).take(i as int),
                    forall|m: int| 0 <= m < next@.len() ==> (#[trigger] next@[m])@.len() == 32,
            {
                let d = hash_pair(&cur[2 * i], &cur[2 * i + 1]);
                let ghost before = digests(next@);
                proof {
                    assert(cur@[2 * i as int]@ == below[2 * i as int]);
                    assert(cur@[2 * i + 1 as int]@ == below[2 * i + 1 as int]);
                    assert(tree_level(leaves, (k + 1) as nat)[i as int] == node_digest(
                        below[2 * i as int],
                        below[2 * i + 1 as int],
                    ));
                }
                next.push(d);
                assert(digests(next@) =~= before.push(d@));
                assert(digests(next@) =~= tree_level(leaves, (k + 1) as nat).take(i + 1));
            }
            assert(digests(next@) =~= tree_level(leaves, (k + 1) as nat));
            levels.push(next);
            k = k + 1;
            proof {
                assert(digests(levels@[k as int]@) == tree_level(leaves, k as nat));
            }
        }
        proof {
            assert(digests(levels@[k as int]@) == tree_level(leaves, k as nat));
        }
        MerkleTree { levels, leaves: Ghost(leaves) }
    }

    /// Opens position `query_index` of the codeword in its tree `layer_tree`.
    pub fn layer_query(&mut self, query_index: u64, layer_tree: &MerkleTree) -> (r: MerkleProof)
        requires
            layer_tree.wf(),
            layer_tree.leaves() == values(old(self).current_code_word@),
            query_index < old(self).current_code_word@.len(),
        ensures
            *final(self) == *old(self),
            r.root@ == merkle_root(values(old(self).current_code_word@)),
            r.leaf == old(self).current_code_word@[query_index as int],
            r.leaf_index == query_index,
            digests(r.path@) == auth_path(values(old(self).current_code_word@), query_index as nat),
    {
        let n = self.current_code_word.len();
        assert(query_index < n);
        let leaf = self.current_code_word[query_index as usize];
        layer_tree.get_proof(leaf, query_index)
    }

    /// Checks an opening against a tree of the height that this codeword's
    /// tree has.
    pub fn test_verify_path(&mut self, layer_query_proof: MerkleProof) -> (r: bool)
        ensures
            *final(self) == *old(self),
            r == path_accepts(layer_query_proof, log2(old(self).current_code_word@.len())),
    {
        let height = ilog2(self.current_code_word.len());
        verify_merkle_path(&layer_query_proof, height)
    }
}

/// `log2(n)`, rounded down (0 for 0).
pub fn ilog2(n: usize) -> (r: usize)
    ensures
        r == log2(n as nat),
{
    let mut m = n;
    let mut r: usize = 0;
    proof {
        lemma_log2_le(n as nat);
    }
    while m > 1
        invariant
            r + log2(m as nat) == log2(n as nat),
            log2(n as nat) <= n,
        decreases m,
    {
        m = m / 2;
        r = r + 1;
    }
    r
}

/// Checks that `proof` authenticates its leaf at its index against its root,
/// in a tree of height `tree_height`.
pub fn verify_merkle_path(proof: &MerkleProof, tree_height: usize) -> (r: bool)
    ensures
        r == path_accepts(*proof, tree_height as nat),
        r ==> proof.root@.len() == 32,
{
    if proof.path.len() != tree_height {
        return false;
    }
    let ghost path = digests(proof.path@);
    let ghost start = leaf_digest(proof.leaf@);
    let bytes = proof.leaf.to_bytes_le();
    let mut cur = blake2s(bytes.as_slice());
    let mut j: u64 = proof.leaf_index;
    let mut k: usize = 0;
    assert(path.skip(0) =~= path);
    while k < proof.path.len()
        invariant
            path == digests(proof.path@),
            k <= path.len(),
            climb(cur@, j as nat, path.skip(k as int)) == climb(start, proof.leaf_index as nat, path),
            cur@.len() == 32,
            shift(j as nat, (path.len() - k) as nat) == shift(proof.leaf_index as nat, path.len()),
        decreases path.len() - k,
    {
        assert(path.skip(k as int).drop_first() =~= path.skip(k + 1));
        if j % 2 == 0 {
            cur = hash_pair(&cur, &proof.path[k]);
        } else {
            cur = hash_pair(&proof.path[k], &cur);
        }
        j = j / 2;
        k = k + 1;
    }
    assert(path.skip(k as int) =~= Seq::<Seq<u8>>::empty());
    j == 0 && bytes_eq(&cur, &proof.root)
}

/// Byte-string equality.
pub fn bytes_eq(a: &Vec<u8>, b: &Vec<u8>) -> (r: bool)
    ensures
        r == (a@ == b@),
{
    if a.len() != b.len() {
        return false;
    }
    for i in 0..a.len()
        invariant
            a@.len() == b@.len(),
            a@.take(i as int) == b@.take(i as int),
    {
        if a[i] != b[i] {
            return false;
        }
        assert(a@.take(i + 1) =~= a@.take(i as int).push(a@[i as int]));
        assert(b@.take(i + 1) =~= b@.take(i as int).push(b@[i as int]));
    }
    assert(a@ =~= a@.take(a@.len() as int));
    assert(b@ =~= b@.take(b@.len() as int));
    true
}

/// `log2(n) <= n`.
pub proof fn lemma_log2_le(n: nat)
    ensures
        log2(n) <= n,
    decreases n,
{
    if n > 1 {
        lemma_log2_le(n / 2);
    }
}

/// A copy of a byte string.
fn copy_bytes(b: &Vec<u8>) -> (r: Vec<u8>)
    ensures
        r@ == b@,
{
    let mut r: Vec<u8> = Vec::new();
    for i in 0..b.len()
        invariant
            r@ == b@.take(i as int),
    {
        r.push(b[i]);
        assert(r@ =~= b@.take(i + 1));
    }
    assert(r@ =~= b@);
    r
}

/// `H(left || right)` for two digests.
fn hash_pair(left: &Vec<u8>, right: &Vec<u8>) -> (r: Vec<u8>)
    ensures
        r@ == node_digest(left@, right@),
        r@.len() == 32,
{
    let mut buf = copy_bytes(left);
    for i in 0..right.len()
        invariant
            buf@ == left@ + right@.take(i as int),
    {
        buf.push(right[i]);
        assert(buf@ =~= left@ + right@.take(i + 1));
    }
    assert(buf@ =~= left@ + right@);
    blake2s(buf.as_slice())
}

/// A power of two above one is even, and its half is a power of two one
/// logarithm lower.
pub proof fn lemma_pow2_half(n: nat)
    requires
        is_pow2(n),
        n > 1,
    ensures
        n % 2 == 0,
        is_pow2(n / 2),
        log2(n) == log2(n / 2) + 1,
{
}

/// Level `k` of a tree over `2^h` leaves has `2^(h - k)` nodes.
pub proof fn lemma_level_len(leaves: Seq<int>, k: nat)
    requires
        is_pow2(leaves.len()),
        k <= log2(leaves.len()),
    ensures
        is_pow2(tree_level(leaves, k).len()),
        log2(tree_level(leaves, k).len()) + k == log2(leaves.len()),
    decreases k,
{
    if k > 0 {
        lemma_level_len(leaves, (k - 1) as nat);
        let below = tree_level(leaves, (k - 1) as nat);
        if below.len() <= 1 {
            crate::field::lemma_pow2_positive(below.len());
        } else {
            lemma_pow2_half(below.len());
        }
    }
}

/// Honest openings verify: climbing from node `j` of level `k` with the
/// siblings of `auth_path_from` reaches the root.
pub proof fn lemma_climb_from(leaves: Seq<int>, k: nat, j: nat)
    requires
        is_pow2(leaves.len()),
        k <= log2(leaves.len()),
        j < tree_level(leaves, k).len(),
    ensures
        climb(tree_level(leaves, k)[j as int], j, auth_path_from(leaves, k, j, log2(leaves.len())))
            == merkle_root(leaves),
        shift(j, (log2(leaves.len()) - k) as nat) == 0,
    decreases log2(leaves.len()) - k,
{
    let h = log2(leaves.len());
    lemma_level_len(leaves, k);
    let level = tree_level(leaves, k);
    if k == h {
        crate::field::lemma_pow2_positive(level.len());
        assert(auth_path_from(leaves, k, j, h) =~= Seq::<Seq<u8>>::empty());
    } else {
        lemma_pow2_half(level.len());
        let path = auth_path_from(leaves, k, j, h);
        assert(path.drop_first() =~= auth_path_from(leaves, k + 1, j / 2, h));
        let up = tree_level(leaves, k + 1);
        assert(up[(j / 2) as int] == node_digest(level[2 * (j / 2) as int], level[2 * (j / 2) + 1 as int]));
        lemma_climb_from(leaves, k + 1, j / 2);
    }
}

/// An opening made from the tree over `leaves` at a valid index is accepted.
pub proof fn lemma_opening_accepted(leaves: Seq<int>, index: nat)
    requires
        is_pow2(leaves.len()),
        index < leaves.len(),
    ensures
        climb(leaf_digest(leaves[index as int]), index, auth_path(leaves, index)) == merkle_root(leaves),
        shift(index, log2(leaves.len())) == 0,
        auth_path(leaves, index).len() == log2(leaves.len()),
{
    lemma_climb_from(leaves, 0, index);
    lemma_auth_path_len(leaves, 0, index, log2(leaves.len()));
}

proof fn lemma_auth_path_len(leaves: Seq<int>, k: nat, j: nat, h: nat)
    requires
        k <= h,
    ensures
        auth_path_from(leaves, k, j, h).len() == h - k,
    decreases h - k,
{
    if k < h {
        lemma_auth_path_len(leaves, k + 1, j / 2, h);
    }
}

} // verus!
