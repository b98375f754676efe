//! One round of FRI folding: a codeword of length `n` over a multiplicative
//! domain becomes a codeword of length `n / 2` over the squared domain.

use crate::field::{
    fadd, finv, fmul, fpow, fsub, get_root_of_unity, is_pow2, lemma_fmul_comm, modulus,
    root_of_unity_spec, BabyBear,
};
use vstd::arithmetic::div_mod::{
    lemma_add_mod_noop, lemma_mod_twice, lemma_mul_mod_noop_left, lemma_sub_mod_noop,
};
use vstd::prelude::*;

verus! {

/// The values of a sequence of field elements.
pub open spec fn values(v: Seq<BabyBear>) -> Seq<int> {
    v.map_values(|x: BabyBear| x@)
}

/// One folded value from the pair `f(x) = a`, `f(-x) = b`, where `w_inv = 1 / x`:
/// `(a + b) / 2 + beta * (a - b) / (2x)`.
pub open spec fn fold_value(a: int, b: int, w_inv: int, beta: int, two_inv: int) -> int {
    fadd(fmul(two_inv, fadd(a, b)), fmul(beta, fmul(w_inv, fmul(two_inv, fsub(a, b)))))
}

/// The folded codeword: entry `i` combines `v[i]` and `v[i + n/2]` with `table[i]`.
pub open spec fn fold_spec(v: Seq<int>, table: Seq<int>, beta: int, two_inv: int) -> Seq<int> {
    Seq::new(
        v.len() / 2,
        |i: int| fold_value(v[i], v[i + v.len() / 2], table[i], beta, two_inv),
    )
}

/// The first `n` powers `1, c, c^2, ...` of `c`.
pub open spec fn powers(c: int, n: nat) -> Seq<int> {
    Seq::new(n, |i: int| fpow(c, i as nat))
}

/// One folded value is linear in the challenge.
pub proof fn lemma_fold_value_linear(a: int, b: int, w_inv: int, beta1: int, beta2: int, two_inv: int)
    ensures
        fsub(
            fadd(fold_value(a, b, w_inv, beta1, two_inv), fold_value(a, b, w_inv, beta2, two_inv)),
            fold_value(a, b, w_inv, 0, two_inv),
        ) == fold_value(a, b, w_inv, fadd(beta1, beta2), two_inv),
{
    let m = modulus();
    let e = fmul(two_inv, fadd(a, b));
    let o = fmul(w_inv, fmul(two_inv, fsub(a, b)));
    let s1 = e + beta1 * o;
    let s2 = e + beta2 * o;
    lemma_mod_twice(two_inv * fadd(a, b), m);
    assert(e % m == e);
    lemma_add_mod_noop(e, beta1 * o, m);
    lemma_add_mod_noop(e, beta2 * o, m);
    assert(fold_value(a, b, w_inv, beta1, two_inv) == s1 % m);
    assert(fold_value(a, b, w_inv, beta2, two_inv) == s2 % m);
    assert(0 * o == 0);
    assert(fold_value(a, b, w_inv, 0, two_inv) == e);
    lemma_add_mod_noop(s1, s2, m);
    lemma_sub_mod_noop(s1 + s2, e, m);
    assert(s1 + s2 - e == e + (beta1 + beta2) * o) by (nonlinear_arith)
        requires
            s1 == e + beta1 * o,
            s2 == e + beta2 * o,
    ;
    lemma_mul_mod_noop_left(beta1 + beta2, o, m);
    lemma_add_mod_noop(e, (beta1 + beta2) * o, m);
}

/// Folding is linear in the challenge: entry by entry,
/// `fold(v, b1) + fold(v, b2) - fold(v, 0) == fold(v, b1 + b2)`.
pub proof fn lemma_fold_linear(v: Seq<int>, table: Seq<int>, beta1: int, beta2: int, two_inv: int)
    ensures
        forall|i: int|
            0 <= i < v.len() / 2 ==> fsub(
                fadd(
                    #[trigger] fold_spec(v, table, beta1, two_inv)[i],
                    fold_spec(v, table, beta2, two_inv)[i],
                ),
                fold_spec(v, table, 0, two_inv)[i],
            ) == fold_spec(v, table, fadd(beta1, beta2), two_inv)[i],
{
    assert forall|i: int| 0 <= i < v.len() / 2 implies fsub(
        fadd(
            #[trigger] fold_spec(v, table, beta1, two_inv)[i],
            fold_spec(v, table, beta2, two_inv)[i],
        ),
        fold_spec(v, table, 0, two_inv)[i],
    ) == fold_spec(v, table, fadd(beta1, beta2), two_inv)[i] by {
        lemma_fold_value_linear(v[i], v[i + v.len() / 2], table[i], beta1, beta2, two_inv);
    }
}

/// The codeword of one FRI round.
#[allow(non_camel_case_types)]
pub struct Current_layer {
    pub current_code_word: Vec<BabyBear>,
}

impl Current_layer {
    pub fn new() -> (r: Self)
        ensures
            r.current_code_word@.len() == 0,
    {
        Current_layer { current_code_word: Vec::new() }
    }

    /// Folds the codeword with the challenge `alpha`, reading the inverse
    /// domain points from `inv_domain` (one per pair) and `1/2` from `two_inv`.
    pub fn fold_evals_precompute_domain(
        &mut self,
        inv_domain: &mut Vec<BabyBear>,
        two_inv: &BabyBear,
        alpha: BabyBear,
    ) -> (r: Vec<BabyBear>)
        requires
            old(self).current_code_word@.len() % 2 == 0,
            old(inv_domain)@.len() == old(self).current_code_word@.len() / 2,
        ensures
            *final(self) == *old(self),
            *final(inv_domain) == *old(inv_domain),
            values(r@) == fold_spec(
                values(old(self).current_code_word@),
                values(old(inv_domain)@),
                alpha@,
                two_inv@,
            ),
    {
        let v = &self.current_code_word;
        let half = v.len() / 2;
        let mut res: Vec<BabyBear> = Vec::new();
        for i in 0..half
            invariant
                v@.len() == 2 * half,
                v@.len() <= usize::MAX,
                inv_domain@.len() == half,
                res@.len() == i,
                forall|k: int|
                    0 <= k < i ==> #[trigger] res@[k]@ == fold_value(
                        v@[k]@,
                        v@[k + half]@,
                        inv_domain@[k]@,
                        alpha@,
                        two_inv@,
                    ),
        {
            let even = v[i].add(v[i + half]);
            let odd = v[i].sub(v[i + half]);
            let t_even = two_inv.mul(even);
            let t_odd = two_inv.mul(odd);
            let t_odd1 = inv_domain[i].mul(t_odd);
            let t_odd2 = alpha.mul(t_odd1);
            res.push(t_even.add(t_odd2));
        }
        let ghost f = fold_spec(values(v@), values(inv_domain@), alpha@, two_inv@);
        assert(values(res@) =~= f);
        res
    }

    /// Folds the codeword, of power-of-two length at most `2^27`, over the
    /// coset `coset_gen * <w>` where `w` generates the subgroup of that order:
    /// entry `i` uses `(coset_gen * w)^(-i)`.
    pub fn fold_evals(&mut self, coset_gen: BabyBear, alpha: BabyBear) -> (r: Vec<BabyBear>)
        requires
            is_pow2(old(self).current_code_word@.len()),
            2 <= old(self).current_code_word@.len() <= 0x800_0000,
        ensures
            *final(self) == *old(self),
            values(r@) == fold_spec(
                values(old(self).current_code_word@),
                powers(
                    finv(fmul(coset_gen@, root_of_unity_spec(old(self).current_code_word@.len()))),
                    old(self).current_code_word@.len() / 2,
                ),
                alpha@,
                finv(2),
            ),
    {
        let len = self.current_code_word.len();
        let rou = get_root_of_unity(len as u64);
        let step = coset_gen.mul(rou).inv();
        let mut table = inverse_powers(step, len / 2);
        let two_inv = BabyBear::from_u32(2).inv();
        proof {
            assert(len % 2 == 0);
        }
        let r = self.fold_evals_precompute_domain(&mut table, &two_inv, alpha);
        proof {
            assert(values(table@) =~= powers(step@, (len / 2) as nat));
        }
        r
    }
}

impl Default for Current_layer {
    fn default() -> (r: Self)
        ensures
            r.current_code_word@.len() == 0,
    {
        Self::new()
    }
}

/// The first `n` powers `1, c, c^2, ...` of `c`.
pub fn inverse_powers(c: BabyBear, n: usize) -> (r: Vec<BabyBear>)
    ensures
        r@.len() == n,
        values(r@) == powers(c@, n as nat),
{
    let mut r: Vec<BabyBear> = Vec::new();
    let mut current = BabyBear::one();
    for i in 0..n
        invariant
            r@.len() == i,
            current@ == fpow(c@, i as nat),
            forall|k: int| 0 <= k < i ==> #[trigger] r@[k]@ == fpow(c@, k as nat),
    {
        r.push(current);
        proof {
            lemma_fmul_comm(current@, c@);
        }
        current = current.mul(c);
    }
    assert(values(r@) =~= powers(c@, n as nat));
    r
}

} // verus!
