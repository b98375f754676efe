//! Codewords from coefficient form: a polynomial evaluated over the
//! multiplicative subgroup of a power-of-two order.

use crate::field::{
    fadd, finv, fmul, fpow, fsub, get_root_of_unity, is_pow2, lemma_fmul_comm, modulus,
    root_of_unity_spec, BabyBear, MODULUS,
};
use vstd::arithmetic::div_mod::{
    lemma_add_mod_noop, lemma_add_mod_noop_right, lemma_mod_bound, lemma_mod_multiples_vanish,
    lemma_mod_twice, lemma_mul_mod_noop_left, lemma_mul_mod_noop_right, lemma_small_mod,
    lemma_sub_mod_noop_right,
};
use crate::fold::values;
use vstd::prelude::*;

verus! {

/// The polynomial with coefficients `c` (lowest degree first) evaluated at `x`.
pub open spec fn poly_eval(c: Seq<int>, x: int) -> int
    decreases c.len(),
{
    if c.len() == 0 {
        0
    } else {
        fadd(c[0], fmul(x, poly_eval(c.drop_first(), x)))
    }
}

/// The even-indexed coefficients.
pub open spec fn evens(c: Seq<int>) -> Seq<int> {
    Seq::new(((c.len() + 1) / 2) as nat, |k: int| c[2 * k])
}

/// The odd-indexed coefficients.
pub open spec fn odds(c: Seq<int>) -> Seq<int> {
    Seq::new(c.len() / 2, |k: int| c[2 * k + 1])
}

/// `(a + (b * c) % p) % p == (a + b * c) % p`.
proof fn lemma_fadd_fmul(a: int, b: int, c: int)
    ensures
        fadd(a, fmul(b, c)) == (a + b * c) % modulus(),
{
    lemma_add_mod_noop_right(a, b * c, modulus());
}

/// An evaluation lies in `[0, p)`.
proof fn lemma_poly_eval_range(c: Seq<int>, x: int)
    ensures
        0 <= poly_eval(c, x) < modulus(),
{
    if c.len() > 0 {
        lemma_mod_bound(c[0] + fmul(x, poly_eval(c.drop_first(), x)), modulus());
    }
}

/// `f(x) == f_even(x^2) + x * f_odd(x^2)`.
pub proof fn lemma_even_odd_split(c: Seq<int>, x: int)
    ensures
        poly_eval(c, x) == fadd(
            poly_eval(evens(c), fmul(x, x)),
            fmul(x, poly_eval(odds(c), fmul(x, x))),
        ),
    decreases c.len(),
{
    let m = modulus();
    let y = fmul(x, x);
    if c.len() == 0 {
        assert(evens(c).len() == 0);
        assert(odds(c).len() == 0);
        assert(fmul(x, 0) == 0);
        assert(poly_eval(c, x) == fadd(poly_eval(evens(c), y), fmul(x, poly_eval(odds(c), y))));
    } else if c.len() == 1 {
        assert(odds(c).len() == 0);
        assert(evens(c).drop_first().len() == 0);
        assert(c.drop_first().len() == 0);
        assert(fmul(x, 0) == 0);
        assert(fmul(y, 0) == 0);
        assert(evens(c)[0] == c[0]);
        assert(poly_eval(evens(c).drop_first(), y) == 0);
        assert(poly_eval(c.drop_first(), x) == 0);
        lemma_mod_twice(c[0], m);
        assert(poly_eval(c, x) == fadd(poly_eval(evens(c), y), fmul(x, poly_eval(odds(c), y))));
    } else {
        let r = c.drop_first().drop_first();
        lemma_even_odd_split(r, x);
        assert(evens(c).drop_first() =~= evens(r));
        assert(odds(c).drop_first() =~= odds(r));
        assert(evens(c)[0] == c[0]);
        assert(odds(c)[0] == c[1]);
        let pr = poly_eval(r, x);
        let er = poly_eval(evens(r), y);
        let or = poly_eval(odds(r), y);
        let inner = c[1] + x * pr;
        let lhs_a = c[0] + x * c[1];
        assert(c.drop_first().drop_first() =~= r);
        assert(c.drop_first()[0] == c[1]);
        lemma_fadd_fmul(c[1], x, pr);
        assert(poly_eval(c.drop_first(), x) == inner % m);
        lemma_fadd_fmul(c[0], x, inner % m);
        lemma_mul_mod_noop_right(x, inner, m);
        lemma_add_mod_noop_right(c[0], x * (inner % m), m);
        lemma_add_mod_noop_right(c[0], x * inner, m);
        assert(poly_eval(c, x) == (c[0] + x * inner) % m);
        assert(c[0] + x * inner == lhs_a + x * x * pr) by (nonlinear_arith)
            requires
                inner == c[1] + x * pr,
                lhs_a == c[0] + x * c[1],
        ;
        // pr == (er + x * or) mod p, by the induction hypothesis
        lemma_fadd_fmul(er, x, or);
        assert(pr == (er + x * or) % m);
        lemma_mul_mod_noop_right(x * x, er + x * or, m);
        lemma_add_mod_noop_right(lhs_a, x * x * pr, m);
        lemma_add_mod_noop_right(lhs_a, x * x * (er + x * or), m);
        assert(poly_eval(c, x) == (lhs_a + x * x * (er + x * or)) % m);
        // right side: (c0 + y er) + x (c1 + y or)
        lemma_mul_mod_noop_left(x * x, er, m);
        lemma_mul_mod_noop_left(x * x, or, m);
        let ev = (c[0] + x * x * er) % m;
        let od = (c[1] + x * x * or) % m;
        assert(poly_eval(evens(c), y) == ev) by {
            lemma_fadd_fmul(c[0], y, er);
            lemma_add_mod_noop_right(c[0], y * er, m);
            lemma_add_mod_noop_right(c[0], x * x * er, m);
        }
        assert(poly_eval(odds(c), y) == od) by {
            lemma_fadd_fmul(c[1], y, or);
            lemma_add_mod_noop_right(c[1], y * or, m);
            lemma_add_mod_noop_right(c[1], x * x * or, m);
        }
        lemma_fadd_fmul(ev, x, od);
        lemma_mul_mod_noop_right(x, c[1] + x * x * or, m);
        lemma_add_mod_noop_right(ev, x * (c[1] + x * x * or), m);
        lemma_add_mod_noop_right(ev, x * od, m);
        lemma_add_mod_noop(c[0] + x * x * er, x * (c[1] + x * x * or), m);
        lemma_mod_twice(x * (c[1] + x * x * or), m);
        assert(lhs_a + x * x * (er + x * or) == c[0] + x * x * er + x * (c[1] + x * x * or))
            by (nonlinear_arith)
            requires
                lhs_a == c[0] + x * c[1],
        ;
        assert(poly_eval(c, x) == (c[0] + x * x * er + x * (c[1] + x * x * or)) % m);
        assert(poly_eval(c, x) == fadd(poly_eval(evens(c), y), fmul(x, poly_eval(odds(c), y))));
    }
}

/// `e + (x * -1) * o == e - x * o` in the field.
proof fn lemma_add_negated(e: int, x: int, o: int)
    ensures
        fadd(e, fmul(fmul(x, MODULUS - 1), o)) == fsub(e, fmul(x, o)),
{
    let m = modulus();
    lemma_mul_mod_noop_left(x * (MODULUS - 1), o, m);
    assert(x * (MODULUS - 1) * o == m * (x * o) + (-(x * o))) by (nonlinear_arith)
        requires
            m == MODULUS,
    ;
    lemma_mod_multiples_vanish(x * o, -(x * o), m);
    lemma_add_mod_noop_right(e, -(x * o), m);
    lemma_sub_mod_noop_right(e, x * o, m);
}

/// Trailing zero coefficients do not change an evaluation.
pub proof fn lemma_zero_padding(c: Seq<int>, k: nat, x: int)
    ensures
        poly_eval(c + Seq::new(k, |j: int| 0int), x) == poly_eval(c, x),
    decreases c.len() + k,
{
    let z = Seq::new(k, |j: int| 0int);
    if c.len() == 0 {
        assert(c + z =~= z);
        if k > 0 {
            assert(z.drop_first() =~= Seq::new((k - 1) as nat, |j: int| 0int));
            lemma_zero_padding(c, (k - 1) as nat, x);
            assert(c + Seq::new((k - 1) as nat, |j: int| 0int) =~= Seq::new((k - 1) as nat, |j: int| 0int));
            assert(x * 0 == 0);
            lemma_small_mod(0, modulus() as nat);
            assert(fmul(x, 0) == 0);
        }
    } else {
        assert((c + z).drop_first() =~= c.drop_first() + z);
        lemma_zero_padding(c.drop_first(), k, x);
    }
}

/// The values of the polynomial with coefficients `c` (of power-of-two
/// length `n`) at `1, w, ..., w^(n-1)`, where `w` generates the subgroup of
/// order `n`: the radix-2 transform.
fn ntt(c: &Vec<BabyBear>, w: BabyBear) -> (r: Vec<BabyBear>)
    requires
        is_pow2(c@.len()),
        c@.len() <= 0x800_0000,
        w@ == root_of_unity_spec(c@.len()),
    ensures
        r@.len() == c@.len(),
        forall|i: int|
            0 <= i < c@.len() ==> (#[trigger] r@[i])@ == poly_eval(values(c@), fpow(w@, i as nat)),
    decreases c@.len(),
{
    let n = c.len();
    let ghost cv = values(c@);
    proof {
        crate::field::lemma_pow2_positive(n as nat);
    }
    if n == 1 {
        let mut r: Vec<BabyBear> = Vec::new();
        r.push(c[0]);
        proof {
            c@[0].lemma_range();
            assert(cv.drop_first().len() == 0);
            assert(poly_eval(cv.drop_first(), fpow(w@, 0)) == 0);
            assert(fpow(w@, 0) * 0 == 0);
            assert(fmul(fpow(w@, 0), 0) == 0);
            assert(cv[0] == c@[0]@);
            lemma_small_mod(c@[0]@ as nat, modulus() as nat);
            assert(r@[0]@ == poly_eval(cv, fpow(w@, 0)));
        }
        return r;
    }
    let h = n / 2;
    proof {
        crate::merkle::lemma_pow2_half(n as nat);
        crate::field::lemma_root_of_unity(n as nat);
    }
    let mut ev: Vec<BabyBear> = Vec::new();
    let mut od: Vec<BabyBear> = Vec::new();
    for k in 0..h
        invariant
            n == c@.len(),
            h == n / 2,
            n == 2 * h,
            ev@.len() == k,
            od@.len() == k,
            forall|j: int| 0 <= j < k ==> (#[trigger] ev@[j]) == c@[2 * j],
            forall|j: int| 0 <= j < k ==> (#[trigger] od@[j]) == c@[2 * j + 1],
    {
        ev.push(c[2 * k]);
        od.push(c[2 * k + 1]);
    }
    assert(values(ev@) =~= evens(cv));
    assert(values(od@) =~= odds(cv));
    let w2 = w.sqr();
    let e = ntt(&ev, w2);
    let o = ntt(&od, w2);
    let mut lo: Vec<BabyBear> = Vec::new();
    let mut hi: Vec<BabyBear> = Vec::new();
    let mut x = BabyBear::one();
    for i in 0..h
        invariant
            n == c@.len(),
            h == n / 2,
            n == 2 * h,
            cv == values(c@),
            w2@ == fmul(w@, w@),
            e@.len() == h,
            o@.len() == h,
            forall|j: int| 0 <= j < h ==> (#[trigger] e@[j])@ == poly_eval(evens(cv), fpow(w2@, j as nat)),
            forall|j: int| 0 <= j < h ==> (#[trigger] o@[j])@ == poly_eval(odds(cv), fpow(w2@, j as nat)),
            fpow(w@, h as nat) == MODULUS - 1,
            fpow(w@, n as nat) == 1,
            x@ == fpow(w@, i as nat),
            lo@.len() == i,
            hi@.len() == i,
            forall|j: int| 0 <= j < i ==> (#[trigger] lo@[j])@ == poly_eval(cv, fpow(w@, j as nat)),
            forall|j: int| 0 <= j < i ==> (#[trigger] hi@[j])@ == poly_eval(cv, fpow(w@, (j + h) as nat)),
    {
        let t = x.mul(o[i]);
        proof {
            let xi = fpow(w@, i as nat);
            crate::field::lemma_fpow_range(w@, i as nat);
            crate::field::lemma_fpow_add(w@, i as nat, i as nat);
            crate::field::lemma_fpow_square(w@, i as nat);
            assert(fmul(xi, xi) == fpow(w2@, i as nat));
            lemma_even_odd_split(cv, xi);
            let xh = fpow(w@, (i + h) as nat);
            crate::field::lemma_fpow_add(w@, i as nat, h as nat);
            assert(xh == fmul(xi, MODULUS - 1));
            crate::field::lemma_fpow_add(w@, (i + h) as nat, (i + h) as nat);
            crate::field::lemma_fpow_add(w@, (2 * i) as nat, n as nat);
            crate::field::lemma_fpow_range(w@, (2 * i) as nat);
            crate::field::lemma_fmul_one(fpow(w@, (2 * i) as nat));
            assert((i + h) + (i + h) == 2 * i + n);
            assert(fmul(xh, xh) == fpow(w2@, i as nat));
            lemma_even_odd_split(cv, xh);
            lemma_add_negated(e@[i as int]@, xi, o@[i as int]@);
        }
        lo.push(e[i].add(t));
        hi.push(e[i].sub(t));
        proof {
            lemma_fmul_comm(x@, w@);
        }
        x = x.mul(w);
    }
    let ghost lo0 = lo@;
    let ghost hi0 = hi@;
    lo.append(&mut hi);
    assert forall|i: int| 0 <= i < n implies (#[trigger] lo@[i])@ == poly_eval(cv, fpow(w@, i as nat)) by {
        if i < h {
            assert(lo@[i] == lo0[i]);
        } else {
            assert(lo@[i] == hi0[i - h]);
        }
    }
    lo
}

/// Evaluates the polynomial with coefficients `c` at `x` (Horner's rule).
pub fn horner(c: &Vec<BabyBear>, x: BabyBear) -> (r: BabyBear)
    ensures
        r@ == poly_eval(values(c@), x@),
{
    let mut acc = BabyBear::zero();
    let mut k = c.len();
    assert(values(c@).skip(k as int) =~= Seq::<int>::empty());
    while k > 0
        invariant
            k <= c@.len(),
            acc@ == poly_eval(values(c@).skip(k as int), x@),
        decreases k,
    {
        let ghost tail = values(c@).skip(k as int);
        assert(values(c@).skip(k - 1).drop_first() =~= tail);
        proof {
            lemma_fmul_comm(acc@, x@);
        }
        acc = acc.mul(x).add(c[k - 1]);
        k = k - 1;
        assert(fadd(fmul(x@, poly_eval(tail, x@)), c@[k as int]@) == fadd(c@[k as int]@, fmul(x@, poly_eval(tail, x@))));
    }
    assert(values(c@).skip(0) =~= values(c@));
    acc
}

/// The codeword of length `size` (a power of two up to `2^27`) of the
/// polynomial with coefficients `input`: its values at `1, w, w^2, ...`, where
/// `w` generates the subgroup of order `size`. With `size` the number of
/// coefficients times the blow-up factor this is the zero-padded transform.
pub fn coeff_to_eval_blowup(input: Vec<BabyBear>, size: usize) -> (r: Vec<BabyBear>)
    requires
        is_pow2(size as nat),
        input@.len() <= size <= 0x800_0000,
    ensures
        r@.len() == size,
        forall|i: int|
            0 <= i < size ==> (#[trigger] r@[i])@ == poly_eval(
                values(input@),
                fpow(root_of_unity_spec(size as nat), i as nat),
            ),
{
    let mut padded = input;
    let ghost start = values(padded@);
    while padded.len() < size
        invariant
            padded@.len() <= size,
            values(padded@) == start + Seq::new((padded@.len() - start.len()) as nat, |j: int| 0int),
            start.len() <= padded@.len(),
        decreases size - padded@.len(),
    {
        let ghost before = values(padded@);
        let z = BabyBear::zero();
        padded.push(z);
        assert(values(padded@) =~= before.push(0));
        assert(values(padded@) =~= start + Seq::new((padded@.len() - start.len()) as nat, |j: int| 0int));
    }
    let rou = get_root_of_unity(size as u64);
    let r = ntt(&padded, rou);
    assert forall|i: int| 0 <= i < size implies (#[trigger] r@[i])@ == poly_eval(
        start,
        fpow(root_of_unity_spec(size as nat), i as nat),
    ) by {
        lemma_zero_padding(start, (padded@.len() - start.len()) as nat, fpow(rou@, i as nat));
    }
    r
}

/// The coefficients of the polynomial of degree below `n` whose values on
/// the subgroup of order `n` are `v`: entry `k` is `n^-1 * sum_i v[i] w^(-ik)`,
/// that is `v` read as coefficients and evaluated at `w^-k`, divided by `n`.
pub open spec fn interpolate_spec(v: Seq<int>) -> Seq<int> {
    Seq::new(
        v.len(),
        |k: int|
            fmul(
                finv(v.len() as int),
                poly_eval(v, fpow(finv(root_of_unity_spec(v.len())), k as nat)),
            ),
    )
}

/// Re-evaluates a codeword of power-of-two length `n` on the larger domain
/// of order `size`: interpolates its coefficients (inverse transform), then
/// evaluates them on the subgroup of order `size`.
pub fn eval_to_eval_blowup(input: Vec<BabyBear>, size: usize) -> (r: Vec<BabyBear>)
    requires
        is_pow2(input@.len()),
        is_pow2(size as nat),
        input@.len() <= size <= 0x800_0000,
    ensures
        r@.len() == size,
        forall|i: int|
            0 <= i < size ==> (#[trigger] r@[i])@ == poly_eval(
                interpolate_spec(values(input@)),
                fpow(root_of_unity_spec(size as nat), i as nat),
            ),
{
    let n = input.len();
    let w_inv = get_root_of_unity(n as u64).inv();
    let n_inv = BabyBear::from_u32(n as u32).inv();
    proof {
        vstd::arithmetic::div_mod::lemma_small_mod(n as nat, crate::field::modulus() as nat);
    }
    let mut coeffs: Vec<BabyBear> = Vec::new();
    let mut x = BabyBear::one();
    for k in 0..n
        invariant
            n == input@.len(),
            w_inv@ == finv(root_of_unity_spec(n as nat)),
            n_inv@ == finv(n as int),
            x@ == fpow(w_inv@, k as nat),
            coeffs@.len() == k,
            forall|j: int|
                0 <= j < k ==> (#[trigger] coeffs@[j])@ == interpolate_spec(values(input@))[j],
    {
        coeffs.push(n_inv.mul(horner(&input, x)));
        proof {
            lemma_fmul_comm(x@, w_inv@);
        }
        x = x.mul(w_inv);
    }
    assert(values(coeffs@) =~= interpolate_spec(values(input@)));
    coeff_to_eval_blowup(coeffs, size)
}

} // verus!
