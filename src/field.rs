//! Arithmetic in the BabyBear prime field, `p = 15 * 2^27 + 1`.

use vstd::arithmetic::div_mod::*;
use vstd::arithmetic::mul::*;
use crate::hash::{le_bytes, lemma_le_bytes_len};
use vstd::prelude::*;

verus! {

/// The field modulus `15 * 2^27 + 1`.
pub const MODULUS: u32 = 2013265921;

/// A generator of the multiplicative group of the field.
pub const GENERATOR: u32 = 31;

/// The largest `k` such that `2^k` divides `MODULUS - 1`.
pub const TWO_ADICITY: u32 = 27;

/// The modulus as a mathematical integer.
pub open spec fn modulus() -> int {
    MODULUS as int
}

/// Field addition on canonical representatives.
pub open spec fn fadd(a: int, b: int) -> int {
    (a + b) % modulus()
}

/// Field subtraction on canonical representatives.
pub open spec fn fsub(a: int, b: int) -> int {
    (a - b) % modulus()
}

/// Field multiplication on canonical representatives.
pub open spec fn fmul(a: int, b: int) -> int {
    (a * b) % modulus()
}

/// `a^e` in the field.
pub open spec fn fpow(a: int, e: nat) -> int
    decreases e,
{
    if e == 0 {
        1
    } else {
        fmul(a, fpow(a, (e - 1) as nat))
    }
}

/// The multiplicative inverse, as `a^(p - 2)` (Fermat).
pub open spec fn finv(a: int) -> int {
    fpow(a, (MODULUS - 2) as nat)
}

/// The root of unity that generates the subgroup of order `n`: `g^((p - 1) / n)`.
pub open spec fn root_of_unity_spec(n: nat) -> int {
    fpow(GENERATOR as int, ((MODULUS - 1) as nat / n) as nat)
}

/// `n` is a power of two (1, 2, 4, ...).
pub open spec fn is_pow2(n: nat) -> bool
    decreases n,
{
    if n == 1 {
        true
    } else if n == 0 || n % 2 == 1 {
        false
    } else {
        is_pow2(n / 2)
    }
}

/// The base-two logarithm, rounded down (0 for 0 and 1).
pub open spec fn log2(n: nat) -> nat
    decreases n,
{
    if n <= 1 {
        0
    } else {
        1 + log2(n / 2)
    }
}

/// The value of four bytes read in little-endian order.
pub open spec fn le_u32_value(b: Seq<u8>) -> int {
    b[0] as int + 256 * b[1] as int + 65536 * b[2] as int + 16777216 * b[3] as int
}

/// A BabyBear element, held as its canonical representative in `[0, p)`.
#[derive(Clone, Copy, Debug, PartialEq, Eq, Structural)]
pub struct BabyBear {
    v: u32,
}

impl View for BabyBear {
    type V = int;

    closed spec fn view(&self) -> int {
        self.v as int % modulus()
    }
}

pub proof fn lemma_fmul_comm(x: int, y: int)
    ensures
        fmul(x, y) == fmul(y, x),
{
    lemma_mul_is_commutative(x, y);
}

pub proof fn lemma_fmul_assoc(x: int, y: int, z: int)
    ensures
        fmul(fmul(x, y), z) == fmul(x, fmul(y, z)),
{
    let m = modulus();
    lemma_mul_mod_noop_left(x * y, z, m);
    lemma_mul_mod_noop_right(x, y * z, m);
    lemma_mul_is_associative(x, y, z);
}

pub proof fn lemma_fpow_range(a: int, e: nat)
    ensures
        0 <= fpow(a, e) < modulus(),
    decreases e,
{
    if e > 0 {
        lemma_mod_bound(a * fpow(a, (e - 1) as nat), modulus());
    }
}

pub proof fn lemma_fmul_one(x: int)
    requires
        0 <= x < modulus(),
    ensures
        fmul(1, x) == x,
        fmul(x, 1) == x,
{
    lemma_small_mod(x as nat, modulus() as nat);
}

/// `a^(m + n) == a^m * a^n`.
pub proof fn lemma_fpow_add(a: int, m: nat, n: nat)
    ensures
        fpow(a, m + n) == fmul(fpow(a, m), fpow(a, n)),
    decreases m,
{
    lemma_fpow_range(a, n);
    if m == 0 {
        lemma_fmul_one(fpow(a, n));
    } else {
        lemma_fpow_add(a, (m - 1) as nat, n);
        assert(fpow(a, m + n) == fmul(a, fpow(a, (m - 1 + n) as nat)));
        lemma_fmul_assoc(a, fpow(a, (m - 1) as nat), fpow(a, n));
    }
}

/// `(a^m)^n == a^(m * n)`.
pub proof fn lemma_fpow_mul(a: int, m: nat, n: nat)
    ensures
        fpow(fpow(a, m), n) == fpow(a, m * n),
    decreases n,
{
    if n == 0 {
        assert(m * n == 0) by (nonlinear_arith)
            requires
                n == 0,
        ;
    } else {
        lemma_fpow_mul(a, m, (n - 1) as nat);
        assert(m * n == m + m * (n - 1)) by (nonlinear_arith)
            requires
                n > 0,
        ;
        lemma_fpow_add(a, m, (m * (n - 1)) as nat);
    }
}

/// `(a * a)^n == a^(2n)`.
pub proof fn lemma_fpow_square(a: int, n: nat)
    ensures
        fpow(fmul(a, a), n) == fpow(a, 2 * n),
{
    let m = modulus();
    assert(fpow(a, 0) == 1);
    assert(fpow(a, 1) == a * 1 % m);
    assert(fpow(a, 2) == (a * fpow(a, 1)) % m);
    lemma_mul_mod_noop_right(a, a, m);
    assert(fmul(a, a) == fpow(a, 2));
    lemma_fpow_mul(a, 2, n);
}

proof fn lemma_view_is_value(x: BabyBear)
    requires
        x.v < MODULUS,
    ensures
        x@ == x.v as int,
{
    lemma_small_mod(x.v as nat, MODULUS as nat);
}

impl BabyBear {
    #[verifier::type_invariant]
    spec fn canonical(&self) -> bool {
        self.v < MODULUS
    }

    /// Every element's value lies in `[0, p)`.
    pub proof fn lemma_range(self)
        ensures
            0 <= self@ < modulus(),
    {
    }

    /// Equality of field elements.
    pub fn equals(&self, other: &Self) -> (r: bool)
        ensures
            r == (self@ == other@),
    {
        proof {
            use_type_invariant(self);
            use_type_invariant(other);
            lemma_view_is_value(*self);
            lemma_view_is_value(*other);
        }
        self.v == other.v
    }

    pub fn zero() -> (r: Self)
        ensures
            r@ == 0,
    {
        BabyBear { v: 0 }
    }

    pub fn one() -> (r: Self)
        ensures
            r@ == 1,
    {
        let r = BabyBear { v: 1 };
        proof {
            lemma_view_is_value(r);
        }
        r
    }

    /// The element `x mod p`.
    pub fn from_u32(x: u32) -> (r: Self)
        ensures
            r@ == x as int % modulus(),
    {
        BabyBear { v: x % MODULUS }
    }

    /// The canonical representative.
    pub fn value(&self) -> (r: u32)
        ensures
            r as int == self@,
    {
        proof {
            use_type_invariant(self);
            lemma_view_is_value(*self);
        }
        self.v
    }

    pub fn add(self, other: Self) -> (r: Self)
        ensures
            r@ == fadd(self@, other@),
    {
        proof {
            use_type_invariant(self);
            use_type_invariant(other);
            lemma_view_is_value(self);
            lemma_view_is_value(other);
        }
        let s: u64 = self.v as u64 + other.v as u64;
        let r = BabyBear { v: (s % (MODULUS as u64)) as u32 };
        proof {
            lemma_view_is_value(r);
        }
        r
    }

    pub fn sub(self, other: Self) -> (r: Self)
        ensures
            r@ == fsub(self@, other@),
    {
        proof {
            use_type_invariant(self);
            use_type_invariant(other);
            lemma_view_is_value(self);
            lemma_view_is_value(other);
        }
        let r = if self.v >= other.v {
            BabyBear { v: self.v - other.v }
        } else {
            BabyBear { v: MODULUS - other.v + self.v }
        };
        proof {
            lemma_view_is_value(r);
            if self.v >= other.v {
                lemma_small_mod((self.v - other.v) as nat, MODULUS as nat);
            } else {
                lemma_mod_add_multiples_vanish(self.v - other.v, modulus());
                lemma_small_mod((MODULUS - other.v + self.v) as nat, MODULUS as nat);
            }
        }
        r
    }

    pub fn mul(self, other: Self) -> (r: Self)
        ensures
            r@ == fmul(self@, other@),
    {
        proof {
            use_type_invariant(self);
            use_type_invariant(other);
            lemma_view_is_value(self);
            lemma_view_is_value(other);
            lemma_mul_upper_bound(self.v as int, MODULUS as int, other.v as int, MODULUS as int);
        }
        let p: u64 = self.v as u64 * other.v as u64;
        let r = BabyBear { v: (p % (MODULUS as u64)) as u32 };
        proof {
            lemma_view_is_value(r);
        }
        r
    }

    /// `self * self`.
    pub fn sqr(self) -> (r: Self)
        ensures
            r@ == fmul(self@, self@),
    {
        self.mul(self)
    }

    /// The inverse `self^(p - 2)`; for zero this is zero.
    pub fn inv(self) -> (r: Self)
        ensures
            r@ == finv(self@),
    {
        pow(self, MODULUS - 2)
    }

    /// The four little-endian bytes of the canonical representative.
    pub fn to_bytes_le(&self) -> (r: Vec<u8>)
        ensures
            r@ == le_bytes(self@ as nat, 4),
            r@.len() == 4,
    {
        proof {
            use_type_invariant(self);
            lemma_view_is_value(*self);
        }
        let x0 = self.v;
        let x1 = x0 / 256;
        let x2 = x1 / 256;
        let x3 = x2 / 256;
        let mut r: Vec<u8> = Vec::new();
        r.push((x0 % 256) as u8);
        r.push((x1 % 256) as u8);
        r.push((x2 % 256) as u8);
        r.push((x3 % 256) as u8);
        proof {
            reveal_with_fuel(le_bytes, 5);
            assert(r@ =~= le_bytes(x0 as nat, 4));
            lemma_le_bytes_len(x0 as nat, 4);
        }
        r
    }

    /// The element whose value is the first four bytes, read little-endian, reduced mod `p`.
    pub fn from_bytes_le(bytes: &[u8]) -> (r: Self)
        requires
            bytes@.len() >= 4,
        ensures
            r@ == le_u32_value(bytes@) % modulus(),
    {
        let x: u32 = bytes[0] as u32 + 256 * (bytes[1] as u32) + 65536 * (bytes[2] as u32)
            + 16777216 * (bytes[3] as u32);
        BabyBear::from_u32(x)
    }
}

/// One squaring step: `31^(2e)` from `31^e`.
proof fn lemma_generator_square(e: nat, c: int, d: int)
    requires
        fpow(GENERATOR as int, e) == c,
        (c * c) % modulus() == d,
    ensures
        fpow(GENERATOR as int, 2 * e) == d,
{
    lemma_fpow_add(GENERATOR as int, e, e);
    assert(e + e == 2 * e);
}

/// Squarings 0 to 7 of the generator chain.
proof fn lemma_generator_chain_0()
    requires
        fpow(GENERATOR as int, 15) == 440564289,
    ensures
        fpow(GENERATOR as int, 1920) == 195061667,
{
    assert((440564289int * 440564289int) % 2013265921int == 975630072int) by (nonlinear_arith);
    lemma_generator_square(15, 440564289, 975630072);
    assert((975630072int * 975630072int) % 2013265921int == 1149491290int) by (nonlinear_arith);
    lemma_generator_square(30, 975630072, 1149491290);
    assert((1149491290int * 1149491290int) % 2013265921int == 1003846038int) by (nonlinear_arith);
    lemma_generator_square(60, 1149491290, 1003846038);
    assert((1003846038int * 1003846038int) % 2013265921int == 1267047229int) by (nonlinear_arith);
    lemma_generator_square(120, 1003846038, 1267047229);
    assert((1267047229int * 1267047229int) % 2013265921int == 570250684int) by (nonlinear_arith);
    lemma_generator_square(240, 1267047229, 570250684);
    assert((570250684int * 570250684int) % 2013265921int == 414040701int) by (nonlinear_arith);
    lemma_generator_square(480, 570250684, 414040701);
    assert((414040701int * 414040701int) % 2013265921int == 195061667int) by (nonlinear_arith);
    lemma_generator_square(960, 414040701, 195061667);
}

/// Squarings 7 to 14 of the generator chain.
proof fn lemma_generator_chain_7()
    requires
        fpow(GENERATOR as int, 1920) == 195061667,
    ensures
        fpow(GENERATOR as int, 245760) == 298008106,
{
    assert((195061667int * 195061667int) % 2013265921int == 1049899240int) by (nonlinear_arith);
    lemma_generator_square(1920, 195061667, 1049899240);
    assert((1049899240int * 1049899240int) % 2013265921int == 1559589183int) by (nonlinear_arith);
    lemma_generator_square(3840, 1049899240, 1559589183);
    assert((1559589183int * 1559589183int) % 2013265921int == 1286330022int) by (nonlinear_arith);
    lemma_generator_square(7680, 1559589183, 1286330022);
    assert((1286330022int * 1286330022int) % 2013265921int == 1421947380int) by (nonlinear_arith);
    lemma_generator_square(15360, 1286330022, 1421947380);
    assert((1421947380int * 1421947380int) % 2013265921int == 2009781145int) by (nonlinear_arith);
    lemma_generator_square(30720, 1421947380, 2009781145);
    assert((2009781145int * 2009781145int) % 2013265921int == 1657000625int) by (nonlinear_arith);
    lemma_generator_square(61440, 2009781145, 1657000625);
    assert((1657000625int * 1657000625int) % 2013265921int == 298008106int) by (nonlinear_arith);
    lemma_generator_square(122880, 1657000625, 298008106);
}

/// Squarings 14 to 21 of the generator chain.
proof fn lemma_generator_chain_14()
    requires
        fpow(GENERATOR as int, 245760) == 298008106,
    ensures
        fpow(GENERATOR as int, 31457280) == 1721589904,
{
    assert((298008106int * 298008106int) % 2013265921int == 1282623253int) by (nonlinear_arith);
    lemma_generator_square(245760, 298008106, 1282623253);
    assert((1282623253int * 1282623253int) % 2013265921int == 1340477990int) by (nonlinear_arith);
    lemma_generator_square(491520, 1282623253, 1340477990);
    assert((1340477990int * 1340477990int) % 2013265921int == 341742893int) by (nonlinear_arith);
    lemma_generator_square(983040, 1340477990, 341742893);
    assert((341742893int * 341742893int) % 2013265921int == 1753498361int) by (nonlinear_arith);
    lemma_generator_square(1966080, 341742893, 1753498361);
    assert((1753498361int * 1753498361int) % 2013265921int == 1732600167int) by (nonlinear_arith);
    lemma_generator_square(3932160, 1753498361, 1732600167);
    assert((1732600167int * 1732600167int) % 2013265921int == 397765732int) by (nonlinear_arith);
    lemma_generator_square(7864320, 1732600167, 397765732);
    assert((397765732int * 397765732int) % 2013265921int == 1721589904int) by (nonlinear_arith);
    lemma_generator_square(15728640, 397765732, 1721589904);
}

/// Squarings 21 to 26 of the generator chain.
proof fn lemma_generator_chain_21()
    requires
        fpow(GENERATOR as int, 31457280) == 1721589904,
    ensures
        fpow(GENERATOR as int, 1006632960) == 2013265920,
{
    assert((1721589904int * 1721589904int) % 2013265921int == 760005850int) by (nonlinear_arith);
    lemma_generator_square(31457280, 1721589904, 760005850);
    assert((760005850int * 760005850int) % 2013265921int == 196396260int) by (nonlinear_arith);
    lemma_generator_square(62914560, 760005850, 196396260);
    assert((196396260int * 196396260int) % 2013265921int == 1592366214int) by (nonlinear_arith);
    lemma_generator_square(125829120, 196396260, 1592366214);
    assert((1592366214int * 1592366214int) % 2013265921int == 1728404513int) by (nonlinear_arith);
    lemma_generator_square(251658240, 1592366214, 1728404513);
    assert((1728404513int * 1728404513int) % 2013265921int == 2013265920int) by (nonlinear_arith);
    lemma_generator_square(503316480, 1728404513, 2013265920);
}

/// Squarings 26 to 27 of the generator chain.
proof fn lemma_generator_chain_26()
    requires
        fpow(GENERATOR as int, 1006632960) == 2013265920,
    ensures
        fpow(GENERATOR as int, 2013265920) == 1,
{
    assert((2013265920int * 2013265920int) % 2013265921int == 1int) by (nonlinear_arith);
    lemma_generator_square(1006632960, 2013265920, 1);
}

/// `31^15`.
proof fn lemma_generator_base()
    ensures
        fpow(GENERATOR as int, 15) == 440564289,
{
    assert(fpow(31, 0) == 1);
    assert(fpow(31, 1) == 31) by {
        assert(31int * 1int % 2013265921int == 31int) by (nonlinear_arith);
    }
    assert(fpow(31, 2) == 961) by {
        assert(31int * 31int % 2013265921int == 961int) by (nonlinear_arith);
    }
    assert(fpow(31, 3) == 29791) by {
        assert(31int * 961int % 2013265921int == 29791int) by (nonlinear_arith);
    }
    assert(fpow(31, 4) == 923521) by {
        assert(31int * 29791int % 2013265921int == 923521int) by (nonlinear_arith);
    }
    assert(fpow(31, 5) == 28629151) by {
        assert(31int * 923521int % 2013265921int == 28629151int) by (nonlinear_arith);
    }
    assert(fpow(31, 6) == 887503681) by {
        assert(31int * 28629151int % 2013265921int == 887503681int) by (nonlinear_arith);
    }
    assert(fpow(31, 7) == 1340157138) by {
        assert(31int * 887503681int % 2013265921int == 1340157138int) by (nonlinear_arith);
    }
    assert(fpow(31, 8) == 1279552858) by {
        assert(31int * 1340157138int % 2013265921int == 1279552858int) by (nonlinear_arith);
    }
    assert(fpow(31, 9) == 1414086099) by {
        assert(31int * 1279552858int % 2013265921int == 1414086099int) by (nonlinear_arith);
    }
    assert(fpow(31, 10) == 1558084728) by {
        assert(31int * 1414086099int % 2013265921int == 1558084728int) by (nonlinear_arith);
    }
    assert(fpow(31, 11) == 1995510385) by {
        assert(31int * 1558084728int % 2013265921int == 1995510385int) by (nonlinear_arith);
    }
    assert(fpow(31, 12) == 1462844305) by {
        assert(31int * 1995510385int % 2013265921int == 1462844305int) by (nonlinear_arith);
    }
    assert(fpow(31, 13) == 1056323193) by {
        assert(31int * 1462844305int % 2013265921int == 1056323193int) by (nonlinear_arith);
    }
    assert(fpow(31, 14) == 533764247) by {
        assert(31int * 1056323193int % 2013265921int == 533764247int) by (nonlinear_arith);
    }
    assert(fpow(31, 15) == 440564289) by {
        assert(31int * 533764247int % 2013265921int == 440564289int) by (nonlinear_arith);
    }
}

/// The generator's powers `31^(15 * 2^k)` by repeated squaring: the order
/// of 31 divides `p - 1`, and `31^((p - 1) / 2)` is `-1`.
pub proof fn lemma_generator_order()
    ensures
        fpow(GENERATOR as int, 1006632960) == MODULUS - 1,
        fpow(GENERATOR as int, 2013265920) == 1,
{
    lemma_generator_base();
    lemma_generator_chain_0();
    lemma_generator_chain_7();
    lemma_generator_chain_14();
    lemma_generator_chain_21();
    lemma_generator_chain_26();
}

/// A power of two divides every larger power of two.
pub proof fn lemma_pow2_divides(n: nat, m: nat)
    requires
        is_pow2(n),
        is_pow2(m),
        n <= m,
    ensures
        m % n == 0,
    decreases m,
{
    lemma_pow2_positive(n);
    lemma_pow2_positive(m);
    if n > 1 {
        lemma_pow2_divides(n / 2, m / 2);
        let k = (m / 2) / (n / 2);
        vstd::arithmetic::div_mod::lemma_fundamental_div_mod((m / 2) as int, (n / 2) as int);
        assert(m == k * n) by (nonlinear_arith)
            requires
                m == 2 * (m / 2),
                n == 2 * (n / 2),
                m / 2 == (n / 2) * k,
        ;
        vstd::arithmetic::div_mod::lemma_fundamental_div_mod_converse(m as int, n as int, k as int, 0);
    } else if n == 1 {
        vstd::arithmetic::div_mod::lemma_mod_self_0(m as int);
    }
}

/// The exponent `(p - 1) / n` of the root of unity of order `n`: it times `n` is `p - 1`.
pub proof fn lemma_root_exponent(n: nat)
    requires
        is_pow2(n),
        n <= 0x800_0000,
    ensures
        ((MODULUS - 1) as nat / n) * n == MODULUS - 1,
{
    assert(is_pow2(0x800_0000)) by {
        reveal_with_fuel(is_pow2, 28);
    }
    lemma_pow2_divides(n, 0x800_0000);
    lemma_pow2_positive(n);
    let k = 0x800_0000nat / n;
    vstd::arithmetic::div_mod::lemma_fundamental_div_mod(0x800_0000, n as int);
    assert(MODULUS - 1 == (15 * k) * n) by (nonlinear_arith)
        requires
            0x800_0000 == n * k,
    ;
    vstd::arithmetic::div_mod::lemma_fundamental_div_mod_converse(
        (MODULUS - 1) as int,
        n as int,
        (15 * k) as int,
        0,
    );
}

/// The root of unity of order `n` (a power of two, `2 <= n <= 2^27`):
/// its `n/2`-th power is `-1`, its `n`-th power is `1`, and its square is the
/// root of unity of order `n / 2`.
pub proof fn lemma_root_of_unity(n: nat)
    requires
        is_pow2(n),
        2 <= n <= 0x800_0000,
    ensures
        fpow(root_of_unity_spec(n), n / 2) == MODULUS - 1,
        fpow(root_of_unity_spec(n), n) == 1,
        root_of_unity_spec(n / 2) == fmul(root_of_unity_spec(n), root_of_unity_spec(n)),
{
    let e = (MODULUS - 1) as nat / n;
    lemma_root_exponent(n);
    assert(n % 2 == 0);
    assert(e * (n / 2) == 1006632960 && (2 * e) * (n / 2) == MODULUS - 1) by (nonlinear_arith)
        requires
            e * n == MODULUS - 1,
            n == 2 * (n / 2),
    ;
    lemma_generator_order();
    lemma_fpow_mul(GENERATOR as int, e, n / 2);
    lemma_fpow_mul(GENERATOR as int, e, n);
    vstd::arithmetic::div_mod::lemma_fundamental_div_mod_converse(
        (MODULUS - 1) as int,
        (n / 2) as int,
        (2 * e) as int,
        0,
    );
    lemma_fpow_add(GENERATOR as int, e, e);
    assert(e + e == 2 * e);
}

/// The generator of the multiplicative subgroup of order `n`, for a power of
/// two `n` up to `2^27`.
pub fn get_root_of_unity(n: u64) -> (r: BabyBear)
    requires
        is_pow2(n as nat),
        n <= 0x800_0000,
    ensures
        r@ == root_of_unity_spec(n as nat),
{
    proof {
        lemma_pow2_positive(n as nat);
    }
    let e: u32 = (MODULUS - 1) / (n as u32);
    pow(BabyBear::from_u32(GENERATOR), e)
}

/// A power of two is positive.
pub proof fn lemma_pow2_positive(n: nat)
    requires
        is_pow2(n),
    ensures
        n >= 1,
    decreases n,
{
}

/// `base^exp` by square-and-multiply.
pub fn pow(base: BabyBear, exp: u32) -> (r: BabyBear)
    ensures
        r@ == fpow(base@, exp as nat),
{
    let mut result = BabyBear::one();
    let mut b = base;
    let mut e = exp;
    proof {
        base.lemma_range();
        lemma_fpow_range(b@, e as nat);
        lemma_fmul_one(fpow(b@, e as nat));
    }
    while e > 0
        invariant
            fmul(result@, fpow(b@, e as nat)) == fpow(base@, exp as nat),
        decreases e,
    {
        let ghost e0 = e as nat;
        let ghost k = (e / 2) as nat;
        proof {
            lemma_fpow_square(b@, k);
        }
        if e % 2 == 1 {
            proof {
                assert(e0 == 2 * k + 1);
                lemma_fmul_assoc(result@, b@, fpow(b@, 2 * k));
            }
            result = result.mul(b);
        } else {
            assert(e0 == 2 * k);
        }
        b = b.sqr();
        e = e / 2;
    }
    proof {
        result.lemma_range();
        lemma_fmul_one(result@);
    }
    result
}

} // verus!
