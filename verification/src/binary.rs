//! Binary floating-point values as integers: a mantissa and a power of two.
//!
//! Readings arrive as integers and are shown as decimal fractions of a larger
//! unit. The quotient is taken as a double-precision machine would take it:
//! the dividend is rounded to 53 significant bits, the quotient is rounded to
//! 53 significant bits, and the result is rounded to the digits shown, each
//! time to the nearest value and to the even one of two equally near.

use vstd::prelude::*;
use vstd::arithmetic::div_mod::*;
use vstd::arithmetic::power2::*;

verus! {

/// The integer nearest to `num / den`; of two equally near, the even one.
pub open spec fn round_ties_even(num: nat, den: nat) -> nat
    recommends
        den > 0,
{
    let q = num / den;
    let r = num % den;
    if 2 * r < den || (2 * r == den && q % 2 == 0) {
        q
    } else {
        q + 1
    }
}

/// Computes `round_ties_even`.
pub fn round_div(num: u128, den: u128) -> (q: u128)
    requires
        den > 0,
        num / den < u128::MAX,
    ensures
        q == round_ties_even(num as nat, den as nat),
{
    let q = num / den;
    let r = num % den;
    let rest = den - r;
    if r < rest || (r == rest && q % 2 == 0) {
        q
    } else {
        q + 1
    }
}

/// Computes a power of two.
pub fn power_of_two(k: u32) -> (p: u128)
    requires
        k < 128,
    ensures
        p == pow2(k as nat),
{
    let mut p: u128 = 1;
    let mut i: u32 = 0;
    proof {
        lemma2_to64();
    }
    while i < k
        invariant
            i <= k,
            k < 128,
            p == pow2(i as nat),
        decreases k - i,
    {
        proof {
            lemma2_to64();
            lemma2_to64_rest();
            lemma_pow2_adds(64, 63);
            lemma_pow2_unfold((i + 1) as nat);
            lemma_pow2_below((i + 1) as nat, 127);
        }
        p = p * 2;
        i = i + 1;
    }
    p
}

/// A power of two is no greater than that of a greater exponent.
pub proof fn lemma_pow2_below(e1: nat, e2: nat)
    requires
        e1 <= e2,
    ensures
        pow2(e1) <= pow2(e2),
{
    if e1 < e2 {
        lemma_pow2_strictly_increases(e1, e2);
    }
}

/// A binary floating-point magnitude: `mant * 2^exp`.
#[derive(Clone, Copy, Debug)]
pub struct Binary {
    pub mant: u64,
    pub exp: i32,
}

/// A binary floating-point magnitude over the mathematical integers.
pub struct BinaryView {
    pub mant: nat,
    pub exp: int,
}

impl View for Binary {
    type V = BinaryView;

    open spec fn view(&self) -> BinaryView {
        BinaryView { mant: self.mant as nat, exp: self.exp as int }
    }
}

/// Whether `num / den`, divided by `2^e`, lies from `2^52` up to, not
/// including, `2^53`: whether `e` is the exponent under which the quotient has
/// a mantissa of 53 bits.
pub open spec fn in_binade(num: nat, den: nat, e: int) -> bool {
    if e >= 0 {
        pow2(52) * (den * pow2(e as nat)) <= num < pow2(53) * (den * pow2(e as nat))
    } else {
        pow2(52) * den <= num * pow2((-e) as nat) < pow2(53) * den
    }
}

/// The exponent under which `num / den` has a mantissa of 53 bits.
pub open spec fn binade(num: nat, den: nat) -> int {
    choose|e: int| in_binade(num, den, e)
}

/// The mantissa of `num / den` under the exponent `e`: the integer nearest to
/// the quotient divided by `2^e`; of two equally near, the even one.
pub open spec fn mantissa_at(num: nat, den: nat, e: int) -> nat {
    if e >= 0 {
        round_ties_even(num, den * pow2(e as nat))
    } else {
        round_ties_even(num * pow2((-e) as nat), den)
    }
}

/// The number of 53 significant bits nearest to `num / den`; of two equally
/// near, the one with the even mantissa.
pub open spec fn nearest(num: nat, den: nat) -> BinaryView
    recommends
        num > 0,
        den > 0,
{
    let e = binade(num, den);
    BinaryView { mant: mantissa_at(num, den, e), exp: e }
}

/// A quotient has one exponent only.
pub proof fn lemma_binade_unique(num: nat, den: nat, e1: int, e2: int)
    requires
        den > 0,
        in_binade(num, den, e1),
        in_binade(num, den, e2),
    ensures
        e1 == e2,
{
    lemma_binade_ordered(num, den, e1, e2);
    lemma_binade_ordered(num, den, e2, e1);
}

proof fn lemma_binade_ordered(num: nat, den: nat, e1: int, e2: int)
    requires
        den > 0,
        in_binade(num, den, e1),
        in_binade(num, den, e2),
    ensures
        e2 <= e1,
{
    lemma2_to64_rest();
    let a: int = pow2(52) as int;
    assert(pow2(53) == 2 * a);
    if e2 <= e1 {
    } else if e1 >= 0 {
        let p1 = pow2(e1 as nat) as int;
        let p2 = pow2(e2 as nat) as int;
        lemma_pow2_unfold((e1 + 1) as nat);
        lemma_pow2_below((e1 + 1) as nat, e2 as nat);
        assert(2 * p1 <= p2);
        assert(2 * a * (den * p1) <= a * (den * p2)) by (nonlinear_arith)
            requires
                2 * p1 <= p2,
                a > 0,
                den > 0,
        ;
    } else if e2 < 0 {
        let p1 = pow2((-e1) as nat) as int;
        let p2 = pow2((-e2) as nat) as int;
        lemma_pow2_unfold((-e2 + 1) as nat);
        lemma_pow2_below((-e2 + 1) as nat, (-e1) as nat);
        assert(2 * p2 <= p1);
        assert(2 * (num * p2) <= num * p1) by (nonlinear_arith)
            requires
                2 * p2 <= p1,
                num >= 0,
        ;
    } else {
        let p1 = pow2((-e1) as nat) as int;
        let p2 = pow2(e2 as nat) as int;
        lemma2_to64();
        lemma_pow2_below(1, (-e1) as nat);
        lemma_pow2_below(0, e2 as nat);
        assert(2 * num <= num * p1) by (nonlinear_arith)
            requires
                2 <= p1,
                num >= 0,
        ;
        assert(a * den <= a * (den * p2)) by (nonlinear_arith)
            requires
                1 <= p2,
                a > 0,
                den > 0,
        ;
    }
}

/// An exponent whose power of two is below `2^128` is below 128.
pub proof fn lemma_pow2_exponent_below_128(e: nat)
    requires
        pow2(e) < 0x1_0000_0000_0000_0000_0000_0000_0000_0000,
    ensures
        e < 128,
{
    if e >= 128 {
        lemma2_to64();
        lemma_pow2_adds(64, 64);
        lemma_pow2_below(128, e);
    }
}

impl Binary {
    /// Rounds `num / den` to 53 significant bits, for a denominator of at
    /// most `2^53`.
    pub fn nearest(num: u128, den: u128) -> (b: Binary)
        requires
            0 < num,
            0 < den <= 0x20_0000_0000_0000,
        ensures
            b@ == nearest(num as nat, den as nat),
            in_binade(num as nat, den as nat, b.exp as int),
            0x10_0000_0000_0000 <= b.mant <= 0x20_0000_0000_0000,
            -128 < b.exp < 128,
    {
        proof {
            lemma2_to64();
            lemma2_to64_rest();
        }
        if num / 0x10_0000_0000_0000 >= den {
            let mut d: u128 = den;
            let mut e: i32 = 0;
            assert(den * pow2(0) == den) by (nonlinear_arith)
                requires
                    pow2(0) == 1,
            ;
            while num / 0x20_0000_0000_0000 >= d
                invariant
                    0 < den,
                    0 <= e,
                    0 < d,
                    d == den * pow2(e as nat),
                    0x10_0000_0000_0000 * d <= num,
                decreases num - d,
            {
                proof {
                    let p = pow2(e as nat) as int;
                    lemma_pow2_unfold((e + 1) as nat);
                    assert(den * (2 * p) == 2 * (den * p)) by (nonlinear_arith);
                    assert(p <= den * p) by (nonlinear_arith)
                        requires
                            den >= 1,
                            p >= 0,
                    ;
                    lemma_pow2_exponent_below_128(e as nat);
                }
                d = d * 2;
                e = e + 1;
            }
            proof {
                let p = pow2(e as nat) as int;
                assert(p <= den * p) by (nonlinear_arith)
                    requires
                        den >= 1,
                        p >= 0,
                ;
                lemma_pow2_exponent_below_128(e as nat);
                lemma_multiply_divide_lt(num as int, d as int, 0x20_0000_0000_0000);
                lemma_multiply_divide_le_lower(0x10_0000_0000_0000, d as int, num as int);
                assert(in_binade(num as nat, den as nat, e as int));
                lemma_binade_unique(
                    num as nat,
                    den as nat,
                    e as int,
                    binade(num as nat, den as nat),
                );
            }
            let m = round_div(num, d);
            Binary { mant: m as u64, exp: e }
        } else {
            let mut n: u128 = num;
            let mut k: i32 = 0;
            assert(num * pow2(0) == num) by (nonlinear_arith)
                requires
                    pow2(0) == 1,
            ;
            while n / 0x10_0000_0000_0000 < den
                invariant
                    0 < num,
                    0 < den <= 0x20_0000_0000_0000,
                    0 <= k,
                    0 < n,
                    n == num * pow2(k as nat),
                    n < 0x20_0000_0000_0000 * den,
                    k == 0 ==> n == num,
                decreases 0x20_0000_0000_0000 * den - n,
            {
                proof {
                    let p = pow2(k as nat) as int;
                    lemma_pow2_unfold((k + 1) as nat);
                    assert(num * (2 * p) == 2 * (num * p)) by (nonlinear_arith);
                    assert(p <= num * p) by (nonlinear_arith)
                        requires
                            num >= 1,
                            p >= 0,
                    ;
                    lemma_pow2_exponent_below_128(k as nat);
                }
                n = n * 2;
                k = k + 1;
            }
            proof {
                let p = pow2(k as nat) as int;
                assert(p <= num * p) by (nonlinear_arith)
                    requires
                        num >= 1,
                        p >= 0,
                ;
                lemma_pow2_exponent_below_128(k as nat);
                lemma_multiply_divide_lt(n as int, den as int, 0x20_0000_0000_0000);
                lemma_multiply_divide_le_lower(0x10_0000_0000_0000, den as int, n as int);
                assert(in_binade(num as nat, den as nat, -(k as int)));
                lemma_binade_unique(
                    num as nat,
                    den as nat,
                    -(k as int),
                    binade(num as nat, den as nat),
                );
            }
            let m = round_div(n, den);
            Binary { mant: m as u64, exp: -k }
        }
    }
}

/// A dividend of at least `c` times the divisor gives a quotient of at least `c`.
pub proof fn lemma_multiply_divide_le_lower(c: int, d: int, x: int)
    requires
        0 < d,
        0 <= c,
        c * d <= x,
    ensures
        c <= x / d,
{
    lemma_div_is_ordered(c * d, x, d);
    lemma_div_multiples_vanish(c, d);
    assert(c * d == d * c) by (nonlinear_arith);
}


/// The quotient of `n` by `d` as a double-precision machine takes it: `n` is
/// rounded to 53 significant bits, and so is the quotient of that by `d`.
pub open spec fn quotient(n: nat, d: nat) -> BinaryView
    recommends
        n > 0,
        d > 0,
{
    let dividend = nearest(n, 1);
    let ratio = nearest(dividend.mant, d);
    BinaryView { mant: ratio.mant, exp: dividend.exp + ratio.exp }
}

/// The number of tenths nearest to a magnitude; of two equally near, the even
/// one.
pub open spec fn tenths(b: BinaryView) -> nat {
    if b.exp >= 0 {
        10 * (b.mant * pow2(b.exp as nat))
    } else {
        round_ties_even(10 * b.mant, pow2((-b.exp) as nat))
    }
}

/// The number of tenths shown for the quotient of the reading `n` by the unit
/// `d`.
pub open spec fn quotient_tenths(n: nat, d: nat) -> nat
    recommends
        d > 0,
{
    if n == 0 {
        0
    } else {
        tenths(quotient(n, d))
    }
}

/// An exponent whose power of two is below that of `bound` is below `bound`.
pub proof fn lemma_pow2_exponent_below(e: nat, bound: nat)
    requires
        pow2(e) < pow2(bound),
    ensures
        e < bound,
{
    if e >= bound {
        lemma_pow2_below(bound, e);
    }
}

impl Binary {
    /// Takes the quotient of `n` by `d` as a double-precision machine does,
    /// for a unit of at most `2^53`, which such a machine holds as it is, and
    /// a quotient below `2^126`.
    pub fn quotient(n: u128, d: u64) -> (b: Binary)
        requires
            0 < n,
            0 < d <= 0x20_0000_0000_0000,
            n / 0x4000_0000_0000_0000_0000_0000_0000_0000 < d,
        ensures
            b@ == quotient(n as nat, d as nat),
            b.mant <= 0x20_0000_0000_0000,
            -256 < b.exp <= 74,
    {
        let dividend = Binary::nearest(n, 1);
        let ratio = Binary::nearest(dividend.mant as u128, d as u128);
        proof {
            lemma2_to64();
            lemma2_to64_rest();
            let e1 = dividend.exp as int;
            let e2 = ratio.exp as int;
            if e2 >= 0 {
                let p2 = pow2(e2 as nat) as int;
                let dp = d * p2;
                assert(dp <= 2) by (nonlinear_arith)
                    requires
                        0x10_0000_0000_0000 * dp <= 0x20_0000_0000_0000,
                ;
                lemma_pow2_pos(e2 as nat);
                assert(p2 <= dp && d <= dp) by (nonlinear_arith)
                    requires
                        dp == d * p2,
                        d >= 1,
                        p2 >= 1,
                ;
                lemma_pow2_exponent_below(e2 as nat, 2);
                if d >= 2 {
                    assert(p2 * 2 <= 2) by (nonlinear_arith)
                        requires
                            d * p2 <= 2,
                            d >= 2,
                            p2 >= 1,
                    ;
                    lemma_pow2_exponent_below(e2 as nat, 1);
                }
            }
            if e1 >= 0 {
                let p1 = pow2(e1 as nat) as int;
                assert(1 * p1 == p1) by (nonlinear_arith);
                lemma_pow2_adds(52, e1 as nat);
                lemma_pow2_adds(64, 62);
                lemma_pow2_adds(64, 63);
                lemma_pow2_adds(64, 64);
                assert(pow2((52 + e1) as nat) <= n);
                if e2 >= 0 {
                    if d == 1 {
                        assert(pow2((52 + e1) as nat) < pow2(126));
                        lemma_pow2_exponent_below((52 + e1) as nat, 126);
                    } else {
                        assert(d == 2);
                        assert(pow2((52 + e1) as nat) < pow2(127));
                        lemma_pow2_exponent_below((52 + e1) as nat, 127);
                    }
                } else {
                    assert(pow2((52 + e1) as nat) < pow2(128));
                    lemma_pow2_exponent_below((52 + e1) as nat, 128);
                }
            }
        }
        Binary { mant: ratio.mant, exp: dividend.exp + ratio.exp }
    }

    /// Rounds the magnitude to tenths and parts the whole units from the last
    /// digit, for a magnitude below `2^128`.
    pub fn tenths(&self) -> (t: (u128, u8))
        requires
            self.exp > i32::MIN,
            self.exp >= 0 ==> self.mant * pow2(self.exp as nat) <= u128::MAX,
        ensures
            t.0 == tenths(self@) / 10,
            t.1 == tenths(self@) % 10,
    {
        proof {
            lemma2_to64();
            lemma2_to64_rest();
        }
        if self.mant == 0 {
            proof {
                if self.exp >= 0 {
                    assert(0 * pow2(self.exp as nat) == 0) by (nonlinear_arith);
                } else {
                    lemma_pow2_pos((-self.exp) as nat);
                    lemma_basic_div(0, pow2((-self.exp) as nat) as int);
                    lemma_small_mod(0, pow2((-self.exp) as nat));
                }
            }
            (0, 0)
        } else if self.exp >= 0 {
            proof {
                let p = pow2(self.exp as nat) as int;
                assert(p <= self.mant * p) by (nonlinear_arith)
                    requires
                        self.mant >= 1,
                        p >= 0,
                ;
                lemma_pow2_exponent_below_128(self.exp as nat);
            }
            let p = power_of_two(self.exp as u32);
            let whole = (self.mant as u128) * p;
            (whole, 0)
        } else {
            let k: u32 = (-self.exp) as u32;
            let num: u128 = 10 * (self.mant as u128);
            if k >= 70 {
                proof {
                    lemma_pow2_adds(64, 6);
                    lemma_pow2_below(70, k as nat);
                    lemma_basic_div(num as int, pow2(k as nat) as int);
                    lemma_small_mod(num as nat, pow2(k as nat));
                }
                (0, 0)
            } else {
                let p = power_of_two(k);
                proof {
                    lemma_pow2_pos(k as nat);
                    lemma_div_basics_5(num as int, p as int);
                }
                let t = round_div(num, p);
                (t / 10, (t % 10) as u8)
            }
        }
    }
}


/// Rounding a quotient gives the same for numerator and denominator both
/// multiplied by `k`.
pub proof fn lemma_round_scaled(a: nat, b: nat, k: nat)
    requires
        b > 0,
        k > 0,
    ensures
        round_ties_even(k * a, k * b) == round_ties_even(a, b),
{
    lemma_div_multiples_vanish_quotient(k as int, a as int, b as int);
    lemma_truncate_middle(a as int, k as int, b as int);
    let r = a % b;
    assert(2 * (k * r) < k * b <==> 2 * r < b) by (nonlinear_arith)
        requires
            k > 0,
    ;
    assert(2 * (k * r) == k * b <==> 2 * r == b) by (nonlinear_arith)
        requires
            k > 0,
    ;
}

/// A number over one is itself.
pub proof fn lemma_round_unit(x: nat)
    ensures
        round_ties_even(x, 1) == x,
{
    lemma_div_basics_2(x as int);
    lemma_mod_multiples_basic(x as int, 1);
    assert(x * 1 == x) by (nonlinear_arith);
}

/// Rounding gives the same for two quotients that are equal as fractions.
pub proof fn lemma_round_same(a: nat, b: nat, c: nat, d: nat)
    requires
        b > 0,
        d > 0,
        a * d == c * b,
    ensures
        round_ties_even(a, b) == round_ties_even(c, d),
{
    lemma_round_scaled(a, b, d);
    lemma_round_scaled(c, d, b);
    assert(d * b == b * d) by (nonlinear_arith);
    assert(d * a == a * d && b * c == c * b) by (nonlinear_arith);
}

/// Whether `e` is the exponent of a quotient, and the mantissa under it, go
/// by the quotient as a fraction only.
pub proof fn lemma_binade_same(num: nat, den: nat, num2: nat, den2: nat, e: int)
    requires
        den > 0,
        den2 > 0,
        num * den2 == num2 * den,
        in_binade(num, den, e),
    ensures
        in_binade(num2, den2, e),
        mantissa_at(num2, den2, e) == mantissa_at(num, den, e),
{
    lemma2_to64_rest();
    let a: int = pow2(52) as int;
    if e >= 0 {
        let p = pow2(e as nat);
        lemma_pow2_pos(e as nat);
        assert(a * (den2 * p) <= num2 < 2 * a * (den2 * p)) by (nonlinear_arith)
            requires
                a * (den * p) <= num < 2 * a * (den * p),
                num * den2 == num2 * den,
                den > 0,
                den2 > 0,
                p > 0,
                a > 0,
        ;
        assert(num * (den2 * p) == num2 * (den * p)) by (nonlinear_arith)
            requires
                num * den2 == num2 * den,
        ;
        assert(den * p > 0 && den2 * p > 0) by (nonlinear_arith)
            requires
                den > 0,
                den2 > 0,
                p > 0,
        ;
        lemma_round_same(num, den * p, num2, den2 * p);
    } else {
        let q = pow2((-e) as nat);
        lemma_pow2_pos((-e) as nat);
        assert(a * den2 <= num2 * q < 2 * a * den2) by (nonlinear_arith)
            requires
                a * den <= num * q < 2 * a * den,
                num * den2 == num2 * den,
                den > 0,
                den2 > 0,
                q > 0,
                a > 0,
        ;
        assert((num * q) * den2 == (num2 * q) * den) by (nonlinear_arith)
            requires
                num * den2 == num2 * den,
        ;
        lemma_round_same(num * q, den, num2 * q, den2);
    }
}

/// A numerator multiplied by `2^j` has an exponent greater by `j` and the
/// same mantissa.
pub proof fn lemma_binade_shifted(num: nat, den: nat, e: int, j: nat)
    requires
        den > 0,
        in_binade(num, den, e),
    ensures
        in_binade(num * pow2(j), den, e + j),
        mantissa_at(num * pow2(j), den, e + j) == mantissa_at(num, den, e),
{
    lemma2_to64_rest();
    let a: int = pow2(52) as int;
    let pj = pow2(j);
    lemma_pow2_pos(j);
    if e >= 0 {
        let pe = pow2(e as nat);
        lemma_pow2_pos(e as nat);
        lemma_pow2_adds(e as nat, j);
        let dp = den * pe;
        assert(den * (pe * pj) == pj * dp) by (nonlinear_arith)
            requires
                dp == den * pe,
        ;
        assert(a * (pj * dp) <= num * pj < 2 * a * (pj * dp)) by (nonlinear_arith)
            requires
                a * dp <= num < 2 * a * dp,
                pj > 0,
        ;
        assert(num * pj == pj * num) by (nonlinear_arith);
        assert(dp > 0) by (nonlinear_arith)
            requires
                dp == den * pe,
                den > 0,
                pe > 0,
        ;
        lemma_round_scaled(num, dp, pj);
    } else if e + j >= 0 {
        let q = pow2((-e) as nat);
        let pr = pow2((e + j) as nat);
        lemma_pow2_pos((e + j) as nat);
        lemma_pow2_adds((-e) as nat, (e + j) as nat);
        assert(pj == q * pr);
        let nq = num * q;
        assert(num * (q * pr) == pr * nq) by (nonlinear_arith)
            requires
                nq == num * q,
        ;
        assert(den * pr == pr * den) by (nonlinear_arith);
        assert(a * (pr * den) <= pr * nq < 2 * a * (pr * den)) by (nonlinear_arith)
            requires
                a * den <= nq < 2 * a * den,
                pr > 0,
        ;
        lemma_round_scaled(nq, den, pr);
    } else {
        let q = pow2((-e) as nat);
        let pr = pow2((-e - j) as nat);
        lemma_pow2_adds(j, (-e - j) as nat);
        assert(q == pj * pr);
        assert((num * pj) * pr == num * (pj * pr)) by (nonlinear_arith);
    }
}

proof fn lemma_binade_exists_above(num: nat, den: nat, e: nat)
    requires
        den > 0,
        pow2(52) * (den * pow2(e)) <= num,
    ensures
        exists|x: int| in_binade(num, den, x),
    decreases num - pow2(52) * (den * pow2(e)),
{
    lemma2_to64_rest();
    let a: int = pow2(52) as int;
    let p = pow2(e);
    lemma_pow2_pos(e);
    if num < pow2(53) * (den * p) {
        assert(in_binade(num, den, e as int));
    } else {
        lemma_pow2_unfold(e + 1);
        let p2 = pow2(e + 1);
        assert(a * (den * p2) == 2 * a * (den * p)) by (nonlinear_arith)
            requires
                p2 == 2 * p,
        ;
        assert(a * (den * p) > 0) by (nonlinear_arith)
            requires
                a > 0,
                den > 0,
                p > 0,
        ;
        lemma_binade_exists_above(num, den, e + 1);
    }
}

proof fn lemma_binade_exists_below(num: nat, den: nat, k: nat)
    requires
        num > 0,
        den > 0,
        k > 0,
        num * pow2(k) < pow2(53) * den,
    ensures
        exists|x: int| in_binade(num, den, x),
    decreases pow2(53) * den - num * pow2(k),
{
    lemma2_to64_rest();
    let q = pow2(k);
    lemma_pow2_pos(k);
    if pow2(52) * den <= num * q {
        assert(in_binade(num, den, -(k as int)));
    } else {
        lemma_pow2_unfold(k + 1);
        let q2 = pow2(k + 1);
        assert(num * q2 == 2 * (num * q)) by (nonlinear_arith)
            requires
                q2 == 2 * q,
        ;
        assert(num * q > 0) by (nonlinear_arith)
            requires
                num > 0,
                q > 0,
        ;
        lemma_binade_exists_below(num, den, k + 1);
    }
}

/// Every quotient of positive numbers has an exponent.
pub proof fn lemma_binade_exists(num: nat, den: nat)
    requires
        num > 0,
        den > 0,
    ensures
        in_binade(num, den, binade(num, den)),
{
    lemma2_to64();
    lemma2_to64_rest();
    assert(den * pow2(0) == den) by (nonlinear_arith)
        requires
            pow2(0) == 1,
    ;
    if pow2(52) * den <= num {
        lemma_binade_exists_above(num, den, 0);
    } else {
        assert(num * pow2(1) == 2 * num) by (nonlinear_arith)
            requires
                pow2(1) == 2,
        ;
        lemma_binade_exists_below(num, den, 1);
    }
}

/// The nearest number of 53 bits goes by the quotient as a fraction only.
pub proof fn lemma_nearest_same(num: nat, den: nat, num2: nat, den2: nat)
    requires
        num > 0,
        den > 0,
        den2 > 0,
        num * den2 == num2 * den,
    ensures
        nearest(num2, den2) == nearest(num, den),
{
    lemma_binade_exists(num, den);
    let e = binade(num, den);
    lemma_binade_same(num, den, num2, den2, e);
    lemma_binade_unique(num2, den2, e, binade(num2, den2));
}

/// The nearest number of 53 bits to a quotient whose numerator is multiplied
/// by `2^j` has the same mantissa and an exponent greater by `j`.
pub proof fn lemma_nearest_shifted(num: nat, den: nat, j: nat)
    requires
        num > 0,
        den > 0,
    ensures
        nearest(num * pow2(j), den) == (BinaryView {
            mant: nearest(num, den).mant,
            exp: nearest(num, den).exp + j,
        }),
{
    lemma_binade_exists(num, den);
    let e = binade(num, den);
    lemma_binade_shifted(num, den, e, j);
    lemma_binade_unique(num * pow2(j), den, e + j, binade(num * pow2(j), den));
}

/// A dividend that has no more than 53 bits is not rounded: its quotient is
/// rounded once.
pub proof fn lemma_quotient_once(n: nat, d: nat)
    requires
        0 < n < 0x20_0000_0000_0000,
        d > 0,
    ensures
        quotient(n, d) == nearest(n, d),
{
    lemma2_to64();
    lemma2_to64_rest();
    lemma_binade_exists(n, 1);
    let e1 = binade(n, 1);
    if e1 >= 1 {
        lemma_pow2_below(1, e1 as nat);
        let p = pow2(e1 as nat);
        assert(1 * p == p) by (nonlinear_arith);
    }
    let k = (-e1) as nat;
    let p = pow2(k);
    lemma_round_unit(n * p);
    assert(1 * p == p && (k == 0 ==> n * p == n)) by (nonlinear_arith)
        requires
            k == 0 ==> p == 1,
    ;
    assert(nearest(n, 1).mant == n * p);
    lemma_nearest_shifted(n, d, k);
}

/// A reading and a unit both multiplied by `k` give the same quotient, as far
/// as the reading multiplied has no more than 53 bits.
pub proof fn lemma_quotient_scaled(n: nat, d: nat, k: nat)
    requires
        n > 0,
        d > 0,
        k > 0,
        k * n < 0x20_0000_0000_0000,
    ensures
        quotient(k * n, k * d) == quotient(n, d),
        quotient_tenths(k * n, k * d) == quotient_tenths(n, d),
{
    assert(n <= k * n && k * n > 0 && k * d > 0) by (nonlinear_arith)
        requires
            n > 0,
            d > 0,
            k > 0,
    ;
    lemma_quotient_once(n, d);
    lemma_quotient_once(k * n, k * d);
    assert(n * (k * d) == (k * n) * d) by (nonlinear_arith);
    lemma_nearest_same(n, d, k * n, k * d);
}

/// A reading that is a whole number of units is shown as that number and no
/// tenths, as far as the reading has no more than 53 bits.
pub proof fn lemma_quotient_whole(w: nat, d: nat)
    requires
        d > 0,
        w * d < 0x20_0000_0000_0000,
    ensures
        quotient_tenths(w * d, d) == 10 * w,
{
    if w == 0 {
        assert(0 * d == 0) by (nonlinear_arith);
    } else {
        lemma2_to64();
        lemma2_to64_rest();
        assert(w <= w * d && w * d > 0) by (nonlinear_arith)
            requires
                w > 0,
                d > 0,
        ;
        lemma_quotient_once(w * d, d);
        assert(w * d == (w * d) * 1) by (nonlinear_arith);
        lemma_nearest_same(w, 1, w * d, d);
        lemma_quotient_once(w, 1);
        lemma_binade_exists(w, 1);
        let e = binade(w, 1);
        if e >= 1 {
            lemma_pow2_below(1, e as nat);
            let p = pow2(e as nat);
            assert(1 * p == p) by (nonlinear_arith);
        }
        let k = (-e) as nat;
        let p = pow2(k);
        lemma_pow2_pos(k);
        assert(1 * p == p) by (nonlinear_arith);
        lemma_round_unit(w * p);
        lemma_round_unit(10 * w);
        lemma_round_scaled(10 * w, 1, p);
        assert(1 * p == p && p * 1 == p && p * (10 * w) == 10 * (w * p) && (k == 0 ==> w * p
            == w)) by (nonlinear_arith)
            requires
                k == 0 ==> p == 1,
        ;
        assert(nearest(w, 1).mant == w * p);
    }
}


/// A rounded quotient, multiplied by the divisor, is no further from the
/// dividend than half the divisor.
pub proof fn lemma_round_near(a: nat, b: nat)
    requires
        b > 0,
    ensures
        -b <= 2 * (round_ties_even(a, b) * b - a) <= b,
{
    lemma_fundamental_div_mod(a as int, b as int);
    let q = a / b;
    let r = a % b;
    assert((q + 1) * b == q * b + b && b * q == q * b) by (nonlinear_arith);
}

/// The figure shown is less than a tenth away from the quotient of the
/// reading by the unit, for every reading below `2^49`; and no more than half
/// a tenth away, so that it is one of the tenths nearest to the quotient, for
/// every reading whose tenfold is below `2^52`.
pub proof fn lemma_quotient_near(n: nat, d: nat)
    requires
        n < 0x2_0000_0000_0000,
        d > 0,
    ensures
        10 * n - d < quotient_tenths(n, d) * d < 10 * n + d,
        10 * n < 0x10_0000_0000_0000 ==> -d <= 2 * (quotient_tenths(n, d) * d - 10 * n) <= d,
{
    if n > 0 {
        lemma2_to64();
        lemma2_to64_rest();
        lemma_quotient_once(n, d);
        lemma_binade_exists(n, d);
        let e = binade(n, d);
        let m = mantissa_at(n, d, e);
        let t = quotient_tenths(n, d);
        if e >= 0 {
            let p = pow2(e as nat);
            lemma_pow2_pos(e as nat);
            assert(false) by (nonlinear_arith)
                requires
                    0x10_0000_0000_0000 * (d * p) <= n,
                    n < 0x2_0000_0000_0000,
                    d >= 1,
                    p >= 1,
            ;
        }
        let k = (-e) as nat;
        let p = pow2(k);
        assert(p > 8) by (nonlinear_arith)
            requires
                0x10_0000_0000_0000 * d <= n * p,
                n < 0x2_0000_0000_0000,
                d >= 1,
        ;
        if k < 4 {
            lemma_pow2_below(k, 3);
        }
        lemma_pow2_below(4, k);
        assert(p >= 16);
        lemma_round_near(n * p, d);
        lemma_round_near(10 * m, p);
        let x = t * d - 10 * n;
        let d1 = m * d - n * p;
        let d2 = t * p - 10 * m;
        assert(x * p == d2 * d + 10 * d1) by (nonlinear_arith)
            requires
                x == t * d - 10 * n,
                d1 == m * d - n * p,
                d2 == t * p - 10 * m,
        ;
        assert(-d < x < d) by (nonlinear_arith)
            requires
                x * p == d2 * d + 10 * d1,
                -d <= 2 * d1 <= d,
                -p <= 2 * d2 <= p,
                p >= 16,
                d > 0,
        ;
        if 10 * n < 0x10_0000_0000_0000 {
            assert(10 * d < p) by (nonlinear_arith)
                requires
                    0x10_0000_0000_0000 * d <= n * p,
                    10 * n < 0x10_0000_0000_0000,
                    d >= 1,
                    p >= 1,
            ;
            assert(-d <= 2 * x <= d) by (nonlinear_arith)
                requires
                    x * p == d2 * d + 10 * d1,
                    -d <= 2 * d1 <= d,
                    -p <= 2 * d2 <= p,
                    10 * d < p,
                    d > 0,
            ;
        }
    } else {
        assert(0 * d == 0) by (nonlinear_arith);
    }
}

/// Of two dividends over one divisor, the greater is rounded to no less.
pub proof fn lemma_round_ordered(a1: nat, a2: nat, b: nat)
    requires
        b > 0,
        a1 <= a2,
    ensures
        round_ties_even(a1, b) <= round_ties_even(a2, b),
{
    lemma_fundamental_div_mod(a1 as int, b as int);
    lemma_fundamental_div_mod(a2 as int, b as int);
    lemma_div_is_ordered(a1 as int, a2 as int, b as int);
    let q1 = a1 / b;
    let q2 = a2 / b;
    if q1 == q2 {
        assert(a1 % b <= a2 % b);
    }
}

/// A whole multiple of the divisor is rounded to the multiplier.
pub proof fn lemma_round_multiple(c: nat, b: nat)
    requires
        b > 0,
    ensures
        round_ties_even(c * b, b) == c,
{
    lemma_round_scaled(c, 1, b);
    lemma_round_unit(c);
    assert(b * c == c * b && b * 1 == b) by (nonlinear_arith);
}

/// Of two readings over one unit, the greater is shown as no less, for
/// readings below `2^52`.
pub proof fn lemma_quotient_ordered(n1: nat, n2: nat, d: nat)
    requires
        n1 <= n2 < 0x10_0000_0000_0000,
        d > 0,
    ensures
        quotient_tenths(n1, d) <= quotient_tenths(n2, d),
{
    if n1 > 0 {
        lemma2_to64();
        lemma2_to64_rest();
        lemma_quotient_once(n1, d);
        lemma_quotient_once(n2, d);
        lemma_binade_exists(n1, d);
        lemma_binade_exists(n2, d);
        let e1 = binade(n1, d);
        let e2 = binade(n2, d);
        let a: int = 0x10_0000_0000_0000;
        if e1 >= 0 {
            let p = pow2(e1 as nat);
            lemma_pow2_pos(e1 as nat);
            assert(false) by (nonlinear_arith)
                requires
                    a * (d * p) <= n1,
                    n1 < a,
                    d >= 1,
                    p >= 1,
                    a == 0x10_0000_0000_0000,
            ;
        }
        if e2 >= 0 {
            let p = pow2(e2 as nat);
            lemma_pow2_pos(e2 as nat);
            assert(false) by (nonlinear_arith)
                requires
                    a * (d * p) <= n2,
                    n2 < a,
                    d >= 1,
                    p >= 1,
                    a == 0x10_0000_0000_0000,
            ;
        }
        let k1 = (-e1) as nat;
        let k2 = (-e2) as nat;
        let p1 = pow2(k1);
        let p2 = pow2(k2);
        lemma_pow2_pos(k1);
        lemma_pow2_pos(k2);
        let m1 = round_ties_even(n1 * p1, d);
        let m2 = round_ties_even(n2 * p2, d);
        if k1 < k2 {
            lemma_pow2_unfold(k1 + 1);
            lemma_pow2_below(k1 + 1, k2);
            assert(false) by (nonlinear_arith)
                requires
                    2 * p1 <= p2,
                    n1 <= n2,
                    a * d <= n1 * p1,
                    n2 * p2 < 2 * a * d,
                    p1 > 0,
            ;
        } else if k1 == k2 {
            assert(n1 * p1 <= n2 * p1) by (nonlinear_arith)
                requires
                    n1 <= n2,
                    p1 > 0,
            ;
            lemma_round_ordered(n1 * p1, n2 * p1, d);
            lemma_round_ordered(10 * m1, 10 * m2, p1);
        } else {
            let j = (k1 - k2) as nat;
            let pj = pow2(j);
            lemma_pow2_adds(k2, j);
            lemma_pow2_below(1, j);
            assert(p1 == p2 * pj && pj >= 2);
            let top: nat = 0x20_0000_0000_0000;
            assert(top * d == d * top && a * d == d * a) by (nonlinear_arith);
            lemma_round_ordered(n1 * p1, top * d, d);
            lemma_round_multiple(top, d);
            lemma_round_ordered(a as nat * d, n2 * p2, d);
            lemma_round_multiple(a as nat, d);
            assert(m1 <= top && a <= m2);
            lemma_round_ordered(10 * m1, 10 * top, p1);
            lemma_round_ordered(10 * a as nat, 10 * m2, p2);
            lemma_round_scaled(10 * a as nat, p2, pj);
            assert(pj * p2 == p1) by (nonlinear_arith)
                requires
                    p1 == p2 * pj,
            ;
            assert(10 * top <= pj * (10 * a as nat)) by (nonlinear_arith)
                requires
                    pj >= 2,
                    top == 2 * a,
                    a > 0,
            ;
            lemma_round_ordered(10 * top, pj * (10 * a as nat), p1);
        }
    }
}

} // verus!
