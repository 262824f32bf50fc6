//! Numbers as text with one decimal place.

use vstd::prelude::*;
use vstd::arithmetic::power2::*;
use crate::binary::{
    lemma_pow2_below, lemma_round_multiple, lemma_round_ordered, quotient_tenths, tenths, Binary,
    BinaryView,
};
use crate::decimal::{
    decimal, digit_char, digit_str, is_digit, lemma_decimal_digits, lemma_decimal_short,
    push_decimal,
};

verus! {

/// The text of `t` tenths: the whole units, a point, one digit.
pub open spec fn fixed1(t: nat) -> Seq<char> {
    decimal(t / 10) + seq!['.'] + seq![digit_char(t % 10)]
}

/// The text with one decimal of the quotient of the reading `n` by the unit
/// `d`.
pub open spec fn quotient_fixed1(n: nat, d: nat) -> Seq<char>
    recommends
        d > 0,
{
    fixed1(quotient_tenths(n, d))
}

/// A figure with one decimal is made of digits, at least one, then a point,
/// then one digit, whatever the number and wherever it is written.
pub proof fn lemma_fixed1_shape(t: nat)
    ensures
        ({
            let text = fixed1(t);
            &&& text.len() >= 3
            &&& forall|i: int| 0 <= i < text.len() - 2 ==> is_digit(#[trigger] text[i])
            &&& text[text.len() - 2] == '.'
            &&& is_digit(text[text.len() - 1])
        }),
{
    lemma_decimal_digits(t / 10);
    let text = fixed1(t);
    assert forall|i: int| 0 <= i < text.len() - 2 implies is_digit(#[trigger] text[i]) by {
        assert(text[i] == decimal(t / 10)[i]);
    }
}

/// Appends the text of `10 * whole + tenth` tenths to `out`.
pub fn push_fixed1(out: &mut String, whole: u128, tenth: u8)
    requires
        tenth < 10,
    ensures
        final(out)@ == old(out)@ + fixed1((10 * whole + tenth) as nat),
{
    push_decimal(out, whole);
    proof {
        reveal_strlit(".");
    }
    out.append(".");
    out.append(digit_str(tenth));
    assert(out@ =~= old(out)@ + fixed1((10 * whole + tenth) as nat));
}

/// Appends to `out` the text with one decimal of the quotient of `n` by `d`,
/// for a unit of at most `2^53` and a quotient below `2^126`.
pub fn push_quotient_fixed1(out: &mut String, n: u128, d: u64)
    requires
        0 < d <= 0x20_0000_0000_0000,
        n / 0x4000_0000_0000_0000_0000_0000_0000_0000 < d,
    ensures
        final(out)@ == old(out)@ + quotient_fixed1(n as nat, d as nat),
{
    if n == 0 {
        push_fixed1(out, 0, 0);
    } else {
        let q = Binary::quotient(n, d);
        proof {
            if q.exp >= 0 {
                lemma_value_fits(q.mant as nat, q.exp as nat);
            }
        }
        let t = q.tenths();
        push_fixed1(out, t.0, t.1);
    }
}

/// A mantissa of at most 53 bits under an exponent of at most 74 is below
/// `2^128`.
proof fn lemma_value_fits(mant: nat, exp: nat)
    requires
        mant <= 0x20_0000_0000_0000,
        exp <= 74,
    ensures
        mant * pow2(exp) <= u128::MAX,
{
    lemma2_to64();
    lemma_pow2_adds(64, 10);
    lemma_pow2_below(exp, 74);
    let p = pow2(exp);
    assert(mant * p <= 0x20_0000_0000_0000 * 0x400_0000_0000_0000_0000) by (nonlinear_arith)
        requires
            mant <= 0x20_0000_0000_0000,
            p <= 0x400_0000_0000_0000_0000,
    ;
}

/// Whether the single-precision bit pattern has its sign bit set.
pub open spec fn single_negative(bits: u32) -> bool {
    bits >= 0x8000_0000
}

/// The exponent field of a single-precision bit pattern.
pub open spec fn single_exponent(bits: u32) -> nat {
    ((bits / 0x80_0000) % 256) as nat
}

/// The fraction field of a single-precision bit pattern.
pub open spec fn single_fraction(bits: u32) -> nat {
    (bits % 0x80_0000) as nat
}

/// The magnitude of the finite number that a single-precision bit pattern
/// stands for.
pub open spec fn single_magnitude(bits: u32) -> BinaryView
    recommends
        single_exponent(bits) < 255,
{
    if single_exponent(bits) == 0 {
        BinaryView { mant: single_fraction(bits), exp: -149 }
    } else {
        BinaryView { mant: 0x80_0000 + single_fraction(bits), exp: single_exponent(bits) - 150 }
    }
}

/// The text with one decimal of the number that a single-precision bit pattern
/// stands for: `NaN`, `inf` or `-inf` for what is no finite number, else the
/// sign, where it is set, and the magnitude in tenths.
pub open spec fn single_fixed1(bits: u32) -> Seq<char> {
    if single_exponent(bits) == 255 {
        if single_fraction(bits) != 0 {
            "NaN"@
        } else if single_negative(bits) {
            "-inf"@
        } else {
            "inf"@
        }
    } else if single_negative(bits) {
        "-"@ + fixed1(tenths(single_magnitude(bits)))
    } else {
        fixed1(tenths(single_magnitude(bits)))
    }
}

/// The text with one decimal of the number that a single-precision bit pattern
/// stands for.
pub fn single_text(bits: u32) -> (text: String)
    ensures
        text@ == single_fixed1(bits),
{
    let negative = bits >= 0x8000_0000;
    let exponent: u32 = (bits / 0x80_0000) % 256;
    let fraction: u32 = bits % 0x80_0000;
    if exponent == 255 {
        if fraction != 0 {
            String::from_str("NaN")
        } else if negative {
            String::from_str("-inf")
        } else {
            String::from_str("inf")
        }
    } else {
        let magnitude = if exponent == 0 {
            Binary { mant: fraction as u64, exp: -149 }
        } else {
            Binary { mant: (0x80_0000 + fraction) as u64, exp: exponent as i32 - 150 }
        };
        proof {
            if magnitude.exp >= 0 {
                lemma2_to64();
                lemma2_to64_rest();
                lemma_pow2_adds(64, 40);
                lemma_pow2_below(magnitude.exp as nat, 104);
                let m = magnitude.mant as nat;
                let p = pow2(magnitude.exp as nat);
                assert(m * p <= 0xff_ffff * 0x100_0000_0000_0000_0000_0000_0000) by (nonlinear_arith)
                    requires
                        m <= 0xff_ffff,
                        p <= 0x100_0000_0000_0000_0000_0000_0000,
                ;
            }
        }
        let t = magnitude.tenths();
        let mut text = String::new();
        if negative {
            text.append("-");
        }
        push_fixed1(&mut text, t.0, t.1);
        proof {
            let shown = tenths(magnitude@);
            assert(10 * t.0 + t.1 == shown);
            assert(text@ =~= single_fixed1(bits));
        }
        text
    }
}

/// The bits of the single-precision number one hundred.
pub const SINGLE_HUNDRED: u32 = 0x42C8_0000;

/// A number from zero to one hundred is shown in no more than a thousand
/// tenths, and so in no more than five characters.
pub proof fn lemma_single_up_to_hundred(bits: u32)
    requires
        bits <= SINGLE_HUNDRED,
    ensures
        single_exponent(bits) < 255,
        !single_negative(bits),
        tenths(single_magnitude(bits)) <= 1000,
        3 <= single_fixed1(bits).len() <= 5,
{
    lemma2_to64();
    lemma2_to64_rest();
    let field = single_exponent(bits);
    let fraction = single_fraction(bits);
    let magnitude = single_magnitude(bits);
    assert(field <= 133);
    let k = (-magnitude.exp) as nat;
    let p = pow2(k);
    assert(k >= 17);
    lemma_pow2_below(17, k);
    if k >= 18 {
        lemma_pow2_below(18, k);
    }
    let top: nat = 1000;
    assert(10 * magnitude.mant <= top * p) by (nonlinear_arith)
        requires
            k >= 18 ==> p >= 0x4_0000 && magnitude.mant < 0x100_0000,
            k < 18 ==> p >= 0x2_0000 && magnitude.mant <= 0xC8_0000,
            top == 1000,
    ;
    lemma_round_ordered(10 * magnitude.mant, top * p, p);
    lemma_round_multiple(top, p);
    let t = tenths(magnitude);
    assert(t <= 1000);
    lemma_decimal_short(t / 10);
    assert(fixed1(t).len() == decimal(t / 10).len() + 2);
}


} // verus!
