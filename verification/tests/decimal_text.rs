use sysbar::binary::{power_of_two, round_div, Binary};
use sysbar::decimal::{digit_str, push_decimal, push_padded, push_repeated};
use sysbar::fixed::push_fixed1;

fn decimal(n: u128) -> String {
    let mut out = String::new();
    push_decimal(&mut out, n);
    out
}

fn padded(text: &str, width: usize, fill: &str) -> String {
    let mut out = String::from("|");
    push_padded(&mut out, text, width, fill);
    out
}

#[test]
fn decimal_digits_match_the_standard_formatting() {
    assert_eq!(decimal(0), "0");
    assert_eq!(decimal(7), "7");
    assert_eq!(decimal(10), "10");
    assert_eq!(decimal(1_000_000), "1000000");
    assert_eq!(decimal(u128::MAX), u128::MAX.to_string());
    let mut n: u128 = 1;
    while n < u128::MAX / 7 {
        assert_eq!(decimal(n), n.to_string());
        n = n * 7 + 3;
    }
    for d in 0u8..10 {
        assert_eq!(digit_str(d), d.to_string());
    }
}

#[test]
fn padding_fills_up_to_the_width() {
    assert_eq!(padded("7", 2, "0"), "|07");
    assert_eq!(padded("17", 2, "0"), "|17");
    assert_eq!(padded("117", 2, "0"), "|117");
    assert_eq!(padded("", 3, " "), "|   ");
    assert_eq!(padded("é", 3, "."), "|..é");
    assert_eq!(padded("abc", 0, " "), "|abc");
    let mut out = String::from("x");
    push_repeated(&mut out, "-", 4);
    assert_eq!(out, "x----");
    push_repeated(&mut out, "-", 0);
    assert_eq!(out, "x----");
}

#[test]
fn tenths_are_a_whole_part_and_one_digit() {
    let mut out = String::from("=");
    push_fixed1(&mut out, 12, 3);
    assert_eq!(out, "=12.3");
    let mut zero = String::new();
    push_fixed1(&mut zero, 0, 0);
    assert_eq!(zero, "0.0");
}

#[test]
fn rounding_goes_to_the_nearest_and_to_the_even_of_two() {
    assert_eq!(round_div(0, 4), 0);
    assert_eq!(round_div(1, 4), 0);
    assert_eq!(round_div(2, 4), 0);
    assert_eq!(round_div(3, 4), 1);
    assert_eq!(round_div(6, 4), 2);
    assert_eq!(round_div(10, 4), 2);
    assert_eq!(round_div(14, 4), 4);
    assert_eq!(round_div(7, 1), 7);
    assert_eq!(round_div(u128::MAX - 1, 1), u128::MAX - 1);
    assert_eq!(round_div(u128::MAX, 2), 1u128 << 127);
    assert_eq!(round_div(5, u128::MAX), 0);
}

#[test]
fn powers_of_two() {
    assert_eq!(power_of_two(0), 1);
    assert_eq!(power_of_two(10), 1024);
    assert_eq!(power_of_two(127), 1u128 << 127);
}

#[test]
fn nearest_binary_number_is_the_double() {
    let mut seed = 99u64;
    for _ in 0..100_000 {
        seed = seed.wrapping_mul(6364136223846793005).wrapping_add(1442695040888963407);
        let num = 1 + (seed >> (seed % 61)) as u128;
        seed = seed.wrapping_mul(6364136223846793005).wrapping_add(1442695040888963407);
        let den = 1 + (seed >> 34) as u128;
        let b = Binary::nearest(num, den);
        let value = (num as f64) / (den as f64);
        if num < (1 << 53) {
            assert_eq!(b.mant as f64 * 2f64.powi(b.exp), value, "{} / {}", num, den);
        }
        let q = Binary::quotient(num, den as u64);
        assert_eq!(q.mant as f64 * 2f64.powi(q.exp), value, "{} / {}", num, den);
    }
}

#[test]
fn tenths_of_binary_numbers() {
    assert_eq!(Binary { mant: 0, exp: 5 }.tenths(), (0, 0));
    assert_eq!(Binary { mant: 3, exp: 2 }.tenths(), (12, 0));
    assert_eq!(Binary { mant: 1, exp: -1 }.tenths(), (0, 5));
    assert_eq!(Binary { mant: 1, exp: -2 }.tenths(), (0, 2));
    assert_eq!(Binary { mant: 3, exp: -2 }.tenths(), (0, 8));
    assert_eq!(Binary { mant: 1, exp: -4 }.tenths(), (0, 1));
    assert_eq!(Binary { mant: 1, exp: -5 }.tenths(), (0, 0));
    assert_eq!(Binary { mant: 1, exp: -200 }.tenths(), (0, 0));
    assert_eq!(Binary { mant: u64::MAX, exp: -69 }.tenths(), (0, 0));
    assert_eq!(Binary { mant: u64::MAX, exp: -64 }.tenths(), (1, 0));
    assert_eq!(Binary { mant: 1 << 53, exp: 74 }.tenths(), (1u128 << 127, 0));
}
