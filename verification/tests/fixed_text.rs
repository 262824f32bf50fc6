use sysbar::fixed::{push_quotient_fixed1, single_text};

fn quotient_text(n: u128, d: u64) -> String {
    let mut out = String::new();
    push_quotient_fixed1(&mut out, n, d);
    out
}

fn next(seed: &mut u64) -> u64 {
    *seed = seed.wrapping_mul(6364136223846793005).wrapping_add(1442695040888963407);
    *seed ^ (*seed >> 29)
}

#[test]
fn quotient_of_small_readings_matches_double_arithmetic() {
    for n in 0u64..300_000 {
        assert_eq!(quotient_text(n as u128, 1_000_000), format!("{:.1}", n as f64 / 1000000.0), "n = {}", n);
    }
}

#[test]
fn quotient_at_every_tie_matches_double_arithmetic() {
    for k in 0u64..200_000 {
        let n = 100_000 * k + 50_000;
        assert_eq!(quotient_text(n as u128, 1_000_000), format!("{:.1}", n as f64 / 1000000.0), "n = {}", n);
        let m = 100_000_000 * k + 50_000_000;
        assert_eq!(quotient_text(m as u128, 1_000_000_000), format!("{:.1}", m as f64 / 1000000000.0), "m = {}", m);
    }
}

#[test]
fn quotient_of_arbitrary_readings_matches_double_arithmetic() {
    let mut seed = 7u64;
    for _ in 0..200_000 {
        let n = next(&mut seed) >> (next(&mut seed) % 64);
        assert_eq!(quotient_text(n as u128, 1_000_000), format!("{:.1}", n as f64 / 1000000.0), "n = {}", n);
        assert_eq!(quotient_text(n as u128, 1_000_000_000), format!("{:.1}", n as f64 / 1000000000.0), "n = {}", n);
        let d = 1 + next(&mut seed) % 0x4000_0000;
        assert_eq!(quotient_text(n as u128, d), format!("{:.1}", n as f64 / d as f64), "n = {}, d = {}", n, d);
        let wide = 1 + (next(&mut seed) >> 11 >> (next(&mut seed) % 53));
        assert_eq!(
            quotient_text(n as u128, wide),
            format!("{:.1}", n as f64 / wide as f64),
            "n = {}, d = {}",
            n,
            wide
        );
    }
    let widest = 1u64 << 53;
    assert_eq!(quotient_text(u64::MAX as u128, widest), format!("{:.1}", u64::MAX as f64 / widest as f64));
    assert_eq!(quotient_text(1, widest), "0.0");
}

#[test]
fn quotient_of_readings_beyond_64_bits_matches_double_arithmetic() {
    let mut seed = 11u64;
    for _ in 0..100_000 {
        let high = next(&mut seed) as u128;
        let low = next(&mut seed) as u128;
        let n = ((high << 64) | low) >> (next(&mut seed) % 64);
        assert_eq!(quotient_text(n, 1_000_000), format!("{:.1}", n as f64 / 1000000.0), "n = {}", n);
    }
    let top = u128::MAX;
    assert_eq!(quotient_text(top, 1_000_000), format!("{:.1}", top as f64 / 1000000.0));
}

#[test]
fn quotient_text_has_exact_values() {
    assert_eq!(quotient_text(0, 1_000_000), "0.0");
    assert_eq!(quotient_text(4_000_000, 1_000_000), "4.0");
    assert_eq!(quotient_text(8_000_000, 1_000_000), "8.0");
    assert_eq!(quotient_text(1_234_567, 1_000_000), "1.2");
    assert_eq!(quotient_text(1_250_000, 1_000_000), "1.2");
    assert_eq!(quotient_text(1_750_000, 1_000_000), "1.8");
    assert_eq!(quotient_text(999_999, 1_000_000), "1.0");
    assert_eq!(quotient_text(49_999, 1_000_000), "0.0");
    assert_eq!(quotient_text(16_384_000_000, 1_000_000), "16384.0");
}

#[test]
fn single_text_matches_the_standard_formatting() {
    let mut seed = 3u64;
    for _ in 0..400_000 {
        let bits = next(&mut seed) as u32;
        assert_eq!(single_text(bits), format!("{:.1}", f32::from_bits(bits)), "bits = {:#x}", bits);
    }
}

#[test]
fn single_text_of_percentages_matches_the_standard_formatting() {
    for k in 0u32..=200_000 {
        let load = k as f32 / 1000.0;
        assert_eq!(single_text(load.to_bits()), format!("{:.1}", load), "load = {}", load);
        assert_eq!(single_text((-load).to_bits()), format!("{:.1}", -load), "load = {}", -load);
    }
}

#[test]
fn single_text_of_special_values() {
    assert_eq!(single_text(0f32.to_bits()), "0.0");
    assert_eq!(single_text((-0f32).to_bits()), "-0.0");
    assert_eq!(single_text(f32::NAN.to_bits()), "NaN");
    assert_eq!(single_text(0xffc0_0000), "NaN");
    assert_eq!(single_text(f32::INFINITY.to_bits()), "inf");
    assert_eq!(single_text(f32::NEG_INFINITY.to_bits()), "-inf");
    assert_eq!(single_text(f32::MAX.to_bits()), format!("{:.1}", f32::MAX));
    assert_eq!(single_text(f32::MIN_POSITIVE.to_bits()), "0.0");
    assert_eq!(single_text(1), "0.0");
    assert_eq!(single_text(0.25f32.to_bits()), "0.2");
    assert_eq!(single_text(0.75f32.to_bits()), "0.8");
    assert_eq!(single_text(0.05f32.to_bits()), "0.1");
    assert_eq!(single_text(12.34f32.to_bits()), "12.3");
    assert_eq!(single_text(100f32.to_bits()), "100.0");
}

#[test]
fn figure_is_less_than_a_tenth_from_the_quotient() {
    let mut seed = 21u64;
    for _ in 0..200_000 {
        let n = 1 + (next(&mut seed) >> 15) as u128;
        let d = 1 + next(&mut seed) % 0x4000_0000;
        let (whole, tenth) = sysbar::binary::Binary::quotient(n, d).tenths();
        let shown = (10 * whole + tenth as u128) as i128;
        let off = shown * d as i128 - 10 * n as i128;
        assert!(-(d as i128) < off && off < d as i128, "n = {}, d = {}", n, d);
    }
}

#[test]
fn whole_units_show_no_tenths() {
    let mut seed = 5u64;
    for _ in 0..100_000 {
        let d = 1 + next(&mut seed) % 0x4000_0000;
        let w = next(&mut seed) % ((1u64 << 53) / d);
        assert_eq!(quotient_text(w as u128 * d as u128, d), format!("{}.0", w));
    }
    assert_eq!(quotient_text(4_000_000, 1_000_000), "4.0");
    assert_eq!(quotient_text(8_000_000_000, 1_000_000_000), "8.0");
}

#[test]
fn scaling_reading_and_unit_changes_nothing() {
    let mut seed = 13u64;
    for _ in 0..200_000 {
        let n = next(&mut seed) % ((1u64 << 53) / 1000);
        assert_eq!(
            quotient_text(1000 * n as u128, 1_000_000_000),
            quotient_text(n as u128, 1_000_000),
            "n = {}",
            n
        );
    }
}

#[test]
fn figure_is_one_of_the_nearest_tenths() {
    let mut seed = 31u64;
    for _ in 0..200_000 {
        let n = 1 + (next(&mut seed) % ((1u64 << 52) / 10)) as u128;
        let d = 1 + (next(&mut seed) >> 11 >> (next(&mut seed) % 53));
        let (whole, tenth) = sysbar::binary::Binary::quotient(n, d).tenths();
        let shown = (10 * whole + tenth as u128) as i128;
        let off = 2 * (shown * d as i128 - 10 * n as i128);
        assert!(-(d as i128) <= off && off <= d as i128, "n = {}, d = {}", n, d);
    }
}

#[test]
fn greater_reading_is_shown_as_no_less() {
    let mut seed = 41u64;
    for _ in 0..200_000 {
        let a = 1 + next(&mut seed) % ((1u64 << 52) - 1);
        let b = 1 + next(&mut seed) % ((1u64 << 52) - 1);
        let (low, high) = if a <= b { (a, b) } else { (b, a) };
        let near = low + (high - low) % 3;
        for (n1, n2) in [(low, high), (low, near)] {
            for d in [1_000_000u64, 1_000_000_000, 1 + next(&mut seed) % 4096] {
                let first = sysbar::binary::Binary::quotient(n1 as u128, d).tenths();
                let second = sysbar::binary::Binary::quotient(n2 as u128, d).tenths();
                assert!(first <= second, "{} and {} over {}", n1, n2, d);
            }
        }
    }
}

#[test]
fn numbers_up_to_a_hundred_take_no_more_than_five_characters() {
    assert_eq!(sysbar::fixed::SINGLE_HUNDRED, 100f32.to_bits());
    let mut bits = 0u32;
    while bits <= sysbar::fixed::SINGLE_HUNDRED {
        let text = single_text(bits);
        assert!(3 <= text.len() && text.len() <= 5, "bits = {:#x}", bits);
        bits += 4099;
    }
    assert_eq!(single_text(sysbar::fixed::SINGLE_HUNDRED), "100.0");
    assert_eq!(single_text(sysbar::fixed::SINGLE_HUNDRED + 1).len(), 5);
}
