//! Printed values.

use spice_layout::values::{format_scaled, SUFFIXES};

/// Scales and rounds a number, and has the library write it.
fn format_si(n: f64) -> String {
    if !n.is_finite() {
        return format!("{n}");
    }
    let abs = n.abs();
    if n != 0.0 && !(1e-15..1e15).contains(&abs) {
        return format!("{n:e}");
    }
    let at = |row: usize| abs * 10f64.powi(15 - 3 * row as i32);
    let mut row = if n == 0.0 { 5 } else { 0 };
    while row + 1 < SUFFIXES && at(row + 1) >= 1.0 {
        row += 1;
    }
    let whole = at(row).trunc();
    let scale = if whole < 10.0 {
        100.0
    } else if whole < 100.0 {
        10.0
    } else {
        1.0
    };
    let hundredths = ((at(row) * scale).round() / scale * 100.0).round() as u32;
    format_scaled(n < 0.0, row, hundredths).unwrap_or_else(|| format!("{n:e}"))
}

#[test]
fn zero() {
    assert_eq!(format_si(0.0), "0");
}

#[test]
fn basic_suffixes() {
    assert_eq!(format_si(1e-6), "1u");
    assert_eq!(format_si(4.7e3), "4.7k");
    assert_eq!(format_si(1.5e6), "1.5Meg");
    assert_eq!(format_si(1e3), "1k");
    assert_eq!(format_si(1e-3), "1m");
    assert_eq!(format_si(1e-9), "1n");
    assert_eq!(format_si(1e-12), "1p");
    assert_eq!(format_si(1e-15), "1f");
    assert_eq!(format_si(1e9), "1G");
    assert_eq!(format_si(1e12), "1T");
}

#[test]
fn fractional_prefers_smaller_suffix() {
    assert_eq!(format_si(1e-4), "100u");
    assert_eq!(format_si(0.015), "15m");
}

#[test]
fn negatives() {
    assert_eq!(format_si(-1e-3), "-1m");
    assert_eq!(format_si(-0.015), "-15m");
    assert_eq!(format_si(-1000.0), "-1k");
}

#[test]
fn boundary_values() {
    assert_eq!(format_si(999.0), "999");
    assert_eq!(format_si(1000.0), "1k");
    assert_eq!(format_si(999.5), "1k");
    assert_eq!(format_si(0.999), "999m");
    assert_eq!(format_si(0.000_999_9), "1m");
}

#[test]
fn rc_lowpass_capacitor() {
    assert_eq!(format_si(100e-9), "100n");
    assert_eq!(format_si(1000.0), "1k");
}

#[test]
fn common_emitter_capacitor() {
    assert_eq!(format_si(100e-6), "100u");
    assert_eq!(format_si(0.000_099_999_999_999_999_99), "100u");
}

#[test]
fn nan_and_inf_passthrough() {
    assert_eq!(format_si(f64::NAN), format!("{}", f64::NAN));
    assert_eq!(format_si(f64::INFINITY), format!("{}", f64::INFINITY));
}

#[test]
fn out_of_range_uses_scientific() {
    let s = format_si(1e16);
    assert!(s.contains('e'), "expected scientific, got {s}");
}

#[test]
fn no_trailing_zeros_in_mantissa() {
    assert_eq!(format_si(1.0e-6), "1u");
    assert_eq!(format_si(1.10e3), "1.1k");
    assert_eq!(format_si(10.0e3), "10k");
}

#[test]
fn mantissas_have_at_most_two_decimals() {
    assert_eq!(format_scaled(false, 6, 123).as_deref(), Some("1.23k"));
    assert_eq!(format_scaled(false, 6, 120).as_deref(), Some("1.2k"));
    assert_eq!(format_scaled(false, 6, 105).as_deref(), Some("1.05k"));
    assert_eq!(format_scaled(false, 5, 1230).as_deref(), Some("12.3"));
    assert_eq!(format_scaled(true, 5, 10_200).as_deref(), Some("-102"));
}

#[test]
fn a_full_mantissa_takes_the_next_suffix() {
    assert_eq!(format_scaled(false, 6, 100_000).as_deref(), Some("1Meg"));
    assert_eq!(format_scaled(true, 4, 100_000).as_deref(), Some("-1"));
    assert_eq!(format_scaled(false, SUFFIXES - 1, 99_900).as_deref(), Some("999T"));
    assert_eq!(format_scaled(false, SUFFIXES - 1, 100_000), None);
}
