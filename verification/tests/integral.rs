//! Summed-area tables.

#![allow(dead_code)]

use phaios_core::arith::Arithmetic;
use phaios_core::allocation::plane_from_samples;
use phaios_core::integral::{sat, window_sum, Measure};
use phaios_core::raster::{Plane, Table};

/// The host's own arithmetic.
struct Ieee;

fn s(a: u32) -> f32 {
    f32::from_bits(a)
}

fn d(a: u64) -> f64 {
    f64::from_bits(a)
}

impl Arithmetic for Ieee {
    fn plus(a: u32, b: u32) -> u32 {
        (s(a) + s(b)).to_bits()
    }
    fn minus(a: u32, b: u32) -> u32 {
        (s(a) - s(b)).to_bits()
    }
    fn times(a: u32, b: u32) -> u32 {
        (s(a) * s(b)).to_bits()
    }
    fn over(a: u32, b: u32) -> u32 {
        (s(a) / s(b)).to_bits()
    }
    fn remainder(a: u32, b: u32) -> u32 {
        (s(a) % s(b)).to_bits()
    }
    fn root(a: u32) -> u32 {
        s(a).sqrt().to_bits()
    }
    fn floor(a: u32) -> u32 {
        s(a).floor().to_bits()
    }
    fn ceil(a: u32) -> u32 {
        s(a).ceil().to_bits()
    }
    fn round(a: u32) -> u32 {
        s(a).round().to_bits()
    }
    fn power(a: u32, b: u32) -> u32 {
        s(a).powf(s(b)).to_bits()
    }
    fn exp(a: u32) -> u32 {
        s(a).exp().to_bits()
    }
    fn ln(a: u32) -> u32 {
        s(a).ln().to_bits()
    }
    fn cos(a: u32) -> u32 {
        s(a).cos().to_bits()
    }
    fn of_count(n: u64) -> u32 {
        (n as f32).to_bits()
    }
    fn of_offset(n: i64) -> u32 {
        (n as f32).to_bits()
    }
    fn to_count(a: u32) -> u64 {
        s(a) as u64
    }
    fn to_offset(a: u32) -> i64 {
        s(a) as i64
    }
    fn widen(a: u32) -> u64 {
        f64::from(s(a)).to_bits()
    }
    fn narrow(a: u64) -> u32 {
        (d(a) as f32).to_bits()
    }
    fn plus64(a: u64, b: u64) -> u64 {
        (d(a) + d(b)).to_bits()
    }
    fn minus64(a: u64, b: u64) -> u64 {
        (d(a) - d(b)).to_bits()
    }
    fn times64(a: u64, b: u64) -> u64 {
        (d(a) * d(b)).to_bits()
    }
    fn over64(a: u64, b: u64) -> u64 {
        (d(a) / d(b)).to_bits()
    }
    fn root64(a: u64) -> u64 {
        d(a).sqrt().to_bits()
    }
    fn floor64(a: u64) -> u64 {
        d(a).floor().to_bits()
    }
    fn exp64(a: u64) -> u64 {
        d(a).exp().to_bits()
    }
    fn sin64(a: u64) -> u64 {
        d(a).sin().to_bits()
    }
    fn cos64(a: u64) -> u64 {
        d(a).cos().to_bits()
    }
    fn radians64(a: u64) -> u64 {
        d(a).to_radians().to_bits()
    }
    fn of_count64(n: u64) -> u64 {
        (n as f64).to_bits()
    }
    fn to_count64(a: u64) -> u64 {
        d(a) as u64
    }
    fn text(a: u32) -> String {
        format!("{}", s(a))
    }
    fn debug_text(a: u32) -> String {
        format!("{:?}", s(a))
    }
}

/// The bits of a number, as parameters take it.
fn b(v: f32) -> u32 {
    v.to_bits()
}

fn plane(h: usize, w: usize, f: fn(usize, usize) -> f32) -> Plane {
    let mut bits = Vec::new();
    for y in 0..h {
        for x in 0..w {
            bits.push(f(y, x).to_bits());
        }
    }
    plane_from_samples((h, w), &bits).unwrap()
}

fn at(table: &Table, y: usize, x: usize) -> f64 {
    f64::from_bits(table.get(y, x).unwrap())
}

fn window(table: &Table, y: usize, x: usize, r: usize) -> (f64, f64) {
    let (sum, area) = window_sum::<Ieee>(table, y, x, r);
    (f64::from_bits(sum), f64::from_bits(area))
}

#[test]
fn sat_matches_naive_prefix_sum() {
    let (h, w) = (40, 512 + 137);
    let value = |y: usize, x: usize| ((y * 31 + x * 17) % 97) as f32 / 97.0;
    let table = sat::<Ieee>(&plane(h, w, value), Measure::Value).unwrap();

    let mut naive = vec![vec![0.0_f64; w]; h];
    for y in 0..h {
        for x in 0..w {
            let v = value(y, x) as f64;
            let above = if y > 0 { naive[y - 1][x] } else { 0.0 };
            let left = if x > 0 { naive[y][x - 1] } else { 0.0 };
            let diag = if y > 0 && x > 0 { naive[y - 1][x - 1] } else { 0.0 };
            naive[y][x] = v + above + left - diag;
        }
    }

    for y in 0..h {
        for x in 0..w {
            let (a, b) = (at(&table, y, x), naive[y][x]);
            assert!((a - b).abs() < 1e-9, "SAT mismatch: {a} vs {b}");
        }
    }
}

#[test]
fn sat_applies_its_mapping_function() {
    let squared = sat::<Ieee>(&plane(8, 8, |y, x| (y + x) as f32), Measure::Square).unwrap();
    let mut expected = 0.0_f64;
    for y in 0..8 {
        for x in 0..8 {
            let v = (y + x) as f64;
            expected += v * v;
        }
    }
    assert!((at(&squared, 7, 7) - expected).abs() < 1e-9);
}

#[test]
fn window_sum_clamps_at_the_borders() {
    let table = sat::<Ieee>(&plane(5, 5, |_, _| 1.0), Measure::Value).unwrap();

    let (sum, area) = window(&table, 0, 0, 2);
    assert_eq!(area, 9.0, "corner window should be 3x3");
    assert!((sum - 9.0).abs() < 1e-9);

    let (sum, area) = window(&table, 2, 2, 2);
    assert_eq!(area, 25.0, "centre window should cover the whole image");
    assert!((sum - 25.0).abs() < 1e-9);

    let (_, area) = window(&table, 2, 2, 99);
    assert_eq!(area, 25.0, "an oversized radius clamps to the image");
}

#[test]
fn an_interior_window_subtracts_what_lies_outside() {
    let table = sat::<Ieee>(&plane(4, 4, |y, x| (y * 4 + x) as f32), Measure::Value).unwrap();
    // Rows 1..=3, columns 1..=3: 5 + 6 + 7 + 9 + 10 + 11 + 13 + 14 + 15.
    assert_eq!(window(&table, 2, 2, 1), (90.0, 9.0));
    assert_eq!(window(&table, 3, 0, 0), (12.0, 1.0));
    assert_eq!(window(&table, 1, 2, usize::MAX), (120.0, 16.0));
}
