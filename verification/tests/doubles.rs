//! The arithmetic on the bits of doubles, held against the machine's own.

use duckdb_qvd::convert::{
    days_from_serial, interval_from_serial, micros_from_serial, time_from_serial,
};
use duckdb_qvd::double;

const MICROS: f64 = 86_400_000_000.0;

/// Doubles of every size and shape: special ones, and a fixed sequence of pseudo-random
/// bit patterns and of numbers near dates and times.
fn samples() -> Vec<f64> {
    let mut all = vec![
        0.0,
        -0.0,
        1.0,
        -1.0,
        0.5,
        -0.5,
        1.5,
        2.5,
        -2.5,
        0.1,
        25569.0,
        -25569.0,
        25568.5,
        33765.0,
        45000.25,
        65536.0,
        1e15,
        4503599627370496.0,
        4503599627370495.5,
        9007199254740992.0,
        9007199254740993.0,
        -9223372036854775808.0,
        9223372036854775807.0,
        18446744073709551616.0,
        1e100,
        -1e300,
        f64::MAX,
        f64::MIN,
        f64::MIN_POSITIVE,
        f64::from_bits(1),
        -f64::from_bits(1),
        f64::from_bits(0x000F_FFFF_FFFF_FFFF),
        f64::EPSILON,
        1.0 - f64::EPSILON / 2.0,
        f64::INFINITY,
        f64::NEG_INFINITY,
        f64::NAN,
        2147483647.0,
        2147483647.5,
        -2147483648.5,
        2147508216.5,
    ];
    let mut seed: u64 = 0x2545_F491_4F6C_DD1D;
    for i in 0..4000 {
        seed ^= seed << 13;
        seed ^= seed >> 7;
        seed ^= seed << 17;
        all.push(f64::from_bits(seed));
        let near = (seed >> 11) as f64 / 9007199254740992.0;
        all.push(near * 100000.0 - 20000.0);
        all.push(near);
        all.push((seed as i64 >> (i % 60)) as f64);
        all.push((seed % 200001) as f64 - 100000.5);
    }
    all
}

fn same(bits: u64, x: f64) -> bool {
    bits == x.to_bits() || (x.is_nan() && f64::from_bits(bits).is_nan())
}

#[test]
fn adding_a_whole_number() {
    for x in samples() {
        for n in [25569, -25569, 1, -1, 32768, -32768] {
            let r = double::add_whole(x.to_bits(), n);
            assert!(same(r, x + n as f64), "{x} + {n}");
        }
    }
}

#[test]
fn multiplying_by_a_whole_number() {
    for x in samples() {
        for k in [86_400_000_000u64, 1, 3, 4503599627370497] {
            let r = double::multiply(x.to_bits(), k);
            assert!(same(r, x * k as f64), "{x} * {k}");
        }
    }
}

#[test]
fn dividing_by_a_whole_number() {
    for x in samples() {
        for k in [86_400_000_000u64, 1, 3, 4503599627370497] {
            let r = double::divide_by(x.to_bits(), k);
            assert!(same(r, x / k as f64), "{x} / {k}");
        }
    }
}

#[test]
fn fractions() {
    for x in samples() {
        let above = double::subtract_floor(x.to_bits());
        assert!(same(above, x - x.floor()), "{x} above its floor");
        let beyond = double::subtract_whole(x.to_bits());
        let native = x - x.trunc();
        // Where nothing is left, the library keeps the sign and the machine does not.
        assert!(
            same(beyond, native) || (native == 0.0 && f64::from_bits(beyond) == 0.0),
            "{x} beyond its whole part"
        );
    }
}

#[test]
fn cutting_and_rounding() {
    for x in samples() {
        let bits = x.to_bits();
        assert_eq!(double::cut(bits, i64::MIN, i64::MAX), x as i64, "{x}");
        assert_eq!(double::cut(bits, i32::MIN as i64, i32::MAX as i64), x as i32 as i64, "{x}");
        assert_eq!(double::round(bits, i64::MIN, i64::MAX), x.round() as i64, "{x}");
        assert_eq!(
            double::round(bits, i32::MIN as i64, i32::MAX as i64),
            x.round() as i32 as i64,
            "{x}"
        );
    }
}

#[test]
fn whole_numbers_and_quotients() {
    let mut seed: u64 = 88172645463325252;
    for i in 0..4000 {
        seed ^= seed << 13;
        seed ^= seed >> 7;
        seed ^= seed << 17;
        let n = seed as i64 >> (i % 64);
        assert_eq!(double::whole(n), (n as f64).to_bits(), "{n}");
        // Where both parts are doubles, the machine's quotient is the nearest one too.
        let a = (seed >> 11) as u128;
        let b = (seed % 1_000_003 + 1) as u128;
        assert_eq!(double::divide(false, a, b), (a as f64 / b as f64).to_bits(), "{a} / {b}");
        if a > 0 {
            assert_eq!(double::divide(true, a, b), (-(a as f64) / b as f64).to_bits());
        }
    }
    for n in [i64::MIN, i64::MAX, 0, -1, 9007199254740993, -9007199254740993] {
        assert_eq!(double::whole(n), (n as f64).to_bits(), "{n}");
    }
    assert_eq!(double::divide(false, 1, 10), 0.1f64.to_bits());
    assert_eq!(double::divide(true, u128::MAX, 1), (-(u128::MAX as f64)).to_bits());
}

#[test]
fn widening_single_precision() {
    let mut seed: u32 = 2463534242;
    for i in 0..4000 {
        seed ^= seed << 13;
        seed ^= seed >> 17;
        seed ^= seed << 5;
        let bits = if i % 3 == 0 { seed >> (i % 32) } else { seed };
        let x = f32::from_bits(bits);
        assert!(same(double::widen(bits), x as f64), "{x}");
    }
    for x in [0.0f32, -0.0, 1.5, f32::MAX, f32::MIN_POSITIVE, f32::INFINITY, f32::NEG_INFINITY] {
        assert_eq!(double::widen(x.to_bits()), (x as f64).to_bits());
    }
    assert!(f64::from_bits(double::widen(f32::NAN.to_bits())).is_nan());
}

#[test]
fn serial_numbers() {
    for s in samples() {
        let bits = s.to_bits();
        assert_eq!(days_from_serial(bits), (s - 25569.0).round() as i32, "{s}");
        assert_eq!(micros_from_serial(bits), ((s - 25569.0) * MICROS).round() as i64, "{s}");
        assert_eq!(time_from_serial(bits), ((s - s.floor()) * MICROS).round() as i64, "{s}");
        let r = interval_from_serial(bits);
        assert_eq!(r.months, 0);
        assert_eq!(r.days, s.trunc() as i32, "{s}");
        assert_eq!(r.micros, ((s - s.trunc()) * MICROS).round() as i64, "{s}");
    }
}
