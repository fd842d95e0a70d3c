//! What is read back of a timestamp that was written.
//!
//! A timestamp is written as a serial number: a double, counting days. Near 1970 doubles
//! are dense enough to tell microseconds apart; far from it they are not.

use vstd::prelude::*;
use vstd::arithmetic::power2::pow2;
use vstd::arithmetic::power2::lemma_pow2_adds;
use vstd::arithmetic::power2::lemma_pow2_pos;
use vstd::arithmetic::power2::lemma_pow2_strictly_increases;
use vstd::arithmetic::power2::lemma_pow2_unfold;
use crate::convert::{
    converted,
    micros_of,
    CellValue,
    MICROS_PER_DAY,
    QLIK_EPOCH_OFFSET_DAYS,
    QvdSymbol,
    QvdValue,
};
use crate::copy::{timestamp_serial, RawValue, WriteKind};
use crate::double::{
    half_away,
    is_finite,
    magnitude,
    negative,
    one,
    product,
    quotient,
    ratio,
    sum,
    value,
};
use crate::double::{lemma_representable, lemma_whole_is_exact};
use crate::kind::Kind;
use crate::rounding::{
    distance,
    nearest,
    scale,
    significand,
    units,
    HIDDEN_BIT,
    INFINITY,
    NEXT_BIT,
};
use crate::rounding::{
    lemma_nearest_error_at,
    lemma_nearest_exact,
    lemma_units_increase,
    lemma_units_step,
};
use crate::accuracy::{
    size,
    lemma_finite_number,
    lemma_half_away_error,
    lemma_half_away_is_near,
    lemma_product_error,
    lemma_ratio_error,
    lemma_rounded_error,
    lemma_rounding_stays_between,
    lemma_sizes_add_up,
    lemma_sum_error,
    lemma_whole_value_is_cut,
};
use crate::round_trip::stands_for;

verus! {

/// The microseconds that come back for a timestamp.
pub open spec fn timestamp_read_back(us: i64) -> i64 {
    micros_of(timestamp_serial(us))
}

/// `TIMESTAMP` is written as a serial number, and what comes back is read from it.
pub proof fn lemma_timestamp_is_read_from_its_serial(us: i64, symbol: QvdSymbol)
    requires
        stands_for(symbol, WriteKind::Timestamp.written(RawValue::I64(us))),
    ensures
        converted(Kind::Timestamp, QvdValue::Symbol(symbol)) == CellValue::I64(
            timestamp_read_back(us),
        ),
{
}

/// `TIMESTAMP` comes back as the same microsecond at midnight of any day.
pub proof fn lemma_midnight_comes_back(day: int)
    requires
        i64::MIN <= day * MICROS_PER_DAY <= i64::MAX,
    ensures
        timestamp_read_back((day * MICROS_PER_DAY) as i64) == day * MICROS_PER_DAY,
{
    let o = one();
    let d = MICROS_PER_DAY as int;
    let x = day * d;
    let a = if day < 0 {
        -day
    } else {
        day
    };
    lemma_pow2_pos(1074);
    assert(-0x800_0000 < day < 0x800_0000) by (nonlinear_arith)
        requires
            -0x8000_0000_0000_0000 <= day * d <= 0x7FFF_FFFF_FFFF_FFFF,
            d == 86_400_000_000,
    ;
    // The microseconds of a day are 10546875 times 2^13.
    lemma_pow2_adds(13, 1074);
    vstd::arithmetic::power2::lemma2_to64();
    let m = a * 10_546_875;
    let b = lemma_representable(m, 1087);
    assert(units(b) == (a * o) * d && (a * o) * d == (a * d) * o) by (nonlinear_arith)
        requires
            units(b) == m * pow2(1087),
            pow2(1087) == 8192 * o,
            m == a * 10_546_875,
            d == 86_400_000_000,
    ;
    assert(b < INFINITY);
    lemma_nearest_exact(b, 1);
    assert(units(b) * 1 == units(b));
    assert((-day) * d == -(day * d) && (-x) * o == -(x * o)) by (nonlinear_arith);
    assert(day < 0 ==> x * o < 0 && x < 0) by (nonlinear_arith)
        requires
            x == day * d,
            d > 0,
            o > 0,
    ;
    assert(day >= 0 ==> x * o >= 0 && x >= 0) by (nonlinear_arith)
        requires
            x == day * d,
            d > 0,
            o > 0,
    ;
    let w = quotient(x, 1);
    assert(magnitude(w) == b && negative(w) == (day < 0));
    // Divided by the microseconds of a day, it is the day.
    let e = lemma_representable(a, 1074);
    lemma_nearest_exact(e, d);
    assert(e < INFINITY);
    let in_days = ratio(w, d);
    assert(magnitude(in_days) == e && negative(in_days) == (day < 0));
    assert((-day) * o == -(day * o)) by (nonlinear_arith);
    assert(value(in_days) == day * o);
    let n = day + QLIK_EPOCH_OFFSET_DAYS;
    assert(day * o + QLIK_EPOCH_OFFSET_DAYS * o == n * o) by (nonlinear_arith)
        requires
            n == day + QLIK_EPOCH_OFFSET_DAYS,
    ;
    let serial = sum(in_days, QLIK_EPOCH_OFFSET_DAYS as int);
    assert(serial == quotient(n, 1));
    lemma_whole_is_exact(n);
    assert(n * o + (-QLIK_EPOCH_OFFSET_DAYS) * o == day * o) by (nonlinear_arith)
        requires
            n == day + QLIK_EPOCH_OFFSET_DAYS,
    ;
    let days = sum(serial, -QLIK_EPOCH_OFFSET_DAYS as int);
    assert(days == quotient(day, 1));
    lemma_whole_is_exact(day);
    assert(units(magnitude(days)) == a * o);
    let p = product(days, d);
    assert(magnitude(p) == b);
    assert(value(p) == x * o) by {
        if day < 0 {
            assert(day * o < 0) by (nonlinear_arith)
                requires
                    day < 0,
                    o > 0,
            ;
        } else {
            assert(day * o >= 0) by (nonlinear_arith)
                requires
                    day >= 0,
                    o > 0,
            ;
        }
    }
    lemma_whole_value_is_cut(p, x);
}

/// An error in days, counted in microseconds.
proof fn lemma_error_in_micros(e: int, n: int, m: int)
    requires
        NEXT_BIT * size(e) <= n,
        m > 0,
    ensures
        -(m * size(e)) <= m * e <= m * size(e),
        0 <= m * size(e),
        NEXT_BIT * (m * size(e)) <= m * n,
{
    let s = size(e);
    assert(-(m * s) <= m * e <= m * s && 0 <= m * s) by (nonlinear_arith)
        requires
            -s <= e <= s,
            m > 0,
    ;
    assert(NEXT_BIT * (m * s) <= m * n) by (nonlinear_arith)
        requires
            NEXT_BIT * s <= n,
            m > 0,
    ;
}

/// What the bounds on the single errors amount to.
proof fn lemma_error_bounds(
    x: int,
    w: int,
    a: int,
    c: int,
    e1: int,
    e2: int,
    e3: int,
    e4: int,
    e5: int,
    o: int,
)
    requires
        0 <= x && 0 <= e1 && 0 <= e2 && 0 <= e3 && 0 <= e4 && 0 <= e5 && 0 < o,
        w <= x + e1,
        a <= w + e2,
        c <= a + e3 + e4,
        NEXT_BIT * e1 <= x,
        NEXT_BIT * e2 <= w + 0x1_0000_0000 * o,
        NEXT_BIT * e3 <= a + 25569 * (86_400_000_000 * o),
        NEXT_BIT * e4 <= a + e3,
        NEXT_BIT * e5 <= c,
    ensures
        NEXT_BIT * (e1 + e2 + e3 + e4 + e5) <= 8 * x + 0x10_0000_0000_0000 * o,
{
}

/// The errors of the steps from a timestamp to its serial number and back add up.
proof fn lemma_errors_add_up(x: int, w: int, a: int, b: int, c: int, d: int)
    requires
        NEXT_BIT * size(w - x * one()) <= size(x * one()),
        2 * size(a * MICROS_PER_DAY - w) <= MICROS_PER_DAY || NEXT_BIT * size(
            a * MICROS_PER_DAY - w,
        ) <= size(w),
        NEXT_BIT * size(b - (a + 25569 * one())) <= size(a + 25569 * one()),
        NEXT_BIT * size(c - (b - 25569 * one())) <= size(b - 25569 * one()),
        NEXT_BIT * size(d - c * MICROS_PER_DAY) <= size(c * MICROS_PER_DAY),
    ensures
        NEXT_BIT * size(d - x * one()) <= 8 * size(x * one()) + 0x10_0000_0000_0000 * one(),
{
    let o = one();
    let m = MICROS_PER_DAY as int;
    let e1 = w - x * o;
    let e2 = a * m - w;
    let e3 = b - (a + 25569 * o);
    let e4 = c - (b - 25569 * o);
    let e5 = d - c * m;
    let s3 = m * size(e3);
    let s4 = m * size(e4);
    lemma_pow2_adds(64, 1010);
    lemma_pow2_pos(1010);
    vstd::arithmetic::power2::lemma2_to64();
    assert(NEXT_BIT * m <= 0x1_0000_0000 * o) by (nonlinear_arith)
        requires
            o == 0x1_0000_0000_0000_0000 * pow2(1010),
            pow2(1010) >= 1,
            NEXT_BIT == 0x20_0000_0000_0000,
            m == 86_400_000_000,
    ;
    assert(NEXT_BIT * size(e2) <= size(w) + 0x1_0000_0000 * o);
    lemma_sizes_add_up(a, 25569 * o);
    lemma_sizes_add_up(a, e3);
    lemma_error_in_micros(e3, size(a) + 25569 * o, m);
    lemma_error_in_micros(e4, size(a) + size(e3), m);
    assert(m * (size(a) + 25569 * o) == size(a * m) + 25569 * (m * o) && m * (size(a) + size(e3))
        == size(a * m) + m * size(e3) && c * m == a * m + m * e3 + m * e4) by (nonlinear_arith)
        requires
            m > 0,
            c == a + e3 + e4,
    ;
    assert(size(c * m) <= size(a * m) + s3 + s4);
    assert(size(w) <= size(x * o) + size(e1));
    assert(size(a * m) <= size(w) + size(e2));
    lemma_error_bounds(
        size(x * o),
        size(w),
        size(a * m),
        size(c * m),
        size(e1),
        size(e2),
        s3,
        s4,
        size(e5),
        o,
    );
    assert(d - x * o == e1 + e2 + m * e3 + m * e4 + e5);
    assert(size(d - x * o) <= size(e1) + size(e2) + s3 + s4 + size(e5));
}

/// How far a timestamp in days is off.
proof fn lemma_step_to_days(us: i64)
    ensures
        ({
            let w = quotient(us as int, 1);
            let a = ratio(w, MICROS_PER_DAY as int);
            &&& NEXT_BIT * size(value(w) - us * one()) <= size(us * one())
            &&& 2 * size(value(a) * MICROS_PER_DAY - value(w)) <= MICROS_PER_DAY || NEXT_BIT * size(
                value(a) * MICROS_PER_DAY - value(w),
            ) <= size(value(w))
            &&& is_finite(a)
            &&& size(value(a)) <= 0x4_0000_0000_0000_0000 * one()
        }),
{
    let o = one();
    let m = MICROS_PER_DAY as int;
    let x = us as int;
    lemma_pow2_pos(1074);
    assert(size(x * o) <= 0x8000_0000_0000_0000 * o) by (nonlinear_arith)
        requires
            size(x) <= 0x8000_0000_0000_0000,
            o > 0,
    ;
    let w = quotient(x, 1);
    assert((0x8000_0000_0000_0000 * o) * 1 == 0x8000_0000_0000_0000 * o);
    lemma_rounded_error(x * o, 1, 0x8000_0000_0000_0000);
    assert(value(w) * 1 == value(w));
    lemma_sizes_add_up(x * o, value(w) - x * o);
    assert(size(value(w)) <= 0x1_0000_0000_0000_0000 * o);
    let a = ratio(w, m);
    let sw = size(value(w));
    assert(sw <= (0x1_0000_0000_0000_0000 * o) * m) by (nonlinear_arith)
        requires
            sw <= 0x1_0000_0000_0000_0000 * o,
            m >= 1,
            o > 0,
    ;
    lemma_ratio_error(w, m, 0x1_0000_0000_0000_0000);
    lemma_pow2_adds(64, 1010);
    lemma_pow2_pos(1010);
    vstd::arithmetic::power2::lemma2_to64();
    assert(o >= m);
    let va = value(a);
    lemma_sizes_add_up(value(w), va * m - value(w));
    assert(size(va * m) <= 0x4_0000_0000_0000_0000 * o);
    assert(size(va) <= size(va * m)) by (nonlinear_arith)
        requires
            m >= 1,
    ;
}

/// How far adding the days between the epochs is off, and taking them off again.
proof fn lemma_step_over_epochs(a: u64)
    requires
        is_finite(a),
        size(value(a)) <= 0x4_0000_0000_0000_0000 * one(),
    ensures
        ({
            let b = sum(a, 25569);
            let c = sum(b, -25569);
            &&& NEXT_BIT * size(value(b) - (value(a) + 25569 * one())) <= size(
                value(a) + 25569 * one(),
            )
            &&& NEXT_BIT * size(value(c) - (value(b) - 25569 * one())) <= size(
                value(b) - 25569 * one(),
            )
            &&& is_finite(c)
            &&& size(value(c)) <= 0x80_0000_0000_0000_0000 * one()
        }),
{
    let o = one();
    lemma_pow2_pos(1074);
    lemma_sizes_add_up(value(a), 25569 * o);
    lemma_sum_error(a, 25569, 0x10_0000_0000_0000_0000);
    let b = sum(a, 25569);
    lemma_sizes_add_up(value(a) + 25569 * o, value(b) - (value(a) + 25569 * o));
    lemma_sizes_add_up(value(b), -25569 * o);
    lemma_sum_error(b, -25569, 0x40_0000_0000_0000_0000);
    let c = sum(b, -25569);
    lemma_sizes_add_up(value(b) - 25569 * o, value(c) - (value(b) - 25569 * o));
}

/// How far a timestamp that was turned into a serial number and back is off, before it is
/// rounded to a whole number of microseconds.
proof fn lemma_timestamp_steps(us: i64)
    ensures
        ({
            let a = ratio(quotient(us as int, 1), MICROS_PER_DAY as int);
            let d = product(sum(sum(a, 25569), -25569), MICROS_PER_DAY as int);
            &&& is_finite(d)
            &&& NEXT_BIT * size(value(d) - us * one()) <= 8 * size(us * one())
                + 0x10_0000_0000_0000 * one()
        }),
{
    let o = one();
    let m = MICROS_PER_DAY as int;
    let x = us as int;
    lemma_pow2_pos(1074);
    let w = quotient(x, 1);
    let a = ratio(w, m);
    lemma_step_to_days(us);
    lemma_step_over_epochs(a);
    let b = sum(a, 25569);
    let c = sum(b, -25569);
    let vc = value(c);
    assert(size(vc * m) <= 0x1000_0000_0000_0000_0000_0000_0000 * o) by (nonlinear_arith)
        requires
            size(vc) <= 0x80_0000_0000_0000_0000 * o,
            m == 86_400_000_000,
            o > 0,
    ;
    lemma_product_error(c, m, 0x1000_0000_0000_0000_0000_0000_0000);
    lemma_errors_add_up(x, value(w), value(a), value(b), value(c), value(product(c, m)));
}

/// `TIMESTAMP` comes back to within a microsecond and the `2^50`-th part of its distance
/// from 1970-01-01.
pub proof fn lemma_timestamp_comes_back_closely(us: i64)
    ensures
        0x4_0000_0000_0000 * size(timestamp_read_back(us) - us) <= size(us as int)
            + 0x4_0000_0000_0000,
{
    let o = one();
    let x = us as int;
    lemma_pow2_pos(1074);
    lemma_timestamp_steps(us);
    let d = product(
        sum(timestamp_serial(us), -QLIK_EPOCH_OFFSET_DAYS as int),
        MICROS_PER_DAY as int,
    );
    lemma_half_away_error(value(d));
    let e = half_away(value(d), o);
    lemma_sizes_add_up(e * o - value(d), value(d) - x * o);
    assert(size(x * o) == size(x) * o) by (nonlinear_arith)
        requires
            o > 0,
    ;
    let g = size(e - x);
    assert(size(e * o - x * o) == g * o) by (nonlinear_arith)
        requires
            g == size(e - x),
            o > 0,
    ;
    let sx = size(x);
    assert(NEXT_BIT * g <= 8 * sx + 0x20_0000_0000_0000) by (nonlinear_arith)
        requires
            NEXT_BIT * (g * o) <= 8 * (sx * o) + 0x20_0000_0000_0000 * o,
            o > 0,
    ;
    assert(size(timestamp_read_back(us) - us) <= g);
}

/// A timestamp of less than 65536 days, in days: off by at most a third of a microsecond.
proof fn lemma_in_days(us: i64)
    requires
        -65_536 * MICROS_PER_DAY < us < 65_536 * MICROS_PER_DAY,
    ensures
        ({
            let a = ratio(quotient(us as int, 1), MICROS_PER_DAY as int);
            &&& is_finite(a)
            &&& 3 * size(value(a) * MICROS_PER_DAY - us * one()) <= one()
            &&& size(value(a)) <= 65_536 * one()
        }),
{
    let o = one();
    let d = MICROS_PER_DAY as int;
    let x = us as int;
    let n = size(x) * o;
    lemma_pow2_pos(1074);
    vstd::arithmetic::power2::lemma2_to64();
    vstd::arithmetic::power2::lemma2_to64_rest();
    lemma_whole_is_exact(x);
    let w = quotient(x, 1);
    assert(size(x * o) == n && 0 <= n <= 65_536 * (d * o) - o) by (nonlinear_arith)
        requires
            n == size(x) * o,
            size(x) <= 65_536 * d - 1,
            o > 0,
    ;
    lemma_units_step(0);
    assert(units(magnitude(w)) == n) by {
        if magnitude(w) > 0 {
            lemma_units_increase(0, magnitude(w));
        }
    }
    let r = nearest(n, d);
    let u = units(r);
    lemma_pow2_adds(37, 1037);
    lemma_pow2_pos(1037);
    let p = pow2(1037) as int;
    assert(o == 0x20_0000_0000 * p);
    assert(NEXT_BIT * (d * p) == 65_536 * (d * o) && (65_536 * o) * d == 65_536 * (d * o))
        by (nonlinear_arith)
        requires
            o == 0x20_0000_0000 * p,
            NEXT_BIT == 0x20_0000_0000_0000,
    ;
    lemma_finite_number(n, d, 65_536);
    lemma_nearest_error_at(n, d, 1037);
    assert(3 * (d * p) <= 2 * o) by (nonlinear_arith)
        requires
            o == 0x20_0000_0000 * p,
            d == 86_400_000_000,
            p > 0,
    ;
    assert((-u) * d == -(u * d)) by (nonlinear_arith);
    assert(negative(w) ==> x * o <= 0);
    assert(!negative(w) ==> x * o >= 0);
    let a = ratio(w, d);
    assert(magnitude(a) == r && negative(a) == negative(w));
    if r > 0 {
        lemma_units_increase(0, r);
    }
    assert(u <= 65_536 * o) by (nonlinear_arith)
        requires
            u * d <= (65_536 * o) * d,
            d > 0,
    ;
}

/// The digits of a number of 8192 to 65536 days.
proof fn lemma_digits_of_days(r: int)
    requires
        0 <= r,
        8192 * one() <= units(r) <= 65_536 * one(),
    ensures
        1035 <= scale(r) < 1074,
        0 <= significand(r) < NEXT_BIT,
        pow2(1035) <= pow2(scale(r) as nat),
{
    let o = one();
    let k = scale(r) as nat;
    let m = significand(r);
    let q = pow2(k) as int;
    lemma_pow2_pos(1074);
    lemma_pow2_pos(k);
    vstd::arithmetic::power2::lemma2_to64();
    vstd::arithmetic::power2::lemma2_to64_rest();
    if k >= 1074 {
        if k > 1074 {
            lemma_pow2_strictly_increases(1074, k);
        }
        assert(m * q >= 0x10_0000_0000_0000 * o) by (nonlinear_arith)
            requires
                m >= 0x10_0000_0000_0000,
                q >= o,
                o > 0,
        ;
    }
    lemma_pow2_adds(39, 1035);
    if k < 1035 {
        lemma_pow2_pos(1034);
        lemma_pow2_unfold(1035);
        if k < 1034 {
            lemma_pow2_strictly_increases(k, 1034);
        }
        let h = pow2(1034) as int;
        assert(m * q < 8192 * o) by (nonlinear_arith)
            requires
                0 <= m < 0x20_0000_0000_0000,
                0 < q <= h,
                o == 0x80_0000_0000 * (2 * h),
        ;
    }
    if k > 1035 {
        lemma_pow2_strictly_increases(1035, k);
    }
}

/// A number of days long before 1970 loses nothing when the days between the epochs are
/// added and taken off again.
proof fn lemma_early_days(days: u64)
    requires
        is_finite(days),
        -65_536 * one() <= value(days) < -13_000 * one(),
    ensures
        ({
            let serial = sum(days, QLIK_EPOCH_OFFSET_DAYS as int);
            let back = sum(serial, -QLIK_EPOCH_OFFSET_DAYS as int);
            is_finite(back) && value(back) == value(days)
        }),
{
    let o = one();
    let e = QLIK_EPOCH_OFFSET_DAYS as int;
    lemma_pow2_pos(1074);
    vstd::arithmetic::power2::lemma2_to64();
    vstd::arithmetic::power2::lemma2_to64_rest();
    lemma_pow2_adds(39, 1035);
    lemma_pow2_pos(1035);
    let r = magnitude(days);
    let u = units(r);
    lemma_units_step(0);
    if r > 0 {
        lemma_units_increase(0, r);
    }
    let k = scale(r) as nat;
    let m = significand(r);
    let q = pow2(k) as int;
    lemma_digits_of_days(r);
    let down = (1074 - k) as nat;
    lemma_pow2_adds(down, k);
    let y = pow2(down) as int;
    let least = pow2(1035) as int;
    let t = value(days) + e * o;
    let j = e * y - m;
    assert(j * q == e * (y * q) - m * q) by (nonlinear_arith)
        requires
            j == e * y - m,
    ;
    assert(t == j * q);
    assert(-0x20_0000_0000_0000 < j < 0x20_0000_0000_0000) by (nonlinear_arith)
        requires
            j * q < 12_569 * o,
            j == e * y - m,
            e >= 0,
            y >= 0,
            0 <= m < 0x20_0000_0000_0000,
            o == 0x80_0000_0000 * least,
            q >= least,
            least > 0,
    ;
    let b = lemma_representable(size(j), k);
    lemma_nearest_exact(b, 1);
    assert(size(t) == size(j) * q) by (nonlinear_arith)
        requires
            t == j * q,
            q > 0,
    ;
    assert(units(b) * 1 == size(t));
    assert(b < INFINITY) by (nonlinear_arith)
        requires
            b <= k * HIDDEN_BIT + size(j),
            k <= 1074,
            size(j) < NEXT_BIT,
            HIDDEN_BIT == 0x10_0000_0000_0000,
            NEXT_BIT == 0x20_0000_0000_0000,
            INFINITY == 0x7FF0_0000_0000_0000,
    ;
    let serial = sum(days, e);
    assert(is_finite(serial) && value(serial) == t);
    assert((-e) * o == -(e * o)) by (nonlinear_arith);
    lemma_nearest_exact(r, 1);
    assert(u * 1 == u);
}

/// A number of days from 1934 to 2079 moves by at most the 2^38-th part of a day when the
/// days between the epochs are added and taken off again.
proof fn lemma_later_days(days: u64)
    requires
        is_finite(days),
        -13_000 * one() <= value(days) < 39_967 * one(),
    ensures
        ({
            let serial = sum(days, QLIK_EPOCH_OFFSET_DAYS as int);
            let back = sum(serial, -QLIK_EPOCH_OFFSET_DAYS as int);
            is_finite(back) && 2 * size(value(back) - value(days)) <= pow2(1037)
        }),
{
    let o = one();
    let e = QLIK_EPOCH_OFFSET_DAYS as int;
    lemma_pow2_pos(1074);
    vstd::arithmetic::power2::lemma2_to64();
    vstd::arithmetic::power2::lemma2_to64_rest();
    lemma_pow2_adds(37, 1037);
    lemma_pow2_pos(1037);
    let p = pow2(1037) as int;
    let t = value(days) + e * o;
    let serial = sum(days, e);
    let s = nearest(t, 1);
    let v = units(s);
    assert(1 * p == p);
    lemma_nearest_error_at(t, 1, 1037);
    assert((65_536 * o) * 1 == 65_536 * o);
    lemma_finite_number(t, 1, 65_536);
    assert(v * 1 == v);
    let low = lemma_representable(12_569, 1074);
    let high = lemma_representable(65_536, 1074);
    lemma_rounding_stays_between(t, low, high);
    assert(magnitude(serial) == s && !negative(serial));
    lemma_serial_without_epoch(serial);
}

/// How far a number of days in microseconds is off, once it is rounded.
proof fn lemma_days_in_micros(days: u64, k: nat)
    requires
        is_finite(days),
        size(value(days)) <= 65_536 * one(),
        size(value(days) * MICROS_PER_DAY) < NEXT_BIT * pow2(k),
    ensures
        ({
            let micros = product(days, MICROS_PER_DAY as int);
            &&& is_finite(micros)
            &&& 2 * size(value(micros) - value(days) * MICROS_PER_DAY) <= pow2(k)
        }),
{
    let o = one();
    let d = MICROS_PER_DAY as int;
    let c = value(days);
    let n = size(c * d);
    let u = units(magnitude(days));
    lemma_pow2_pos(1074);
    lemma_units_step(0);
    if magnitude(days) > 0 {
        lemma_units_increase(0, magnitude(days));
    }
    assert(u * d == n && (-u) * d == -(u * d) && n <= (65_536 * d) * o) by (nonlinear_arith)
        requires
            n == size(c * d),
            c == u || c == -u,
            0 <= u <= 65_536 * o,
            d > 0,
    ;
    assert(1 * pow2(k) == pow2(k));
    lemma_nearest_error_at(n, 1, k);
    assert(((65_536 * d) * o) * 1 == (65_536 * d) * o);
    lemma_finite_number(n, 1, 65_536 * d);
    let v = units(nearest(n, 1));
    assert(v * 1 == v);
}

/// The days that are read back for a timestamp are off by at most a third of a microsecond
/// before 1934, and by at most two thirds from then until 2079.
proof fn lemma_days_read_back(us: i64)
    requires
        -65_536 * MICROS_PER_DAY < us < 39_967 * MICROS_PER_DAY,
    ensures
        ({
            let back = sum(timestamp_serial(us), -QLIK_EPOCH_OFFSET_DAYS as int);
            &&& is_finite(back)
            &&& size(value(back)) <= 65_536 * one()
            &&& 3 * size(value(back) * MICROS_PER_DAY - us * one()) <= if us < -13_001
                * MICROS_PER_DAY {
                one()
            } else {
                2 * one()
            }
        }),
{
    let o = one();
    let d = MICROS_PER_DAY as int;
    let e = QLIK_EPOCH_OFFSET_DAYS as int;
    let x = us as int;
    lemma_pow2_pos(1074);
    lemma_in_days(us);
    let days = ratio(quotient(x, 1), d);
    let a = value(days);
    assert(x * o <= 39_967 * (d * o) - o && (39_967 * o) * d == 39_967 * (d * o))
        by (nonlinear_arith)
        requires
            x <= 39_967 * d - 1,
            o > 0,
    ;
    assert(a < 39_967 * o) by (nonlinear_arith)
        requires
            a * d < (39_967 * o) * d,
            d > 0,
    ;
    if a < -13_000 * o {
        lemma_early_days(days);
    } else {
        if x < -13_001 * d {
            assert(x * o <= -13_001 * (d * o)) by (nonlinear_arith)
                requires
                    x <= -13_001 * d,
                    o > 0,
            ;
            assert(a * d >= -13_000 * (d * o)) by (nonlinear_arith)
                requires
                    a >= -13_000 * o,
                    d > 0,
            ;
            assert(d * o >= o) by (nonlinear_arith)
                requires
                    d >= 1,
                    o > 0,
            ;
        }
        lemma_later_days(days);
        lemma_pow2_adds(37, 1037);
        vstd::arithmetic::power2::lemma2_to64();
        vstd::arithmetic::power2::lemma2_to64_rest();
        lemma_pow2_pos(1037);
        let p = pow2(1037) as int;
        let c = value(sum(sum(days, e), -e));
        let g = c - a;
        assert(c * d - a * d == d * g && 3 * size(d * g) <= o) by (nonlinear_arith)
            requires
                g == c - a,
                2 * size(g) <= p,
                o == 0x20_0000_0000 * p,
                d == 86_400_000_000,
        ;
        lemma_sizes_add_up(c * d - a * d, a * d - x * o);
        lemma_sizes_add_up(g, a);
    }
}

/// `TIMESTAMP` comes back to within a microsecond from 1790-07-27 until 2079-06-05: as long
/// as it is less than 65536 days from 1970-01-01 and from Qlik's epoch.
pub proof fn lemma_recent_timestamp_comes_back(us: i64)
    requires
        -65_536 * MICROS_PER_DAY < us < 39_967 * MICROS_PER_DAY,
    ensures
        us - 1 <= timestamp_read_back(us) <= us + 1,
{
    let o = one();
    let d = MICROS_PER_DAY as int;
    let x = us as int;
    lemma_pow2_pos(1074);
    lemma_pow2_unfold(1074);
    lemma_days_read_back(us);
    let days = sum(timestamp_serial(us), -QLIK_EPOCH_OFFSET_DAYS as int);
    let c = value(days);
    let top = if us < -13_001 * d {
        65_536 * d
    } else {
        39_967 * d
    };
    assert(size(x * o) <= top * o - o) by (nonlinear_arith)
        requires
            size(x) <= top - 1,
            o > 0,
    ;
    lemma_sizes_add_up(x * o, c * d - x * o);
    assert(size(c * d) <= top * o);
    let k: nat = if us < -13_001 * d {
        1074
    } else {
        1073
    };
    let p = pow2(k) as int;
    assert(top * o < NEXT_BIT * p) by (nonlinear_arith)
        requires
            top == 65_536 * d && o == p || top == 39_967 * d && o == 2 * p,
            d == 86_400_000_000,
            NEXT_BIT == 0x20_0000_0000_0000,
            o > 0,
    ;
    lemma_days_in_micros(days, k);
    let v = value(product(days, d));
    lemma_half_away_error(v);
    let e = half_away(v, o);
    lemma_sizes_add_up(v - c * d, c * d - x * o);
    lemma_sizes_add_up(e * o - v, v - x * o);
    assert(-1 <= e - x <= 1) by (nonlinear_arith)
        requires
            -3 * o < 2 * (e * o - x * o) < 3 * o,
            o > 0,
    ;
}

/// A timestamp of less than `2^50` microseconds, in days: off by less than a twelfth of a
/// microsecond.
proof fn lemma_close_days(us: i64)
    requires
        -0x4_0000_0000_0000 < us < 0x4_0000_0000_0000,
    ensures
        ({
            let a = ratio(quotient(us as int, 1), MICROS_PER_DAY as int);
            &&& is_finite(a)
            &&& 2 * size(value(a) * MICROS_PER_DAY - us * one()) <= MICROS_PER_DAY * pow2(1035)
            &&& size(value(a)) <= 13_032 * one()
        }),
{
    let o = one();
    let d = MICROS_PER_DAY as int;
    let x = us as int;
    let n = size(x) * o;
    lemma_pow2_pos(1074);
    vstd::arithmetic::power2::lemma2_to64();
    vstd::arithmetic::power2::lemma2_to64_rest();
    lemma_whole_is_exact(x);
    let w = quotient(x, 1);
    assert(size(x * o) == n && 0 <= n <= 0x4_0000_0000_0000 * o) by (nonlinear_arith)
        requires
            n == size(x) * o,
            size(x) <= 0x4_0000_0000_0000,
            o > 0,
    ;
    assert(units(magnitude(w)) == n) by {
        lemma_units_step(0);
        if magnitude(w) > 0 {
            lemma_units_increase(0, magnitude(w));
        }
    }
    let r = nearest(n, d);
    let u = units(r);
    lemma_pow2_adds(39, 1035);
    lemma_pow2_pos(1035);
    let p = pow2(1035) as int;
    assert(o == 0x80_0000_0000 * p);
    assert(NEXT_BIT * (d * p) == 16_384 * (d * o) && (13_032 * o) * d == 13_032 * (d * o) && d * o
        == 86_400_000_000 * o) by (nonlinear_arith)
        requires
            o == 0x80_0000_0000 * p,
            NEXT_BIT == 0x20_0000_0000_0000,
            d == 86_400_000_000,
    ;
    lemma_finite_number(n, d, 13_032);
    lemma_nearest_error_at(n, d, 1035);
    assert((-u) * d == -(u * d)) by (nonlinear_arith);
    assert(value(w) == x * o);
    assert(negative(w) ==> x * o <= 0);
    assert(!negative(w) ==> x * o >= 0);
    let a = ratio(w, d);
    assert(magnitude(a) == r && negative(a) == negative(w));
    assert(d * p <= o) by (nonlinear_arith)
        requires
            o == 0x80_0000_0000 * p,
            d == 86_400_000_000,
            p > 0,
    ;
    lemma_units_step(0);
    if r > 0 {
        lemma_units_increase(0, r);
    }
    assert(u <= 13_032 * o) by (nonlinear_arith)
        requires
            u * d <= (13_032 * o) * d,
            d > 0,
    ;
}

/// A number of days around the epoch of Qlik's serial numbers loses nothing when the days
/// between the epochs are taken off a serial number of it.
proof fn lemma_serial_without_epoch(serial: u64)
    requires
        is_finite(serial),
        12_000 * one() <= value(serial) <= 65_536 * one(),
    ensures
        is_finite(sum(serial, -QLIK_EPOCH_OFFSET_DAYS as int)),
        value(sum(serial, -QLIK_EPOCH_OFFSET_DAYS as int)) == value(serial)
            - QLIK_EPOCH_OFFSET_DAYS * one(),
{
    let o = one();
    let e = QLIK_EPOCH_OFFSET_DAYS as int;
    lemma_pow2_pos(1074);
    vstd::arithmetic::power2::lemma2_to64();
    vstd::arithmetic::power2::lemma2_to64_rest();
    let s = magnitude(serial);
    let v = units(s);
    lemma_units_step(0);
    if s > 0 {
        lemma_units_increase(0, s);
    }
    let k = scale(s) as nat;
    let m = significand(s);
    let q = pow2(k) as int;
    lemma_digits_of_days(s);
    let down = (1074 - k) as nat;
    lemma_pow2_adds(down, k);
    let y = pow2(down) as int;
    let c = v - e * o;
    let rest = m - e * y;
    assert(rest * q == m * q - e * (y * q)) by (nonlinear_arith)
        requires
            rest == m - e * y,
    ;
    assert(c == rest * q);
    let least = pow2(1035) as int;
    lemma_pow2_adds(39, 1035);
    lemma_pow2_pos(1035);
    assert(-0x20_0000_0000_0000 < rest < 0x20_0000_0000_0000) by (nonlinear_arith)
        requires
            -13_569 * o <= rest * q,
            rest == m - e * y,
            e >= 0,
            y >= 0,
            m < 0x20_0000_0000_0000,
            o == 0x80_0000_0000 * least,
            q >= least,
            least > 0,
    ;
    let b = lemma_representable(size(rest), k);
    lemma_nearest_exact(b, 1);
    assert(size(c) == size(rest) * q) by (nonlinear_arith)
        requires
            c == rest * q,
            q > 0,
    ;
    assert(units(b) * 1 == size(c));
    assert((-e) * o == -(e * o)) by (nonlinear_arith);
    assert(b < INFINITY) by (nonlinear_arith)
        requires
            b <= k * HIDDEN_BIT + size(rest),
            k <= 1074,
            size(rest) < NEXT_BIT,
            HIDDEN_BIT == 0x10_0000_0000_0000,
            NEXT_BIT == 0x20_0000_0000_0000,
            INFINITY == 0x7FF0_0000_0000_0000,
    ;
}

/// `TIMESTAMP` comes back as the same microsecond where it is less than `2^50`
/// microseconds away from 1970-01-01: from 1934 to 2005.
pub proof fn lemma_close_timestamp_comes_back(us: i64)
    requires
        -0x4_0000_0000_0000 < us < 0x4_0000_0000_0000,
    ensures
        timestamp_read_back(us) == us,
{
    let o = one();
    let d = MICROS_PER_DAY as int;
    let e = QLIK_EPOCH_OFFSET_DAYS as int;
    let x = us as int;
    lemma_pow2_pos(1074);
    vstd::arithmetic::power2::lemma2_to64();
    vstd::arithmetic::power2::lemma2_to64_rest();
    lemma_close_days(us);
    let days = ratio(quotient(x, 1), d);
    let a = value(days);
    let p = pow2(1035) as int;
    lemma_pow2_adds(39, 1035);
    lemma_pow2_adds(2, 1035);
    lemma_pow2_pos(1035);
    assert(o == 0x80_0000_0000 * p && pow2(1037) == 4 * p);
    // The serial number.
    let t = a + e * o;
    let serial = sum(days, e);
    assert(1 * (4 * p) == 4 * p && (40_000 * o) * 1 == 40_000 * o);
    lemma_nearest_error_at(t, 1, 1037);
    lemma_finite_number(t, 1, 40_000);
    let b = units(nearest(t, 1));
    assert(b * 1 == b);
    assert(is_finite(serial) && value(serial) == b);
    lemma_serial_without_epoch(serial);
    let rest = sum(serial, -e);
    let c = value(rest);
    assert(c == b - e * o);
    // What is left of it in microseconds.
    let g = c - a;
    assert(d * g == c * d - a * d && size(d * g) <= 2 * (d * p)) by (nonlinear_arith)
        requires
            g == c - a,
            2 * size(g) <= 4 * p,
            d > 0,
    ;
    lemma_sizes_add_up(d * g, a * d - x * o);
    assert(25 * (d * p) <= 4 * o) by (nonlinear_arith)
        requires
            o == 0x80_0000_0000 * p,
            d == 86_400_000_000,
            p > 0,
    ;
    assert(5 * size(c * d - x * o) <= 2 * o);
    let n = size(c * d);
    assert(size(x * o) <= 0x4_0000_0000_0000 * o - o) by (nonlinear_arith)
        requires
            size(x) <= 0x4_0000_0000_0000 - 1,
            o > 0,
    ;
    lemma_sizes_add_up(x * o, c * d - x * o);
    assert(n < 0x4_0000_0000_0000 * o);
    lemma_pow2_adds(3, 1071);
    lemma_pow2_pos(1071);
    let h = pow2(1071) as int;
    assert(o == 8 * h && 1 * h == h);
    let u = units(magnitude(rest));
    lemma_units_step(0);
    if magnitude(rest) > 0 {
        lemma_units_increase(0, magnitude(rest));
    }
    assert(u * d == n && (-u) * d == -(u * d)) by (nonlinear_arith)
        requires
            n == size(c * d),
            c == u || c == -u,
            u >= 0,
            d > 0,
    ;
    lemma_nearest_error_at(n, 1, 1071);
    assert((0x4_0000_0000_0000 * o) * 1 == 0x4_0000_0000_0000 * o);
    lemma_finite_number(n, 1, 0x4_0000_0000_0000);
    let v = units(nearest(n, 1));
    assert(v * 1 == v);
    let micros = product(rest, d);
    assert(is_finite(micros));
    assert(2 * size(value(micros) - c * d) <= h);
    lemma_sizes_add_up(value(micros) - c * d, c * d - x * o);
    assert(distance(value(micros), x * o) == size(value(micros) - x * o));
    lemma_half_away_is_near(value(micros), x);
}

} // verus!
