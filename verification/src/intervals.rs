//! What is read back of a duration of any length.
//!
//! A duration is written as a double, counting days, and read back as its whole days and
//! the microseconds beyond them. Below 65536 days doubles are dense enough to tell
//! microseconds apart; beyond, they are not.

use vstd::prelude::*;
use vstd::arithmetic::power2::lemma_pow2_adds;
use vstd::arithmetic::power2::lemma_pow2_pos;
use crate::convert::{
    converted,
    interval_of,
    CellValue,
    IntervalVal,
    MICROS_PER_DAY,
    QvdSymbol,
    QvdValue,
};
use crate::copy::{interval_micros, RawValue, WriteKind};
use crate::double::{
    beyond_whole,
    half_away,
    is_finite,
    magnitude,
    negative,
    one,
    product,
    quotient,
    truncated,
    value,
};
use crate::double::lemma_representable;
use crate::kind::Kind;
use crate::rounding::{nearest, units, NEXT_BIT};
use crate::rounding::{lemma_nearest_is_nearest, lemma_units_increase, lemma_units_step};
use crate::accuracy::{
    size,
    lemma_finite_number,
    lemma_fraction_is_exact,
    lemma_half_away_error,
    lemma_product_error,
    lemma_rounded_error,
    lemma_sizes_add_up,
};
use crate::round_trip::stands_for;

verus! {

/// The whole days of the double that a duration is written as.
pub open spec fn whole_days(x: IntervalVal) -> int {
    truncated(value(quotient(interval_micros(x), MICROS_PER_DAY as int)), one())
}

/// The whole part of a number and the rest make up the number.
proof fn lemma_whole_and_rest(bits: u64)
    requires
        is_finite(bits),
    ensures
        is_finite(beyond_whole(bits)),
        value(bits) == truncated(value(bits), one()) * one() + value(beyond_whole(bits)),
        size(value(beyond_whole(bits))) < one(),
{
    let o = one();
    let u = units(magnitude(bits));
    lemma_pow2_pos(1074);
    lemma_units_step(0);
    if magnitude(bits) > 0 {
        lemma_units_increase(0, magnitude(bits));
    }
    lemma_fraction_is_exact(magnitude(bits));
    vstd::arithmetic::div_mod::lemma_fundamental_div_mod(u, o);
    vstd::arithmetic::div_mod::lemma_mod_pos_bound(u, o);
    vstd::arithmetic::div_mod::lemma_div_of0(o);
    let q = u / o;
    assert(o * q == q * o && (-q) * o == -(q * o)) by (nonlinear_arith);
}

/// The errors of the steps from a duration to days and back add up.
proof fn lemma_errors_add_up(t: int, u: int, days: int, rest: int, v: int, h: int)
    requires
        2 * size(u * MICROS_PER_DAY - t * one()) <= MICROS_PER_DAY || NEXT_BIT * size(
            u * MICROS_PER_DAY - t * one(),
        ) <= size(t * one()),
        u == days * one() + rest,
        size(rest) < one(),
        NEXT_BIT * size(v - rest * MICROS_PER_DAY) <= size(rest * MICROS_PER_DAY),
        2 * size(h * one() - v) <= one(),
    ensures
        NEXT_BIT * size(days * MICROS_PER_DAY + h - t) <= size(t) + NEXT_BIT,
{
    let o = one();
    let m = MICROS_PER_DAY as int;
    let e1 = u * m - t * o;
    let e2 = v - rest * m;
    let e3 = h * o - v;
    let e = days * m + h - t;
    lemma_pow2_adds(64, 1010);
    lemma_pow2_pos(1010);
    vstd::arithmetic::power2::lemma2_to64();
    assert(4 * m <= o);
    assert(u * m == (days * m) * o + rest * m && e * o == (days * m) * o + h * o - t * o)
        by (nonlinear_arith)
        requires
            u == days * o + rest,
            e == days * m + h - t,
    ;
    assert(e * o == e1 + e2 + e3);
    assert(size(rest * m) <= m * o) by (nonlinear_arith)
        requires
            size(rest) < o,
            m > 0,
    ;
    lemma_sizes_add_up(e1, e2);
    lemma_sizes_add_up(e1 + e2, e3);
    assert(size(e * o) == size(e) * o && size(t * o) == size(t) * o) by (nonlinear_arith)
        requires
            o > 0,
    ;
    assert(2 * (NEXT_BIT * size(e1)) <= 2 * (size(t) * o) + NEXT_BIT * m);
    assert(NEXT_BIT * (size(e) * o) <= size(t) * o + NEXT_BIT * o);
    assert(NEXT_BIT * size(e) <= size(t) + NEXT_BIT) by (nonlinear_arith)
        requires
            NEXT_BIT * (size(e) * o) <= size(t) * o + NEXT_BIT * o,
            o > 0,
    ;
}

/// `INTERVAL` comes back to within a microsecond and the `2^53`-th part of its length, with
/// a month counted as 30 days, as long as 32 bits hold its days.
pub proof fn lemma_interval_comes_back_closely(x: IntervalVal, symbol: QvdSymbol)
    requires
        i32::MIN <= whole_days(x) <= i32::MAX,
        stands_for(symbol, WriteKind::Interval.written(RawValue::Interval(x))),
    ensures
        converted(Kind::Interval, QvdValue::Symbol(symbol)) matches CellValue::Interval(y)
            && NEXT_BIT * size(interval_micros(y) - interval_micros(x)) <= size(interval_micros(x))
            + NEXT_BIT,
{
    let o = one();
    let m = MICROS_PER_DAY as int;
    let t = interval_micros(x);
    let bits = quotient(t, m);
    lemma_pow2_pos(1074);
    assert(size(t) <= 0x100_0000_0000 * m);
    assert(size(t * o) <= (0x100_0000_0000 * o) * m) by (nonlinear_arith)
        requires
            size(t) <= 0x100_0000_0000 * m,
            o > 0,
    ;
    lemma_rounded_error(t * o, m, 0x100_0000_0000);
    lemma_whole_and_rest(bits);
    let rest = beyond_whole(bits);
    let vr = value(rest);
    assert(size(vr * m) <= m * o) by (nonlinear_arith)
        requires
            size(vr) < o,
            m > 0,
    ;
    lemma_product_error(rest, m, m);
    let v = value(product(rest, m));
    lemma_half_away_error(v);
    let h = half_away(v, o);
    lemma_errors_add_up(t, value(bits), whole_days(x), vr, v, h);
    assert(-(2 * m) <= h <= 2 * m) by {
        lemma_sizes_add_up(vr * m, v - vr * m);
        assert(size(v) <= 2 * (m * o));
        assert(-(2 * m) <= h <= 2 * m) by (nonlinear_arith)
            requires
                2 * size(h * o - v) <= o,
                size(v) <= 2 * (m * o),
                o > 0,
        ;
    }
    assert(interval_micros(interval_of(bits)) == whole_days(x) * m + h);
}

/// 32 bits hold the days of a duration that lies between the least and the largest number
/// of days that 32 bits hold.
pub proof fn lemma_days_fit(x: IntervalVal)
    requires
        i32::MIN * MICROS_PER_DAY <= interval_micros(x) <= i32::MAX * MICROS_PER_DAY,
    ensures
        i32::MIN <= whole_days(x) <= i32::MAX,
{
    let o = one();
    let m = MICROS_PER_DAY as int;
    let t = interval_micros(x);
    let a = size(t);
    let top = if t < 0 {
        0x8000_0000
    } else {
        0x7FFF_FFFF
    };
    lemma_pow2_pos(1074);
    let b = lemma_representable(top, 1074);
    let r = nearest(a * o, m);
    assert((-t) * o == -(t * o)) by (nonlinear_arith);
    assert(0 <= a * o <= (top * o) * m && (t < 0 ==> t * o < 0) && (t >= 0 ==> t * o >= 0))
        by (nonlinear_arith)
        requires
            a == size(t),
            a <= top * m,
            o > 0,
    ;
    lemma_finite_number(a * o, m, top);
    lemma_nearest_is_nearest(a * o, m, b);
    let u = units(r);
    lemma_units_step(0);
    if r > 0 {
        lemma_units_increase(0, r);
    }
    assert(u <= top * o) by {
        if u > top * o {
            assert(u * m > (top * o) * m) by (nonlinear_arith)
                requires
                    u > top * o,
                    m > 0,
            ;
        }
    }
    assert(0 <= u / o <= top) by {
        vstd::arithmetic::div_mod::lemma_fundamental_div_mod(u, o);
        vstd::arithmetic::div_mod::lemma_mod_pos_bound(u, o);
        let q = u / o;
        let f = u % o;
        assert(0 <= q <= top) by (nonlinear_arith)
            requires
                u == o * q + f,
                0 <= f < o,
                0 <= u <= top * o,
        ;
    }
    vstd::arithmetic::div_mod::lemma_div_of0(o);
    let bits = quotient(t, m);
    assert(magnitude(bits) == r && negative(bits) == (t < 0));
}

} // verus!
