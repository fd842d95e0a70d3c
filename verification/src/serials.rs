//! What comes of the values of a file.
//!
//! The laws here say what a value is read as in a column of each kind, in terms of the
//! number or the text that the file stores.

use vstd::prelude::*;
use vstd::arithmetic::power2::pow2;
use vstd::arithmetic::power2::lemma_pow2_adds;
use vstd::arithmetic::power2::lemma_pow2_pos;
use crate::accuracy::size;
use crate::convert::{converted, days_of, integer_of, interval_of, micros_of};
use crate::convert::{number_of, text_of, time_of};
use crate::convert::{Cell, CellValue, QvdSymbol, QvdValue};
use crate::double::{
    above_floor,
    beyond_whole,
    is_finite,
    is_nan,
    magnitude,
    negative,
    one,
    product,
    quotient,
    sum,
    value,
};
use crate::double::{lemma_representable, lemma_whole_is_exact};
use crate::ieee::{is_closest, is_nearest_whole, is_whole_part};
use crate::ieee::{
    lemma_above_floor_is_closest,
    lemma_beyond_whole_is_exact,
    lemma_cut_is_whole_part,
    lemma_product_is_closest,
    lemma_round_is_nearest_whole,
    lemma_small_products_are_finite,
    lemma_some_whole_is_nearest,
    lemma_sum_is_closest,
};
use crate::kind::Kind;
use crate::rounding::{units, INFINITY};
use crate::rounding::{lemma_nearest_exact, lemma_units_increase, lemma_units_step};
use crate::text::{
    all_space,
    double_text,
    is_space,
    lemma_trimming_keeps_the_core,
    parsed_double,
    parsed_i64,
    signed_decimal,
};

verus! {

/// What a cell holds is what is in it.
pub proof fn lemma_view_of_a_cell(cell: Cell)
    ensures
        match cell {
            Cell::I64(x) => cell@ == CellValue::I64(x),
            Cell::F64(x) => cell@ == CellValue::F64(x),
            Cell::Str(s) => cell@ == CellValue::Str(s@),
            Cell::I32(x) => cell@ == CellValue::I32(x),
            Cell::Interval(x) => cell@ == CellValue::Interval(x),
            Cell::Null => cell@ is Null,
        },
{
}

/// A number that is stored beside a text is read exactly as the same number stored alone,
/// in a column of any kind but text.
pub proof fn lemma_duals_are_read_as_numbers(kind: Kind, n: i32, f: u64, t: String)
    requires
        !(kind is Text),
    ensures
        converted(kind, QvdValue::Symbol(QvdSymbol::DualDouble(f, t))) == converted(
            kind,
            QvdValue::Symbol(QvdSymbol::Double(f)),
        ),
        converted(kind, QvdValue::Symbol(QvdSymbol::DualInt(n, t))) == converted(
            kind,
            QvdValue::Symbol(QvdSymbol::Int(n)),
        ),
{
}

/// In a text column a text comes out as it is stored, alone or beside a number; a number
/// that is stored alone comes out as its text.
pub proof fn lemma_texts_are_read_as_stored(n: i32, f: u64, t: String)
    ensures
        converted(Kind::Text, QvdValue::Symbol(QvdSymbol::Text(t))) == CellValue::Str(t@),
        converted(Kind::Text, QvdValue::Symbol(QvdSymbol::DualInt(n, t))) == CellValue::Str(t@),
        converted(Kind::Text, QvdValue::Symbol(QvdSymbol::DualDouble(f, t))) == CellValue::Str(t@),
        converted(Kind::Text, QvdValue::Symbol(QvdSymbol::Int(n))) == CellValue::Str(
            signed_decimal(n as int),
        ),
        converted(Kind::Text, QvdValue::Symbol(QvdSymbol::Double(f))) == CellValue::Str(
            double_text(f),
        ),
{
}

/// `NULL` is read as `NULL`, and a number never is.
pub proof fn lemma_null_is_read_as_null(kind: Kind, n: i32, f: u64, t: String)
    ensures
        converted(kind, QvdValue::Null) is Null,
        !(converted(kind, QvdValue::Symbol(QvdSymbol::Int(n))) is Null),
        !(converted(kind, QvdValue::Symbol(QvdSymbol::Double(f))) is Null),
        !(converted(kind, QvdValue::Symbol(QvdSymbol::DualInt(n, t))) is Null),
        !(converted(kind, QvdValue::Symbol(QvdSymbol::DualDouble(f, t))) is Null),
{
}

/// A text in a column of numbers is read as the number that it spells, whatever white space
/// is around it, and as `NULL` where it spells none.
pub proof fn lemma_numbers_in_texts_are_read(
    kind: Kind,
    t: String,
    before: Seq<char>,
    core: Seq<char>,
    after: Seq<char>,
)
    requires
        t@ == before + core + after,
        all_space(before),
        all_space(after),
        core.len() > 0 ==> !is_space(core[0]) && !is_space(core.last()),
        !(kind is Text),
    ensures
        kind is Int ==> converted(kind, QvdValue::Symbol(QvdSymbol::Text(t))) == match parsed_i64(
            core,
        ) {
            Some(x) => CellValue::I64(x),
            None => CellValue::Null,
        },
        !(kind is Int) ==> converted(kind, QvdValue::Symbol(QvdSymbol::Text(t)))
            == match parsed_double(core) {
            Some(f) => converted(kind, QvdValue::Symbol(QvdSymbol::Double(f))),
            None => CellValue::Null,
        },
{
    lemma_trimming_keeps_the_core(before, core, after);
}

/// A double with the value of a whole number is the one that the number becomes.
proof fn lemma_double_of_a_whole(n: i32, f: u64)
    requires
        is_finite(f),
        value(f) == n * one(),
        n == 0 ==> f == 0,
    ensures
        quotient(n as int, 1) == f,
{
    let o = one();
    lemma_pow2_pos(1074);
    let m = magnitude(f);
    lemma_units_step(0);
    if m > 0 {
        lemma_units_increase(0, m);
    }
    assert(n < 0 ==> n * o < 0) by (nonlinear_arith)
        requires
            o > 0,
    ;
    assert(n > 0 ==> n * o > 0) by (nonlinear_arith)
        requires
            o > 0,
    ;
    lemma_nearest_exact(m, 1);
    assert(units(m) * 1 == units(m));
}

/// A whole number that is stored as such is read exactly as the same number stored as a
/// double, in a column of any kind but text. In a column of whole numbers it comes out as it
/// is, and a double comes out as it is in a column of doubles.
pub proof fn lemma_whole_numbers_are_read_as_doubles(kind: Kind, n: i32, f: u64)
    requires
        !(kind is Text),
        is_finite(f),
        value(f) == n * one(),
        n == 0 ==> f == 0,
    ensures
        converted(kind, QvdValue::Symbol(QvdSymbol::Int(n))) == converted(
            kind,
            QvdValue::Symbol(QvdSymbol::Double(f)),
        ),
{
    lemma_double_of_a_whole(n, f);
    let o = one();
    lemma_pow2_pos(1074);
    assert((n + 1) * o == n * o + o && (n - 1) * o == n * o - o) by (nonlinear_arith);
    lemma_cut_is_whole_part(f, n as int, i64::MIN as int, i64::MAX as int);
}

/// In a column of doubles a double comes out as the same bits.
pub proof fn lemma_doubles_are_read_as_stored(f: u64)
    ensures
        converted(Kind::Float, QvdValue::Symbol(QvdSymbol::Double(f))) == CellValue::F64(f),
{
}

/// In a column of whole numbers a double is cut towards 0; one beyond 64 bits becomes the
/// bound on its side, and what is no number becomes 0. A whole number comes out as it is.
pub proof fn lemma_doubles_are_read_as_whole_numbers(n: i32, f: u64, q: int)
    requires
        is_finite(f) ==> is_whole_part(q, value(f)),
    ensures
        converted(Kind::Int, QvdValue::Symbol(QvdSymbol::Int(n))) == CellValue::I64(n as i64),
        converted(Kind::Int, QvdValue::Symbol(QvdSymbol::Double(f))) matches CellValue::I64(x) && {
            &&& is_finite(f) && i64::MIN <= q <= i64::MAX ==> x == q
            &&& is_finite(f) && q < i64::MIN ==> x == i64::MIN
            &&& is_finite(f) && q > i64::MAX ==> x == i64::MAX
            &&& is_nan(f) ==> x == 0
            &&& !is_nan(f) && !is_finite(f) ==> x == if negative(f) {
                i64::MIN
            } else {
                i64::MAX
            }
        },
{
    lemma_cut_is_whole_part(f, q, i64::MIN as int, i64::MAX as int);
}

/// The day of a serial number: the serial number less the 25569 days from 1899-12-30 to
/// 1970-01-01, as a double, rounded to a whole number, halves away from 0.
pub proof fn lemma_day_of_a_serial(f: u64) -> (r: (u64, int))
    ensures
        converted(Kind::Date, QvdValue::Symbol(QvdSymbol::Double(f))) matches CellValue::I32(day)
            && {
            let (days, q) = r;
            &&& is_finite(f) ==> {
                &&& is_closest(days, value(f) - 25_569 * one(), 1)
                &&& is_nearest_whole(q, value(days))
                &&& i32::MIN <= q <= i32::MAX ==> day == q
                &&& q < i32::MIN ==> day == i32::MIN
                &&& q > i32::MAX ==> day == i32::MAX
            }
            &&& is_nan(f) ==> day == 0
            &&& !is_nan(f) && !is_finite(f) ==> day == if negative(f) {
                i32::MIN
            } else {
                i32::MAX
            }
        },
{
    let days = sum(f, -25_569);
    lemma_sum_is_closest(f, -25_569);
    let q = lemma_some_whole_is_nearest(value(days));
    lemma_round_is_nearest_whole(days, q, i32::MIN as int, i32::MAX as int);
    assert((-25_569) * one() == -(25_569 * one()));
    (days, q)
}

/// The moment of a serial number: the serial number less the 25569 days from 1899-12-30 to
/// 1970-01-01, as a double; times the microseconds of a day, as a double; rounded to a whole
/// number, halves away from 0.
pub proof fn lemma_moment_of_a_serial(f: u64) -> (r: (u64, u64, int))
    ensures
        converted(Kind::Timestamp, QvdValue::Symbol(QvdSymbol::Double(f))) matches CellValue::I64(
            us,
        ) && {
            let (days, micros, q) = r;
            let exact = value(days) * 86_400_000_000;
            &&& is_finite(f) ==> is_closest(days, value(f) - 25_569 * one(), 1)
            &&& is_finite(f) && is_finite(micros) ==> {
                &&& is_closest(micros, exact, 1)
                &&& is_nearest_whole(q, value(micros))
                &&& i64::MIN <= q <= i64::MAX ==> us == q
                &&& q < i64::MIN ==> us == i64::MIN
                &&& q > i64::MAX ==> us == i64::MAX
            }
            &&& is_finite(f) && !is_finite(micros) ==> 2 * size(exact) >= units(
                0x7FEF_FFFF_FFFF_FFFF,
            ) + units(0x7FF0_0000_0000_0000) && us == if exact < 0 {
                i64::MIN
            } else {
                i64::MAX
            }
            &&& is_nan(f) ==> us == 0
            &&& !is_nan(f) && !is_finite(f) ==> us == if negative(f) {
                i64::MIN
            } else {
                i64::MAX
            }
        },
{
    let days = sum(f, -25_569);
    lemma_sum_is_closest(f, -25_569);
    let micros = product(days, 86_400_000_000);
    lemma_product_is_closest(days, 86_400_000_000);
    let q = lemma_some_whole_is_nearest(value(micros));
    lemma_round_is_nearest_whole(micros, q, i64::MIN as int, i64::MAX as int);
    assert((-25_569) * one() == -(25_569 * one()));
    if is_finite(f) && !is_finite(micros) {
        let m = magnitude(days);
        lemma_units_step(0);
        if m > 0 {
            lemma_units_increase(0, m);
        }
        lemma_units_increase(0, 0x7FEF_FFFF_FFFF_FFFF);
        lemma_units_increase(0, 0x7FF0_0000_0000_0000);
    }
    (days, micros, q)
}

/// The time of day of a serial number: what it exceeds its whole days by, whichever days
/// these are, as a double; times the microseconds of a day, as a double; rounded to a whole
/// number. What is no finite number has none, and comes out as midnight.
pub proof fn lemma_time_of_a_serial(f: u64) -> (r: (u64, u64))
    ensures
        converted(Kind::Time, QvdValue::Symbol(QvdSymbol::Double(f))) matches CellValue::I64(us)
            && {
            let (part, micros) = r;
            &&& is_finite(f) ==> {
                &&& is_closest(part, value(f) % one(), 1)
                &&& is_closest(micros, value(part) * 86_400_000_000, 1)
                &&& is_nearest_whole(us as int, value(micros))
                &&& 0 <= us <= 86_400_000_000
            }
            &&& !is_finite(f) ==> us == 0
        },
{
    let o = one();
    let d = 86_400_000_000;
    let part = above_floor(f);
    let micros = product(part, d);
    lemma_product_is_closest(part, d);
    lemma_pow2_pos(1074);
    let q = lemma_some_whole_is_nearest(value(micros));
    lemma_round_is_nearest_whole(micros, q, i64::MIN as int, i64::MAX as int);
    if is_finite(f) {
        lemma_above_floor_is_closest(f);
        let v = value(part);
        assert(0 <= v * d <= d * o) by (nonlinear_arith)
            requires
                0 <= v <= o,
                d == 86_400_000_000,
        ;
        lemma_small_products_are_finite(part, d);
        // The microseconds of a day are a double, so no time exceeds them.
        lemma_stays_between(micros, v * d, 0, d);
        assert(0 <= q <= d) by (nonlinear_arith)
            requires
                2 * size(q * o - value(micros)) <= o,
                0 <= value(micros) <= d * o,
                o > 0,
        ;
    }
    (part, micros)
}

/// The double nearest to a number between two whole numbers is between them.
proof fn lemma_stays_between(f: u64, n: int, low: int, high: int)
    requires
        is_closest(f, n, 1),
        low * one() <= n <= high * one(),
        0 <= low <= 0x10_0000_0000_0000,
        0 <= high <= 0x10_0000_0000_0000,
    ensures
        low * one() <= value(f) <= high * one(),
{
    lemma_whole_is_exact(low);
    lemma_whole_is_exact(high);
    let a = quotient(low, 1);
    let b = quotient(high, 1);
    assert(is_finite(a) && is_finite(b));
    assert(value(a) * 1 == value(a) && value(b) * 1 == value(b) && value(f) * 1 == value(f));
}

/// The duration of a number of days: no months, its whole days, and what is left beyond
/// them, times the microseconds of a day as a double, rounded to a whole number.
pub proof fn lemma_duration_of_a_serial(f: u64) -> (r: (int, u64, u64))
    ensures
        converted(
            Kind::Interval,
            QvdValue::Symbol(QvdSymbol::Double(f)),
        ) matches CellValue::Interval(x) && {
            let (q, rest, micros) = r;
            &&& x.months == 0
            &&& is_finite(f) ==> {
                &&& is_whole_part(q, value(f))
                &&& i32::MIN <= q <= i32::MAX ==> x.days == q
                &&& q < i32::MIN ==> x.days == i32::MIN
                &&& q > i32::MAX ==> x.days == i32::MAX
                &&& value(rest) == value(f) - q * one()
                &&& is_closest(micros, value(rest) * 86_400_000_000, 1)
                &&& is_nearest_whole(x.micros as int, value(micros))
            }
            &&& !is_finite(f) ==> x.micros == 0
            &&& is_nan(f) ==> x.days == 0
            &&& !is_nan(f) && !is_finite(f) ==> x.days == if negative(f) {
                i32::MIN
            } else {
                i32::MAX
            }
        },
{
    let o = one();
    let d = 86_400_000_000;
    let rest = beyond_whole(f);
    let micros = product(rest, d);
    lemma_product_is_closest(rest, d);
    lemma_pow2_pos(1074);
    let p = lemma_some_whole_is_nearest(value(micros));
    lemma_round_is_nearest_whole(micros, p, i64::MIN as int, i64::MAX as int);
    if is_finite(f) {
        let q = lemma_beyond_whole_is_exact(f);
        lemma_cut_is_whole_part(f, q, i32::MIN as int, i32::MAX as int);
        let v = value(rest);
        assert(size(v * d) <= d * o) by (nonlinear_arith)
            requires
                size(v) < o,
                d == 86_400_000_000,
        ;
        lemma_small_products_are_finite(rest, d);
        lemma_whole_is_exact(0);
        let zero = quotient(0, 1);
        assert(is_finite(zero));
        assert(value(zero) * 1 == 0 && value(micros) * 1 == value(micros));
        assert(size(value(micros) - v * d) <= size(v * d));
        assert(-(3 * d) <= p <= 3 * d) by (nonlinear_arith)
            requires
                2 * size(p * o - value(micros)) <= o,
                size(value(micros)) <= 2 * (d * o),
                o > 0,
                d == 86_400_000_000,
        ;
        (q, rest, micros)
    } else {
        lemma_cut_is_whole_part(f, 0, i32::MIN as int, i32::MAX as int);
        (0, rest, micros)
    }
}

/// A double with a whole number as its value.
proof fn lemma_value_of_closest(f: u64, n: int)
    requires
        is_closest(f, n * one(), 1),
        -0x10_0000_0000_0000 <= n <= 0x10_0000_0000_0000,
    ensures
        value(f) == n * one(),
{
    lemma_whole_is_exact(n);
    let g = quotient(n, 1);
    assert(is_finite(g));
    assert(value(g) * 1 == value(g) && value(f) * 1 == value(f));
}

/// A whole number is nearest to itself.
proof fn lemma_nearest_to_whole(q: int, n: int)
    requires
        is_nearest_whole(q, n * one()),
    ensures
        q == n,
{
    let o = one();
    lemma_pow2_pos(1074);
    assert(q == n) by (nonlinear_arith)
        requires
            2 * size(q * o - n * o) <= o,
            o > 0,
    ;
}

/// A whole serial number is the start of a day: the same in a column of dates, timestamps,
/// times and durations, counted in days from 1970-01-01, in microseconds from there, in
/// microseconds from midnight, and in days.
pub proof fn lemma_whole_serials_are_whole_days(n: i32)
    ensures
        i32::MIN <= n - 25_569 ==> converted(Kind::Date, QvdValue::Symbol(QvdSymbol::Int(n)))
            == CellValue::I32((n - 25_569) as i32),
        i32::MIN > n - 25_569 ==> converted(Kind::Date, QvdValue::Symbol(QvdSymbol::Int(n)))
            == CellValue::I32(i32::MIN),
        -106_751_991 <= n - 25_569 <= 106_751_991 ==> converted(
            Kind::Timestamp,
            QvdValue::Symbol(QvdSymbol::Int(n)),
        ) == CellValue::I64(((n - 25_569) * 86_400_000_000) as i64),
        converted(Kind::Time, QvdValue::Symbol(QvdSymbol::Int(n))) == CellValue::I64(0),
        converted(Kind::Interval, QvdValue::Symbol(QvdSymbol::Int(n))) matches CellValue::Interval(
            x,
        ) && x.months == 0 && x.days == n && x.micros == 0,
{
    let o = one();
    let f = quotient(n as int, 1);
    let day = n - 25_569;
    lemma_pow2_pos(1074);
    lemma_whole_is_exact(n as int);
    assert(n * o - 25_569 * o == day * o) by (nonlinear_arith)
        requires
            day == n - 25_569,
    ;
    let (days, q) = lemma_day_of_a_serial(f);
    lemma_value_of_closest(days, day);
    lemma_nearest_to_whole(q, day);
    if -106_751_991 <= day <= 106_751_991 {
        let (d2, micros, p) = lemma_moment_of_a_serial(f);
        lemma_value_of_closest(d2, day);
        lemma_days_in_micros_are_exact(d2, day, micros, p);
    }
    let (part, mt) = lemma_time_of_a_serial(f);
    assert(value(f) % o == 0) by {
        vstd::arithmetic::div_mod::lemma_mod_multiples_basic(n as int, o);
    }
    assert(0 * o == 0);
    lemma_value_of_closest(part, 0);
    assert(0 * 86_400_000_000 == 0);
    lemma_value_of_closest(mt, 0);
    let us = converted(Kind::Time, QvdValue::Symbol(QvdSymbol::Double(f)))->I64_0;
    lemma_nearest_to_whole(us as int, 0);
    let (w, rest, mi) = lemma_duration_of_a_serial(f);
    assert(w == n) by (nonlinear_arith)
        requires
            is_whole_part(w, n * o),
            o == one(),
            o > 0,
            n * o >= 0 ==> w * o <= n * o < (w + 1) * o,
            n * o < 0 ==> (w - 1) * o < n * o <= w * o,
    ;
    assert(value(rest) == 0);
    lemma_value_of_closest(mi, 0);
    let x = converted(Kind::Interval, QvdValue::Symbol(QvdSymbol::Double(f)))->Interval_0;
    lemma_nearest_to_whole(x.micros as int, 0);
}

/// A whole number of days is a double in microseconds too.
proof fn lemma_midnight_bits(day: int) -> (g: u64)
    requires
        -106_751_991 <= day <= 106_751_991,
    ensures
        is_finite(g),
        value(g) == (day * 86_400_000_000) * one(),
{
    let o = one();
    let x = day * 86_400_000_000;
    lemma_pow2_pos(1074);
    // The microseconds of a day are 10546875 times 2^13.
    lemma_pow2_adds(13, 1074);
    vstd::arithmetic::power2::lemma2_to64();
    let a = size(day);
    let m = a * 10_546_875;
    let b = lemma_representable(m, 1087);
    assert(b < INFINITY);
    assert(units(b) == size(x * o)) by (nonlinear_arith)
        requires
            units(b) == m * pow2(1087),
            pow2(1087) == 8192 * o,
            m == a * 10_546_875,
            a == size(day),
            x == day * 86_400_000_000,
            o > 0,
    ;
    if x * o < 0 {
        (b + 0x8000_0000_0000_0000) as u64
    } else {
        b as u64
    }
}

/// The double nearest to a whole number of days in microseconds is that number.
pub(crate) proof fn lemma_midnight_is_a_double(day: int, f: u64)
    requires
        -106_751_991 <= day <= 106_751_991,
        is_closest(f, (day * 86_400_000_000) * one(), 1),
    ensures
        value(f) == (day * 86_400_000_000) * one(),
{
    let g = lemma_midnight_bits(day);
    assert(is_finite(g));
    assert(value(g) * 1 == value(g) && value(f) * 1 == value(f));
}

/// Whole days become a whole number of microseconds.
proof fn lemma_days_in_micros_are_exact(days: u64, day: int, micros: u64, p: int)
    requires
        -106_751_991 <= day <= 106_751_991,
        value(days) == day * one(),
        is_finite(micros) ==> is_closest(micros, value(days) * 86_400_000_000, 1)
            && is_nearest_whole(p, value(micros)),
        !is_finite(micros) ==> 2 * size(value(days) * 86_400_000_000) >= units(
            0x7FEF_FFFF_FFFF_FFFF,
        ) + units(0x7FF0_0000_0000_0000),
    ensures
        is_finite(micros),
        p == day * 86_400_000_000,
{
    let o = one();
    let x = day * 86_400_000_000;
    assert((day * o) * 86_400_000_000 == x * o) by (nonlinear_arith)
        requires
            x == day * 86_400_000_000,
    ;
    let g = lemma_midnight_bits(day);
    let b = magnitude(g);
    lemma_units_step(0);
    if b > 0 {
        lemma_units_increase(0, b);
    }
    lemma_units_increase(b, INFINITY as int);
    if b < 0x7FEF_FFFF_FFFF_FFFF {
        lemma_units_increase(b, 0x7FEF_FFFF_FFFF_FFFF);
    }
    lemma_midnight_is_a_double(day, micros);
    lemma_nearest_to_whole(p, x);
}

/// What a value stands for is what it is read as: the whole number of a value is what comes
/// out in a column of whole numbers, its double in one of doubles and its text in one of
/// texts; where it stands for none, `NULL` comes out.
pub proof fn lemma_values_are_read_as_what_they_stand_for(v: QvdValue)
    ensures
        match integer_of(v) {
            Some(x) => converted(Kind::Int, v) == CellValue::I64(x),
            None => converted(Kind::Int, v) is Null,
        },
        match number_of(v) {
            Some(f) => converted(Kind::Float, v) == CellValue::F64(f),
            None => converted(Kind::Float, v) is Null,
        },
        match text_of(v) {
            Some(t) => converted(Kind::Text, v) == CellValue::Str(t),
            None => converted(Kind::Text, v) is Null,
        },
{
}

/// The day, the moment, the time of day and the duration of a serial number are what it is
/// read as in columns of these kinds.
pub proof fn lemma_serials_are_read_as_what_they_mean(f: u64)
    ensures
        converted(Kind::Date, QvdValue::Symbol(QvdSymbol::Double(f))) == CellValue::I32(days_of(f)),
        converted(Kind::Timestamp, QvdValue::Symbol(QvdSymbol::Double(f))) == CellValue::I64(
            micros_of(f),
        ),
        converted(Kind::Time, QvdValue::Symbol(QvdSymbol::Double(f))) == CellValue::I64(time_of(f)),
        converted(Kind::Interval, QvdValue::Symbol(QvdSymbol::Double(f))) == CellValue::Interval(
            interval_of(f),
        ),
{
}

} // verus!
