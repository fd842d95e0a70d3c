//! What a file stores for the values of a query.
//!
//! The laws here say which number or text stands in a file for a value of each type.

use vstd::prelude::*;
use vstd::arithmetic::power2::lemma_pow2_pos;
use vstd::utf8::{decode_utf8, valid_utf8};
use crate::accuracy::size;
use crate::convert::IntervalVal;
use crate::copy::{interval_micros, ten_to};
use crate::copy::{RawValue, StoredValue, WriteKind};
use crate::double::{is_finite, one, quotient, ratio, value, widened};
use crate::double::lemma_whole_is_exact;
use crate::ieee::is_closest;
use crate::ieee::{lemma_quotient_is_closest, lemma_ratio_is_closest, lemma_sum_is_closest};

verus! {

/// Truth values are stored as 1 and 0, and whole numbers of up to 32 bits as themselves.
pub proof fn lemma_small_numbers_are_stored(b: u8, x: i8, y: i16, z: i32)
    ensures
        WriteKind::Bool.written(RawValue::U8(b)) == StoredValue::Int(
            if b == 0 {
                0
            } else {
                1
            },
        ),
        WriteKind::I8.written(RawValue::I8(x)) == StoredValue::Int(x as i32),
        WriteKind::I16.written(RawValue::I16(y)) == StoredValue::Int(y as i32),
        WriteKind::I32.written(RawValue::I32(z)) == StoredValue::Int(z),
{
}

/// A `BIGINT` is stored as itself where 32 bits hold it, and else as the nearest double.
pub proof fn lemma_large_numbers_are_stored(x: i64)
    ensures
        match WriteKind::I64.written(RawValue::I64(x)) {
            StoredValue::Int(n) => n == x,
            StoredValue::Float(f) => !(-0x8000_0000 <= x <= 0x7FFF_FFFF) && is_closest(
                f,
                x * one(),
                1,
            ),
            StoredValue::Str(_) => false,
        },
{
    lemma_quotient_is_closest(x as int, 1);
}

/// A `DOUBLE` is stored as the same double, and a `FLOAT` as the double of its value.
pub proof fn lemma_floats_are_stored(x: u32, y: u64)
    ensures
        WriteKind::F32.written(RawValue::F32(x)) == StoredValue::Float(widened(x)),
        WriteKind::F64.written(RawValue::F64(y)) == StoredValue::Float(y),
{
}

/// A `VARCHAR` of valid UTF-8 is stored as its text, of whatever length.
pub proof fn lemma_texts_are_stored(bytes: Seq<u8>)
    ensures
        WriteKind::Str.written(RawValue::Bytes(bytes)) is Str,
        valid_utf8(bytes) ==> WriteKind::Str.written(RawValue::Bytes(bytes)) == StoredValue::Str(
            decode_utf8(bytes),
        ),
{
}

/// A `DATE` is stored as the whole number of days since 1899-12-30, 25569 more than since
/// 1970-01-01.
pub proof fn lemma_dates_are_stored(days: i32)
    requires
        days <= 0x7FFF_FFFF - 25_569,
    ensures
        WriteKind::Date.written(RawValue::I32(days)) matches StoredValue::Int(n) && n == days
            + 25_569,
{
}

/// A `TIMESTAMP` is stored as a double: its microseconds, divided by those of a day, and
/// 25569 more days, each the double nearest to it.
pub proof fn lemma_timestamps_are_stored(us: i64) -> (r: (u64, u64))
    ensures
        WriteKind::Timestamp.written(RawValue::I64(us)) matches StoredValue::Float(f) && {
            let (micros, days) = r;
            &&& is_closest(micros, us * one(), 1)
            &&& is_closest(days, value(micros), 86_400_000_000)
            &&& is_closest(f, value(days) + 25_569 * one(), 1)
        },
{
    let micros = quotient(us as int, 1);
    let days = ratio(micros, 86_400_000_000);
    lemma_quotient_is_closest(us as int, 1);
    lemma_ratio_is_closest(micros, 86_400_000_000);
    lemma_sum_is_closest(days, 25_569);
    (micros, days)
}

/// A timestamp at midnight is stored as the whole number of days since 1899-12-30, 25569
/// more than since 1970-01-01: as the date of that day is.
pub proof fn lemma_midnights_are_stored(day: int)
    requires
        -106_751_991 <= day <= 106_751_991,
    ensures
        WriteKind::Timestamp.written(
            RawValue::I64((day * 86_400_000_000) as i64),
        ) matches StoredValue::Float(f) && is_finite(f) && value(f) == (day + 25_569) * one(),
{
    let o = one();
    let x = day * 86_400_000_000;
    lemma_pow2_pos(1074);
    let (micros, days) = lemma_timestamps_are_stored(x as i64);
    crate::serials::lemma_midnight_is_a_double(day, micros);
    lemma_whole_is_exact(day);
    lemma_whole_is_exact(day + 25_569);
    let g = quotient(day, 1);
    let h = quotient(day + 25_569, 1);
    assert(is_finite(g) && is_finite(h));
    let u = value(days);
    assert((day * o) * 86_400_000_000 == x * o) by (nonlinear_arith)
        requires
            x == day * 86_400_000_000,
    ;
    assert(size(u * 86_400_000_000 - x * o) <= 0);
    assert(u == day * o) by (nonlinear_arith)
        requires
            u * 86_400_000_000 == (day * o) * 86_400_000_000,
    ;
    assert(day * o + 25_569 * o == (day + 25_569) * o) by (nonlinear_arith);
    let f = WriteKind::Timestamp.written(RawValue::I64(x as i64))->Float_0;
    assert(value(h) * 1 == value(h) && value(f) * 1 == value(f));
}

/// A `TIME` is stored as the double nearest to its part of a day, and an `INTERVAL` as the
/// one nearest to its days, with 30 days to a month.
pub proof fn lemma_times_are_stored(us: i64, x: IntervalVal)
    ensures
        WriteKind::Time.written(RawValue::I64(us)) matches StoredValue::Float(f) && is_closest(
            f,
            us * one(),
            86_400_000_000,
        ),
        WriteKind::Interval.written(RawValue::Interval(x)) matches StoredValue::Float(g)
            && is_closest(
            g,
            ((x.months * 30 + x.days) * 86_400_000_000 + x.micros) * one(),
            86_400_000_000,
        ),
{
    lemma_quotient_is_closest(us as int, 86_400_000_000);
    lemma_quotient_is_closest(interval_micros(x), 86_400_000_000);
}

/// A `DECIMAL` is stored as the double nearest to it, in however many bits DuckDB stores it.
pub proof fn lemma_decimals_are_stored(scale: u8, x: int, raw: RawValue)
    requires
        match raw {
            RawValue::I16(y) => x == y,
            RawValue::I32(y) => x == y,
            RawValue::I64(y) => x == y,
            RawValue::I128(y) => x == y,
            _ => false,
        },
    ensures
        WriteKind::Decimal(scale).written(raw) matches StoredValue::Float(f) && is_closest(
            f,
            x * one(),
            ten_to(scale as nat),
        ),
{
    lemma_ten_to_is_positive(scale as nat);
    lemma_quotient_is_closest(x, ten_to(scale as nat));
}

/// Powers of ten are positive.
proof fn lemma_ten_to_is_positive(k: nat)
    ensures
        ten_to(k) > 0,
    decreases k,
{
    if k > 0 {
        lemma_ten_to_is_positive((k - 1) as nat);
    }
}

} // verus!
