//! Converting the symbols of a QVD into values of DuckDB types.
//!
//! Qlik counts dates and times as serial numbers: days since 1899-12-30, with the
//! time of day as the fraction. DuckDB counts days and microseconds since
//! 1970-01-01.

use vstd::prelude::*;
use crate::double;
use crate::double::{above_floor, beyond_whole, cut_to, product, quotient, rounded_to, sum};
use crate::kind::Kind;
use crate::text;
use crate::text::{double_text, parsed_double, parsed_i64, signed_decimal, trimmed};

verus! {

/// The days from 1899-12-30, where Qlik starts to count, to 1970-01-01.
pub const QLIK_EPOCH_OFFSET_DAYS: i32 = 25569;

/// The microseconds of a day.
pub const MICROS_PER_DAY: u64 = 86_400_000_000;

/// A duration as DuckDB holds it.
#[derive(Clone, Copy, Debug, PartialEq, Eq, Structural)]
pub struct IntervalVal {
    pub months: i32,
    pub days: i32,
    pub micros: i64,
}

/// A symbol of a QVD: one of the distinct values of a field.
///
/// Doubles are held as their bits.
#[derive(Clone, Debug)]
pub enum QvdSymbol {
    Int(i32),
    Double(u64),
    Text(String),
    DualInt(i32, String),
    DualDouble(u64, String),
}

impl QvdSymbol {
    /// A copy of a symbol.
    pub fn copied(&self) -> (r: QvdSymbol)
        ensures
            r == *self,
    {
        match self {
            QvdSymbol::Int(n) => QvdSymbol::Int(*n),
            QvdSymbol::Double(f) => QvdSymbol::Double(*f),
            QvdSymbol::Text(t) => QvdSymbol::Text(t.clone()),
            QvdSymbol::DualInt(n, t) => QvdSymbol::DualInt(*n, t.clone()),
            QvdSymbol::DualDouble(f, t) => QvdSymbol::DualDouble(*f, t.clone()),
        }
    }
}

/// A value of a QVD.
#[derive(Clone, Debug)]
pub enum QvdValue {
    Symbol(QvdSymbol),
    Null,
}

/// A value of a DuckDB type, ready to be written into a column. Doubles are held as
/// their bits.
#[derive(Clone, Debug)]
pub enum Cell {
    I64(i64),
    F64(u64),
    Str(String),
    I32(i32),
    Interval(IntervalVal),
    Null,
}

/// What a cell holds.
pub enum CellValue {
    I64(i64),
    F64(u64),
    Str(Seq<char>),
    I32(i32),
    Interval(IntervalVal),
    Null,
}

impl View for Cell {
    type V = CellValue;

    open spec fn view(&self) -> CellValue {
        match self {
            Cell::I64(x) => CellValue::I64(*x),
            Cell::F64(x) => CellValue::F64(*x),
            Cell::Str(s) => CellValue::Str(s@),
            Cell::I32(x) => CellValue::I32(*x),
            Cell::Interval(x) => CellValue::Interval(*x),
            Cell::Null => CellValue::Null,
        }
    }
}

impl Cell {
    /// A copy of a cell.
    pub fn copied(&self) -> (r: Cell)
        ensures
            r@ == self@,
    {
        match self {
            Cell::I64(x) => Cell::I64(*x),
            Cell::F64(x) => Cell::F64(*x),
            Cell::Str(s) => Cell::Str(s.clone()),
            Cell::I32(x) => Cell::I32(*x),
            Cell::Interval(x) => Cell::Interval(*x),
            Cell::Null => Cell::Null,
        }
    }
}

/// The whole number that a value stands for, if any.
pub open spec fn integer_of(v: QvdValue) -> Option<i64> {
    match v {
        QvdValue::Null => None,
        QvdValue::Symbol(s) => match s {
            QvdSymbol::Int(n) => Some(n as i64),
            QvdSymbol::DualInt(n, _) => Some(n as i64),
            QvdSymbol::Double(f) => Some(cut_to(f, i64::MIN as int, i64::MAX as int) as i64),
            QvdSymbol::DualDouble(f, _) => Some(cut_to(f, i64::MIN as int, i64::MAX as int) as i64),
            QvdSymbol::Text(t) => parsed_i64(trimmed(t@)),
        },
    }
}

/// The bits of the double that a value stands for, if any.
pub open spec fn number_of(v: QvdValue) -> Option<u64> {
    match v {
        QvdValue::Null => None,
        QvdValue::Symbol(s) => match s {
            QvdSymbol::Int(n) => Some(quotient(n as int, 1)),
            QvdSymbol::DualInt(n, _) => Some(quotient(n as int, 1)),
            QvdSymbol::Double(f) => Some(f),
            QvdSymbol::DualDouble(f, _) => Some(f),
            QvdSymbol::Text(t) => parsed_double(trimmed(t@)),
        },
    }
}

/// The text that a value is shown as, if any. A text that the file stores beside a
/// number comes first.
pub open spec fn text_of(v: QvdValue) -> Option<Seq<char>> {
    match v {
        QvdValue::Null => None,
        QvdValue::Symbol(s) => match s {
            QvdSymbol::Int(n) => Some(signed_decimal(n as int)),
            QvdSymbol::Double(f) => Some(double_text(f)),
            QvdSymbol::Text(t) => Some(t@),
            QvdSymbol::DualInt(_, t) => Some(t@),
            QvdSymbol::DualDouble(_, t) => Some(t@),
        },
    }
}

/// The days since 1970-01-01 of a serial number.
pub open spec fn days_of(serial: u64) -> i32 {
    rounded_to(sum(serial, -QLIK_EPOCH_OFFSET_DAYS), i32::MIN as int, i32::MAX as int) as i32
}

/// The microseconds since 1970-01-01 of a serial number.
pub open spec fn micros_of(serial: u64) -> i64 {
    rounded_to(
        product(sum(serial, -QLIK_EPOCH_OFFSET_DAYS), MICROS_PER_DAY as int),
        i64::MIN as int,
        i64::MAX as int,
    ) as i64
}

/// The microseconds since midnight of a serial number.
pub open spec fn time_of(serial: u64) -> i64 {
    rounded_to(
        product(above_floor(serial), MICROS_PER_DAY as int),
        i64::MIN as int,
        i64::MAX as int,
    ) as i64
}

/// The duration of a number of days: its whole days, and the rest as microseconds.
pub open spec fn interval_of(serial: u64) -> IntervalVal {
    IntervalVal {
        months: 0,
        days: cut_to(serial, i32::MIN as int, i32::MAX as int) as i32,
        micros: rounded_to(
            product(beyond_whole(serial), MICROS_PER_DAY as int),
            i64::MIN as int,
            i64::MAX as int,
        ) as i64,
    }
}

/// What a value becomes in a column of the given kind: `NULL` where it does not stand
/// for a value of that kind.
pub open spec fn converted(kind: Kind, v: QvdValue) -> CellValue {
    match kind {
        Kind::Int => match integer_of(v) {
            Some(x) => CellValue::I64(x),
            None => CellValue::Null,
        },
        Kind::Float => match number_of(v) {
            Some(x) => CellValue::F64(x),
            None => CellValue::Null,
        },
        Kind::Text => match text_of(v) {
            Some(x) => CellValue::Str(x),
            None => CellValue::Null,
        },
        Kind::Date => match number_of(v) {
            Some(x) => CellValue::I32(days_of(x)),
            None => CellValue::Null,
        },
        Kind::Timestamp => match number_of(v) {
            Some(x) => CellValue::I64(micros_of(x)),
            None => CellValue::Null,
        },
        Kind::Time => match number_of(v) {
            Some(x) => CellValue::I64(time_of(x)),
            None => CellValue::Null,
        },
        Kind::Interval => match number_of(v) {
            Some(x) => CellValue::Interval(interval_of(x)),
            None => CellValue::Null,
        },
    }
}

/// The whole number that a value stands for.
pub fn val_to_i64(v: &QvdValue) -> (r: Option<i64>)
    ensures
        r == integer_of(*v),
{
    match v {
        QvdValue::Null => None,
        QvdValue::Symbol(s) => match s {
            QvdSymbol::Int(n) => Some(*n as i64),
            QvdSymbol::DualInt(n, _) => Some(*n as i64),
            QvdSymbol::Double(f) => Some(double::cut(*f, i64::MIN, i64::MAX)),
            QvdSymbol::DualDouble(f, _) => Some(double::cut(*f, i64::MIN, i64::MAX)),
            QvdSymbol::Text(t) => text::parse_i64(t.as_str().trim()),
        },
    }
}

/// The double that a value stands for, as its bits.
pub fn val_to_f64(v: &QvdValue) -> (r: Option<u64>)
    ensures
        r == number_of(*v),
{
    match v {
        QvdValue::Null => None,
        QvdValue::Symbol(s) => match s {
            QvdSymbol::Int(n) => Some(double::whole(*n as i64)),
            QvdSymbol::DualInt(n, _) => Some(double::whole(*n as i64)),
            QvdSymbol::Double(f) => Some(*f),
            QvdSymbol::DualDouble(f, _) => Some(*f),
            QvdSymbol::Text(t) => text::parse_double(t.as_str().trim()),
        },
    }
}

/// The text that a value is shown as.
pub fn val_to_string(v: &QvdValue) -> (r: Option<String>)
    ensures
        r is Some <==> text_of(*v) is Some,
        r matches Some(t) ==> text_of(*v) == Some(t@),
{
    match v {
        QvdValue::Null => None,
        QvdValue::Symbol(s) => match s {
            QvdSymbol::Int(n) => Some(text::integer_text(*n as i64)),
            QvdSymbol::Double(f) => Some(text::show_double(*f)),
            QvdSymbol::Text(t) => Some(t.clone()),
            QvdSymbol::DualInt(_, t) => Some(t.clone()),
            QvdSymbol::DualDouble(_, t) => Some(t.clone()),
        },
    }
}

/// The days since 1970-01-01 of a serial number.
pub fn days_from_serial(serial: u64) -> (r: i32)
    ensures
        r == days_of(serial),
{
    let days: u64 = double::add_whole(serial, -QLIK_EPOCH_OFFSET_DAYS);
    double::round(days, i32::MIN as i64, i32::MAX as i64) as i32
}

/// The microseconds since 1970-01-01 of a serial number.
pub fn micros_from_serial(serial: u64) -> (r: i64)
    ensures
        r == micros_of(serial),
{
    let days: u64 = double::add_whole(serial, -QLIK_EPOCH_OFFSET_DAYS);
    double::round(double::multiply(days, MICROS_PER_DAY), i64::MIN, i64::MAX)
}

/// The microseconds since midnight of a serial number.
pub fn time_from_serial(serial: u64) -> (r: i64)
    ensures
        r == time_of(serial),
{
    let fraction: u64 = double::subtract_floor(serial);
    double::round(double::multiply(fraction, MICROS_PER_DAY), i64::MIN, i64::MAX)
}

/// The duration of a number of days.
pub fn interval_from_serial(serial: u64) -> (r: IntervalVal)
    ensures
        r == interval_of(serial),
{
    let days: i64 = double::cut(serial, i32::MIN as i64, i32::MAX as i64);
    let rest: u64 = double::subtract_whole(serial);
    let micros: i64 = double::round(double::multiply(rest, MICROS_PER_DAY), i64::MIN, i64::MAX);
    IntervalVal { months: 0, days: days as i32, micros }
}

/// The days since 1970-01-01 that a value stands for.
pub fn serial_to_days(v: &QvdValue) -> (r: Option<i32>)
    ensures
        r == match number_of(*v) {
            Some(s) => Some(days_of(s)),
            None => None,
        },
{
    match val_to_f64(v) {
        Some(s) => Some(days_from_serial(s)),
        None => None,
    }
}

/// The microseconds since 1970-01-01 that a value stands for.
pub fn serial_to_micros(v: &QvdValue) -> (r: Option<i64>)
    ensures
        r == match number_of(*v) {
            Some(s) => Some(micros_of(s)),
            None => None,
        },
{
    match val_to_f64(v) {
        Some(s) => Some(micros_from_serial(s)),
        None => None,
    }
}

/// The microseconds since midnight that a value stands for.
pub fn serial_to_time_micros(v: &QvdValue) -> (r: Option<i64>)
    ensures
        r == match number_of(*v) {
            Some(s) => Some(time_of(s)),
            None => None,
        },
{
    match val_to_f64(v) {
        Some(s) => Some(time_from_serial(s)),
        None => None,
    }
}

/// The duration that a value stands for.
pub fn serial_to_interval(v: &QvdValue) -> (r: Option<IntervalVal>)
    ensures
        r == match number_of(*v) {
            Some(s) => Some(interval_of(s)),
            None => None,
        },
{
    match val_to_f64(v) {
        Some(s) => Some(interval_from_serial(s)),
        None => None,
    }
}

/// Converts a value for a column of the given kind.
pub fn convert(kind: Kind, v: &QvdValue) -> (r: Cell)
    ensures
        r@ == converted(kind, *v),
{
    match kind {
        Kind::Int => match val_to_i64(v) {
            Some(x) => Cell::I64(x),
            None => Cell::Null,
        },
        Kind::Float => match val_to_f64(v) {
            Some(x) => Cell::F64(x),
            None => Cell::Null,
        },
        Kind::Text => match val_to_string(v) {
            Some(x) => Cell::Str(x),
            None => Cell::Null,
        },
        Kind::Date => match serial_to_days(v) {
            Some(x) => Cell::I32(x),
            None => Cell::Null,
        },
        Kind::Timestamp => match serial_to_micros(v) {
            Some(x) => Cell::I64(x),
            None => Cell::Null,
        },
        Kind::Time => match serial_to_time_micros(v) {
            Some(x) => Cell::I64(x),
            None => Cell::Null,
        },
        Kind::Interval => match serial_to_interval(v) {
            Some(x) => Cell::Interval(x),
            None => Cell::Null,
        },
    }
}

} // verus!
