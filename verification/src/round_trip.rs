//! What is read back of what was written.
//!
//! A column that `COPY ... TO` writes is tagged so that it is read back as a column of
//! the matching kind. The laws here say, for each type of column, which value comes back
//! for a value that was written.

use vstd::prelude::*;
use vstd::arithmetic::power2::pow2;
use vstd::arithmetic::power2::lemma_pow2_adds;
use vstd::arithmetic::power2::lemma_pow2_pos;
use vstd::utf8::{decode_utf8, encode_utf8, valid_utf8};
use vstd::utf8::decode_utf8_encode_utf8;
use crate::convert::{
    converted,
    interval_of,
    time_of,
    CellValue,
    IntervalVal,
    MICROS_PER_DAY,
    QLIK_EPOCH_OFFSET_DAYS,
    QvdSymbol,
    QvdValue,
};
use crate::copy::{interval_micros, ten_to, text_of, unscaled};
use crate::copy::{RawValue, StoredValue, WriteKind};
use crate::double::{
    above_floor,
    beyond_whole,
    half_away,
    is_finite,
    magnitude,
    negative,
    one,
    product,
    quotient,
    sum,
    truncated,
    value,
    widened,
};
use crate::double::{lemma_representable, lemma_whole_is_exact};
use crate::kind::{kind_for, Kind};
use crate::rounding::{
    distance,
    nearest,
    units,
    INFINITY,
    NEXT_BIT,
};
use crate::rounding::{
    lemma_nearest_error_at,
    lemma_nearest_exact,
    lemma_units_increase,
    lemma_units_step,
};
use crate::drain::FileValue;
use crate::scan::{dictionary, looked_up, position_of};
use crate::accuracy::{
    lemma_finite_number,
    lemma_fraction_is_exact,
    lemma_half_away_is_near,
    lemma_largest_is_rounded_up,
    lemma_nearest_is_whole,
    lemma_smallest_is_a_double,
    lemma_whole_value_is_cut,
};

verus! {

/// Whether a symbol is the one by which a file holds a stored value: a whole number, a
/// double, or a text.
pub open spec fn stands_for(symbol: QvdSymbol, stored: StoredValue) -> bool {
    match stored {
        StoredValue::Int(n) => symbol == QvdSymbol::Int(n),
        StoredValue::Float(f) => symbol == QvdSymbol::Double(f),
        StoredValue::Str(s) => symbol matches QvdSymbol::Text(t) && t@ == s,
    }
}

/// The kind that a column which was written is read back as.
pub open spec fn kind_read_back(kind: WriteKind) -> Kind {
    match kind {
        WriteKind::Bool | WriteKind::I8 | WriteKind::I16 | WriteKind::I32 | WriteKind::I64 =>
            Kind::Int,
        WriteKind::F32 | WriteKind::F64 | WriteKind::Decimal(_) => Kind::Float,
        WriteKind::Str => Kind::Text,
        WriteKind::Date => Kind::Date,
        WriteKind::Timestamp => Kind::Timestamp,
        WriteKind::Time => Kind::Time,
        WriteKind::Interval => Kind::Interval,
    }
}

/// The types are preserved: the tags of a column that was written give the kind that
/// belongs to its type, whatever the `<Type>` of the field says.
pub proof fn lemma_tags_give_the_kind(kind: WriteKind, format_type: Seq<char>)
    ensures
        kind_for(kind.tag_texts(), format_type) == kind_read_back(kind),
{
    reveal_strlit("$date");
    reveal_strlit("$timestamp");
    reveal_strlit("$time");
    reveal_strlit("$interval");
    reveal_strlit("$text");
    reveal_strlit("$ascii");
    reveal_strlit("$integer");
    reveal_strlit("$numeric");
    let tags = kind.tag_texts();
    assert("$date"@.len() == 5 && "$timestamp"@.len() == 10 && "$time"@.len() == 5
        && "$interval"@.len() == 9 && "$text"@.len() == 5 && "$ascii"@.len() == 6
        && "$integer"@.len() == 8 && "$numeric"@.len() == 8);
    assert("$date"@[1] == 'd' && "$time"@[1] == 't' && "$time"@[2] == 'i' && "$text"@[1] == 't'
        && "$text"@[2] == 'e' && "$integer"@[1] == 'i' && "$numeric"@[1] == 'n');
    assert(tags.contains(tags[0]));
    if tags.len() == 2 {
        assert(tags.contains(tags[1]));
    }
}

/// Whether field `i` of a file holds a column: for every row an index of a symbol that
/// stands for the stored value, or for `NULL` an index below 0.
pub open spec fn holds(f: FileValue, i: int, cells: Seq<Option<StoredValue>>) -> bool {
    &&& f.rows == cells.len()
    &&& forall|r: int|
        0 <= r < cells.len() ==> {
            let index = #[trigger] f.indices[i][r];
            match cells[r] {
                Some(v) => 0 <= index < f.symbols[i].len() && stands_for(
                    f.symbols[i][index as int],
                    v,
                ),
                None => index < 0,
            }
        }
}

/// A column that was written comes back row by row: a `NULL` as `NULL`, and any other
/// value as what the symbol that stands for it is converted to.
pub proof fn lemma_column_comes_back(
    f: FileValue,
    i: int,
    cells: Seq<Option<StoredValue>>,
    kind: Kind,
)
    requires
        f.wf(),
        0 <= i < f.names.len(),
        position_of(f.names, f.names[i]) == Some(i),
        holds(f, i, cells),
    ensures
        f.column(f.names[i], kind).len() == cells.len(),
        forall|r: int|
            0 <= r < cells.len() ==> {
                let cell = #[trigger] f.column(f.names[i], kind)[r];
                let symbol = f.symbols[i][f.indices[i][r] as int];
                match cells[r] {
                    Some(v) => stands_for(symbol, v) && cell == converted(
                        kind,
                        QvdValue::Symbol(symbol),
                    ),
                    None => cell == CellValue::Null,
                }
            },
{
    let column = f.column(f.names[i], kind);
    let dict = dictionary(kind, f.symbols[i]);
    assert(f.indices[i].len() == f.rows);
    assert forall|r: int| 0 <= r < cells.len() implies #[trigger] column[r] == looked_up(
        dict,
        f.indices[i][r],
    ) by {}
}

/// `BOOLEAN`, `TINYINT`, `SMALLINT` and `INTEGER` come back as the same numbers.
pub proof fn lemma_small_integers_come_back(kind: WriteKind, raw: RawValue, symbol: QvdSymbol)
    requires
        kind is Bool || kind is I8 || kind is I16 || kind is I32,
        kind.accepts(raw),
        stands_for(symbol, kind.written(raw)),
    ensures
        converted(kind_read_back(kind), QvdValue::Symbol(symbol)) == CellValue::I64(
            match raw {
                RawValue::U8(x) => if x != 0 {
                    1
                } else {
                    0
                },
                RawValue::I8(x) => x as i64,
                RawValue::I16(x) => x as i64,
                RawValue::I32(x) => x as i64,
                _ => 0,
            },
        ),
{
}

/// Whether a whole number is a double.
pub open spec fn is_double(n: int) -> bool {
    is_finite(quotient(n, 1)) && value(quotient(n, 1)) == n * one()
}

/// `BIGINT` comes back as the same number exactly where 32 bits hold it or a double does,
/// or it is the largest of all.
pub proof fn lemma_bigint_comes_back(x: i64, symbol: QvdSymbol)
    requires
        stands_for(symbol, WriteKind::I64.written(RawValue::I64(x))),
    ensures
        converted(Kind::Int, QvdValue::Symbol(symbol)) == CellValue::I64(x) <==> (i32::MIN <= x
            <= i32::MAX || is_double(x as int) || x == i64::MAX),
{
    if !(i32::MIN <= x <= i32::MAX) {
        let bits = quotient(x as int, 1);
        let w = lemma_nearest_is_whole(x as int);
        lemma_whole_value_is_cut(bits, w);
        if w == x {
            assert(is_double(x as int));
        } else {
            let o = one();
            lemma_pow2_pos(1074);
            assert(w * o != x * o) by (nonlinear_arith)
                requires
                    w != x,
                    o > 0,
            ;
            assert(x == i64::MAX ==> w > x) by {
                if x == i64::MAX {
                    lemma_largest_is_rounded_up(w);
                }
            }
            assert(x == i64::MIN ==> false) by {
                if x == i64::MIN {
                    lemma_smallest_is_a_double();
                }
            }
        }
    }
}

/// Whole numbers from `-2^53` to `2^53` are doubles.
pub proof fn lemma_short_numbers_are_doubles(n: int)
    requires
        -NEXT_BIT <= n <= NEXT_BIT,
    ensures
        is_double(n),
{
    lemma_whole_is_exact(n);
}

/// `FLOAT` comes back as the double of the same value, `DOUBLE` as the same double.
pub proof fn lemma_floats_come_back(kind: WriteKind, raw: RawValue, symbol: QvdSymbol)
    requires
        kind is F32 || kind is F64,
        kind.accepts(raw),
        stands_for(symbol, kind.written(raw)),
    ensures
        converted(kind_read_back(kind), QvdValue::Symbol(symbol)) == CellValue::F64(
            match raw {
                RawValue::F32(x) => widened(x),
                RawValue::F64(x) => x,
                _ => 0,
            },
        ),
{
}

/// `DECIMAL` comes back as the double nearest to it.
pub proof fn lemma_decimal_comes_back_as_nearest(scale: u8, raw: RawValue, symbol: QvdSymbol)
    requires
        WriteKind::Decimal(scale).accepts(raw),
        stands_for(symbol, WriteKind::Decimal(scale).written(raw)),
    ensures
        converted(Kind::Float, QvdValue::Symbol(symbol)) == CellValue::F64(
            quotient(unscaled(raw), ten_to(scale as nat)),
        ),
{
}

/// `VARCHAR` comes back as the text of its bytes, and bytes that are valid UTF-8 come back
/// as the same bytes.
pub proof fn lemma_text_comes_back(bytes: Seq<u8>, symbol: QvdSymbol)
    requires
        stands_for(symbol, WriteKind::Str.written(RawValue::Bytes(bytes))),
    ensures
        converted(Kind::Text, QvdValue::Symbol(symbol)) == CellValue::Str(text_of(bytes)),
        valid_utf8(bytes) ==> text_of(bytes) == decode_utf8(bytes) && encode_utf8(text_of(bytes))
            == bytes,
{
    if valid_utf8(bytes) {
        decode_utf8_encode_utf8(bytes);
    }
}

/// `DATE` comes back as the same day.
pub proof fn lemma_date_comes_back(days: i32, symbol: QvdSymbol)
    requires
        WriteKind::Date.accepts(RawValue::I32(days)),
        stands_for(symbol, WriteKind::Date.written(RawValue::I32(days))),
    ensures
        converted(Kind::Date, QvdValue::Symbol(symbol)) == CellValue::I32(days),
{
    let n = days + QLIK_EPOCH_OFFSET_DAYS;
    let bits = quotient(n, 1);
    lemma_whole_is_exact(n);
    lemma_whole_is_exact(days as int);
    let o = one();
    assert(n * o + (-QLIK_EPOCH_OFFSET_DAYS) * o == days * o) by (nonlinear_arith)
        requires
            n == days + QLIK_EPOCH_OFFSET_DAYS,
    ;
    assert(sum(bits, -QLIK_EPOCH_OFFSET_DAYS as int) == quotient(days as int, 1));
    lemma_whole_value_is_cut(quotient(days as int, 1), days as int);
}

/// A part of a day that is close to a whole number of microseconds becomes that number.
proof fn lemma_micros_of_fraction(r: int, t: int)
    requires
        0 <= r,
        units(r) <= one(),
        3 * distance(units(r) * MICROS_PER_DAY, t * one()) <= one(),
    ensures
        0 <= nearest(units(r) * MICROS_PER_DAY, 1) < INFINITY,
        half_away(units(nearest(units(r) * MICROS_PER_DAY, 1)), one()) == t,
        half_away(-units(nearest(units(r) * MICROS_PER_DAY, 1)), one()) == -t,
{
    let o = one();
    let u = units(r);
    let n = u * MICROS_PER_DAY;
    lemma_pow2_pos(1074);
    lemma_units_step(0);
    if r > 0 {
        lemma_units_increase(0, r);
    }
    assert(0 <= n <= MICROS_PER_DAY * o) by (nonlinear_arith)
        requires
            n == u * MICROS_PER_DAY,
            0 <= u <= o,
    ;
    lemma_finite_number(n, 1, MICROS_PER_DAY as int);
    lemma_pow2_adds(16, 1058);
    lemma_pow2_pos(1058);
    vstd::arithmetic::power2::lemma2_to64();
    let q = pow2(1058) as int;
    assert(o == 0x1_0000 * q);
    assert(1 * q == q);
    lemma_nearest_error_at(n, 1, 1058);
    let v = units(nearest(n, 1));
    assert(v * 1 == v);
    assert((-t) * o == -(t * o)) by (nonlinear_arith);
    lemma_half_away_is_near(v, t);
    lemma_half_away_is_near(-v, -t);
}

/// `TIME` comes back as the same time of day. (24:00:00 does not: it comes back as
/// midnight.)
pub proof fn lemma_time_comes_back(us: i64, symbol: QvdSymbol)
    requires
        0 <= us < MICROS_PER_DAY,
        stands_for(symbol, WriteKind::Time.written(RawValue::I64(us))),
    ensures
        converted(Kind::Time, QvdValue::Symbol(symbol)) == CellValue::I64(us),
{
    let o = one();
    let d = MICROS_PER_DAY as int;
    let n = us * o;
    lemma_pow2_pos(1074);
    assert(0 <= n <= (d - 1) * o) by (nonlinear_arith)
        requires
            n == us * o,
            0 <= us <= d - 1,
            o > 0,
    ;
    assert((d - 1) * o == d * o - o && o * d == d * o) by (nonlinear_arith);
    let r = nearest(n, d);
    let u = units(r);
    assert((1 * o) * d == d * o) by (nonlinear_arith);
    lemma_finite_number(n, d, 1);
    // The quotient is within 2^-54 of a day, which is far less than a microsecond.
    lemma_pow2_adds(53, 1021);
    lemma_pow2_pos(1021);
    vstd::arithmetic::power2::lemma2_to64_rest();
    let q = pow2(1021) as int;
    assert(o == NEXT_BIT * q);
    assert(n < NEXT_BIT * (d * q)) by (nonlinear_arith)
        requires
            n < d * o,
            o == NEXT_BIT * q,
    ;
    lemma_nearest_error_at(n, d, 1021);
    assert(3 * (d * q) <= o) by (nonlinear_arith)
        requires
            o == NEXT_BIT * q,
            d == 86_400_000_000,
            NEXT_BIT == 0x20_0000_0000_0000,
            q > 0,
    ;
    assert(u < o) by (nonlinear_arith)
        requires
            u * d < d * o,
            d > 0,
    ;
    lemma_units_step(0);
    if r > 0 {
        lemma_units_increase(0, r);
    }
    let bits = quotient(us as int, d);
    assert(value(bits) == u && !negative(bits) && magnitude(bits) == r);
    vstd::arithmetic::div_mod::lemma_small_mod(u as nat, o as nat);
    lemma_nearest_exact(r, 1);
    assert(units(r) * 1 == u);
    assert(above_floor(bits) == bits);
    lemma_micros_of_fraction(r, us as int);
    let p = nearest(u * d, 1);
    if p > 0 {
        lemma_units_increase(0, p);
    }
    assert(time_of(bits) == us);
}

/// A duration as days and microseconds, without months.
pub open spec fn in_days(micros: int) -> IntervalVal {
    IntervalVal {
        months: 0,
        days: truncated(micros, MICROS_PER_DAY as int) as i32,
        micros: (micros - truncated(micros, MICROS_PER_DAY as int) * MICROS_PER_DAY) as i64,
    }
}

/// The double nearest to a number of microseconds in days has the right whole part, and
/// a rest that is an exact double and close to the microseconds beyond the whole days.
proof fn lemma_days_and_rest(a: int) -> (b: int)
    requires
        0 <= a < 65536 * MICROS_PER_DAY,
    ensures
        ({
            let u = units(nearest(a * one(), MICROS_PER_DAY as int));
            &&& 0 <= nearest(a * one(), MICROS_PER_DAY as int) < INFINITY
            &&& 0 <= u
            &&& u / one() == a / MICROS_PER_DAY as int
            &&& nearest(u % one(), 1) == b
            &&& 0 <= b < INFINITY
            &&& units(b) == u % one()
            &&& 3 * distance(units(b) * MICROS_PER_DAY, (a % MICROS_PER_DAY as int) * one())
                <= one()
        }),
{
    let o = one();
    let d = MICROS_PER_DAY as int;
    let n = a * o;
    let q = a / d;
    let f = a % d;
    let r = nearest(n, d);
    let u = units(r);
    lemma_pow2_pos(1074);
    vstd::arithmetic::power2::lemma2_to64();
    vstd::arithmetic::power2::lemma2_to64_rest();
    assert(a == q * d + f && 0 <= f < d && 0 <= q < 65536) by {
        vstd::arithmetic::div_mod::lemma_fundamental_div_mod(a, d);
        assert(d * q == q * d) by (nonlinear_arith);
        assert(0 <= q < 65536) by (nonlinear_arith)
            requires
                a == q * d + f,
                0 <= f < d,
                0 <= a < 65536 * d,
        ;
    }
    assert(0 <= n < (65536 * d) * o && (65536 * d) * o == (65536 * o) * d) by (nonlinear_arith)
        requires
            n == a * o,
            0 <= a < 65536 * d,
            o > 0,
    ;
    lemma_finite_number(n, d, 65536);
    // Half of the spacing of the doubles here is less than a third of a microsecond.
    lemma_pow2_adds(37, 1037);
    lemma_pow2_pos(1037);
    let p = pow2(1037) as int;
    assert(o == 0x20_0000_0000 * p);
    assert((65536 * d) * o == NEXT_BIT * (d * p)) by (nonlinear_arith)
        requires
            o == 0x20_0000_0000 * p,
            NEXT_BIT == 0x20_0000_0000_0000,
    ;
    lemma_nearest_error_at(n, d, 1037);
    assert(3 * (d * p) <= 2 * o) by (nonlinear_arith)
        requires
            o == 0x20_0000_0000 * p,
            d == 86_400_000_000,
            p > 0,
    ;
    assert(3 * distance(u * d, n) <= o);
    assert(n == (q * o) * d + f * o) by (nonlinear_arith)
        requires
            n == a * o,
            a == q * d + f,
    ;
    if f == 0 {
        let e = lemma_representable(q, 1074);
        lemma_nearest_exact(e, d);
        assert(f * o == 0) by (nonlinear_arith)
            requires
                f == 0,
        ;
        assert(u == q * o);
    } else {
        assert(f * o >= o && f * o <= (d - 1) * o && (d - 1) * o == d * o - o) by (nonlinear_arith)
            requires
                1 <= f <= d - 1,
                o > 0,
        ;
        assert((q * o + o) * d == (q * o) * d + d * o) by (nonlinear_arith);
        assert(q * o < u < q * o + o) by (nonlinear_arith)
            requires
                (q * o) * d < u * d < (q * o + o) * d,
                d > 0,
        ;
    }
    let g = u - q * o;
    vstd::arithmetic::div_mod::lemma_fundamental_div_mod_converse(u, o, q, g);
    assert(g * d == u * d - (q * o) * d) by (nonlinear_arith)
        requires
            g == u - q * o,
    ;
    lemma_fraction_is_exact(r)
}

/// `INTERVAL` comes back as the same duration in days and microseconds, with a month
/// counted as 30 days, as long as it is shorter than 65536 days.
pub proof fn lemma_interval_comes_back(x: IntervalVal, symbol: QvdSymbol)
    requires
        -65536 * MICROS_PER_DAY < interval_micros(x) < 65536 * MICROS_PER_DAY,
        stands_for(symbol, WriteKind::Interval.written(RawValue::Interval(x))),
    ensures
        converted(Kind::Interval, QvdValue::Symbol(symbol)) == CellValue::Interval(
            in_days(interval_micros(x)),
        ),
{
    let o = one();
    let d = MICROS_PER_DAY as int;
    let t = interval_micros(x);
    let a = if t < 0 {
        -t
    } else {
        t
    };
    let b = lemma_days_and_rest(a);
    let bits = quotient(t, d);
    let r = nearest(a * o, d);
    let u = units(r);
    let q = a / d;
    let f = a % d;
    lemma_pow2_pos(1074);
    assert((-t) * o == -(t * o)) by (nonlinear_arith);
    assert(t < 0 ==> t * o < 0) by (nonlinear_arith)
        requires
            o > 0,
    ;
    assert(t >= 0 ==> t * o >= 0) by (nonlinear_arith)
        requires
            o > 0,
    ;
    assert(magnitude(bits) == r && negative(bits) == (t < 0));
    assert(0 <= f < d && a == q * d + f && 0 <= q < 65536) by {
        vstd::arithmetic::div_mod::lemma_fundamental_div_mod(a, d);
        assert(d * q == q * d) by (nonlinear_arith);
        assert(0 <= q < 65536) by (nonlinear_arith)
            requires
                a == q * d + f,
                0 <= f < d,
                0 <= a < 65536 * d,
        ;
    }
    assert(0int / o == 0) by {
        vstd::arithmetic::div_mod::lemma_div_of0(o);
    }
    assert(truncated(value(bits), o) == if t < 0 {
        -q
    } else {
        q
    });
    assert(truncated(t, d) == if t < 0 {
        -q
    } else {
        q
    });
    assert((-q) * d == -(q * d)) by (nonlinear_arith);
    let rest = beyond_whole(bits);
    assert(magnitude(rest) == b && negative(rest) == (t < 0));
    vstd::arithmetic::div_mod::lemma_mod_pos_bound(u, o);
    lemma_micros_of_fraction(b, f);
    let p = nearest(units(b) * d, 1);
    let whole = product(rest, d);
    assert(magnitude(whole) == p && negative(whole) == (t < 0));
    assert(half_away(value(whole), o) == if t < 0 {
        -f
    } else {
        f
    });
    assert(interval_of(bits) == in_days(t));
}

/// A duration without months, whose microseconds are less than a day and run in the
/// direction of its days, is in days and microseconds already.
pub proof fn lemma_plain_interval_is_in_days(x: IntervalVal)
    requires
        x.months == 0,
        -(MICROS_PER_DAY as int) < x.micros < MICROS_PER_DAY,
        x.days > 0 ==> x.micros >= 0,
        x.days < 0 ==> x.micros <= 0,
    ensures
        in_days(interval_micros(x)) == x,
{
    let d = MICROS_PER_DAY as int;
    let t = interval_micros(x);
    assert((-x.days) * d == -(x.days * d)) by (nonlinear_arith);
    assert(x.days < 0 ==> x.days * d <= -d) by (nonlinear_arith)
        requires
            d > 0,
    ;
    assert(x.days >= 0 ==> x.days * d >= 0) by (nonlinear_arith)
        requires
            d > 0,
    ;
    if t < 0 {
        vstd::arithmetic::div_mod::lemma_fundamental_div_mod_converse(
            -t,
            d,
            -(x.days as int),
            -(x.micros as int),
        );
    } else {
        vstd::arithmetic::div_mod::lemma_fundamental_div_mod_converse(
            t,
            d,
            x.days as int,
            x.micros as int,
        );
    }
}

} // verus!
