//! Writing rows as the columns of a QVD: `COPY ... TO ... (FORMAT qvd)`.
//!
//! Columns are bound to the way in which their values are written, rows are gathered
//! chunk by chunk, and at the end the columns are handed out with their names and tags.

use vstd::prelude::*;
use vstd::string::StringExecFns;
use vstd::utf8::{decode_utf8, valid_utf8};
use crate::convert::{IntervalVal, MICROS_PER_DAY, QLIK_EPOCH_OFFSET_DAYS};
use crate::double;
use crate::double::{quotient, ratio, sum, widened};
use crate::kind::texts;
use crate::text;
use crate::text::{all_digits, decimal, digits_value, lossy_text, signed_decimal};
use crate::text::{lemma_decimal_spells_its_number, lemma_shape_of_an_integer_text};

verus! {

// The identifiers that DuckDB gives to the types that can be written.
/// The identifier of `BOOLEAN`.
pub const TYPE_BOOLEAN: u32 = 1;

/// The identifier of `TINYINT`.
pub const TYPE_TINYINT: u32 = 2;

/// The identifier of `SMALLINT`.
pub const TYPE_SMALLINT: u32 = 3;

/// The identifier of `INTEGER`.
pub const TYPE_INTEGER: u32 = 4;

/// The identifier of `BIGINT`.
pub const TYPE_BIGINT: u32 = 5;

/// The identifier of `FLOAT`.
pub const TYPE_FLOAT: u32 = 10;

/// The identifier of `DOUBLE`.
pub const TYPE_DOUBLE: u32 = 11;

/// The identifier of `TIMESTAMP`.
pub const TYPE_TIMESTAMP: u32 = 12;

/// The identifier of `DATE`.
pub const TYPE_DATE: u32 = 13;

/// The identifier of `TIME`.
pub const TYPE_TIME: u32 = 14;

/// The identifier of `INTERVAL`.
pub const TYPE_INTERVAL: u32 = 15;

/// The identifier of `VARCHAR`.
pub const TYPE_VARCHAR: u32 = 17;

/// The identifier of `DECIMAL`.
pub const TYPE_DECIMAL: u32 = 19;

/// The most digits that a `DECIMAL` has behind its point.
pub const MAX_SCALE: u8 = 38;

/// A month of an `INTERVAL`, counted in days.
pub const DAYS_PER_MONTH: i64 = 30;

/// The way in which the values of a column are written.
#[derive(Clone, Copy, Debug, PartialEq, Eq, Structural)]
pub enum WriteKind {
    Bool,
    I8,
    I16,
    I32,
    I64,
    F32,
    F64,
    Str,
    Date,
    Timestamp,
    Time,
    Interval,
    /// A `DECIMAL` with this many digits behind its point.
    Decimal(u8),
}

/// A value as DuckDB stores it. Floating-point numbers are held as their bits.
#[derive(Clone, Debug)]
pub enum Raw {
    U8(u8),
    I8(i8),
    I16(i16),
    I32(i32),
    I64(i64),
    I128(i128),
    F32(u32),
    F64(u64),
    Interval(IntervalVal),
    Bytes(Vec<u8>),
}

/// What DuckDB stores.
pub enum RawValue {
    U8(u8),
    I8(i8),
    I16(i16),
    I32(i32),
    I64(i64),
    I128(i128),
    F32(u32),
    F64(u64),
    Interval(IntervalVal),
    Bytes(Seq<u8>),
}

impl View for Raw {
    type V = RawValue;

    open spec fn view(&self) -> RawValue {
        match self {
            Raw::U8(x) => RawValue::U8(*x),
            Raw::I8(x) => RawValue::I8(*x),
            Raw::I16(x) => RawValue::I16(*x),
            Raw::I32(x) => RawValue::I32(*x),
            Raw::I64(x) => RawValue::I64(*x),
            Raw::I128(x) => RawValue::I128(*x),
            Raw::F32(x) => RawValue::F32(*x),
            Raw::F64(x) => RawValue::F64(*x),
            Raw::Interval(x) => RawValue::Interval(*x),
            Raw::Bytes(x) => RawValue::Bytes(x@),
        }
    }
}

/// A value as a QVD stores it. Doubles are held as their bits.
#[derive(Clone, Debug)]
pub enum Value {
    Int(i32),
    Float(u64),
    Str(String),
}

/// What a QVD stores.
pub enum StoredValue {
    Int(i32),
    Float(u64),
    Str(Seq<char>),
}

impl View for Value {
    type V = StoredValue;

    open spec fn view(&self) -> StoredValue {
        match self {
            Value::Int(x) => StoredValue::Int(*x),
            Value::Float(x) => StoredValue::Float(*x),
            Value::Str(x) => StoredValue::Str(x@),
        }
    }
}

impl Value {
    /// A copy of a value.
    pub fn copied(&self) -> (r: Value)
        ensures
            r@ == self@,
    {
        match self {
            Value::Int(x) => Value::Int(*x),
            Value::Float(x) => Value::Float(*x),
            Value::Str(x) => Value::Str(x.clone()),
        }
    }
}

/// `10^k`.
pub open spec fn ten_to(k: nat) -> int
    decreases k,
{
    if k == 0 {
        1
    } else {
        10 * ten_to((k - 1) as nat)
    }
}

/// The text of bytes. Bytes that are valid UTF-8 are kept as they are.
pub open spec fn text_of(bytes: Seq<u8>) -> Seq<char> {
    if valid_utf8(bytes) {
        decode_utf8(bytes)
    } else {
        lossy_text(bytes)
    }
}

/// A duration in microseconds, with a month taken as 30 days.
pub open spec fn interval_micros(x: IntervalVal) -> int {
    (x.months * DAYS_PER_MONTH + x.days) * MICROS_PER_DAY + x.micros
}

/// A whole number as a QVD stores it: as a whole number where 32 bits hold it, else as
/// the nearest double.
pub open spec fn stored_integer(x: i64) -> StoredValue {
    if i32::MIN <= x <= i32::MAX {
        StoredValue::Int(x as i32)
    } else {
        StoredValue::Float(quotient(x as int, 1))
    }
}

/// The serial number of a timestamp given in microseconds since 1970-01-01.
pub open spec fn timestamp_serial(us: i64) -> u64 {
    sum(ratio(quotient(us as int, 1), MICROS_PER_DAY as int), QLIK_EPOCH_OFFSET_DAYS as int)
}

/// The unscaled number of a `DECIMAL`, which is stored in as many bits as it needs.
pub open spec fn unscaled(raw: RawValue) -> int {
    match raw {
        RawValue::I16(x) => x as int,
        RawValue::I32(x) => x as int,
        RawValue::I64(x) => x as int,
        RawValue::I128(x) => x as int,
        _ => 0,
    }
}

impl WriteKind {
    /// Whether a `DECIMAL` has a number of digits behind its point that DuckDB knows.
    pub open spec fn wf(self) -> bool {
        self matches WriteKind::Decimal(scale) ==> scale <= MAX_SCALE
    }

    /// The way in which a column of the given type is written, if it can be.
    pub open spec fn for_type(tid: u32, scale: u8) -> Option<WriteKind> {
        if tid == TYPE_BOOLEAN {
            Some(WriteKind::Bool)
        } else if tid == TYPE_TINYINT {
            Some(WriteKind::I8)
        } else if tid == TYPE_SMALLINT {
            Some(WriteKind::I16)
        } else if tid == TYPE_INTEGER {
            Some(WriteKind::I32)
        } else if tid == TYPE_BIGINT {
            Some(WriteKind::I64)
        } else if tid == TYPE_FLOAT {
            Some(WriteKind::F32)
        } else if tid == TYPE_DOUBLE {
            Some(WriteKind::F64)
        } else if tid == TYPE_VARCHAR {
            Some(WriteKind::Str)
        } else if tid == TYPE_DATE {
            Some(WriteKind::Date)
        } else if tid == TYPE_TIMESTAMP {
            Some(WriteKind::Timestamp)
        } else if tid == TYPE_TIME {
            Some(WriteKind::Time)
        } else if tid == TYPE_INTERVAL {
            Some(WriteKind::Interval)
        } else if tid == TYPE_DECIMAL && scale <= MAX_SCALE {
            Some(WriteKind::Decimal(scale))
        } else {
            None
        }
    }

    /// The way in which a column is written, by the identifier of its DuckDB type and,
    /// for a `DECIMAL`, its number of digits behind the point.
    pub fn from_type_id(tid: u32, scale: u8) -> (r: Option<WriteKind>)
        ensures
            r == WriteKind::for_type(tid, scale),
            r matches Some(kind) ==> kind.wf(),
    {
        if tid == TYPE_BOOLEAN {
            Some(WriteKind::Bool)
        } else if tid == TYPE_TINYINT {
            Some(WriteKind::I8)
        } else if tid == TYPE_SMALLINT {
            Some(WriteKind::I16)
        } else if tid == TYPE_INTEGER {
            Some(WriteKind::I32)
        } else if tid == TYPE_BIGINT {
            Some(WriteKind::I64)
        } else if tid == TYPE_FLOAT {
            Some(WriteKind::F32)
        } else if tid == TYPE_DOUBLE {
            Some(WriteKind::F64)
        } else if tid == TYPE_VARCHAR {
            Some(WriteKind::Str)
        } else if tid == TYPE_DATE {
            Some(WriteKind::Date)
        } else if tid == TYPE_TIMESTAMP {
            Some(WriteKind::Timestamp)
        } else if tid == TYPE_TIME {
            Some(WriteKind::Time)
        } else if tid == TYPE_INTERVAL {
            Some(WriteKind::Interval)
        } else if tid == TYPE_DECIMAL && scale <= MAX_SCALE {
            Some(WriteKind::Decimal(scale))
        } else {
            None
        }
    }

    /// The Qlik tags by which a column is recognised when it is read.
    pub open spec fn tag_texts(self) -> Seq<Seq<char>> {
        match self {
            WriteKind::Bool | WriteKind::I8 | WriteKind::I16 | WriteKind::I32 | WriteKind::I64 =>
                seq!["$numeric"@, "$integer"@],
            WriteKind::F32 | WriteKind::F64 | WriteKind::Decimal(_) => seq!["$numeric"@],
            WriteKind::Str => seq!["$text"@],
            WriteKind::Date => seq!["$date"@],
            WriteKind::Timestamp => seq!["$timestamp"@],
            WriteKind::Time => seq!["$time"@],
            WriteKind::Interval => seq!["$interval"@],
        }
    }

    /// The Qlik tags by which a column is recognised when it is read.
    pub fn tags(self) -> (r: Vec<String>)
        ensures
            texts(r@) == self.tag_texts(),
    {
        let mut r: Vec<String> = Vec::new();
        match self {
            WriteKind::Bool | WriteKind::I8 | WriteKind::I16 | WriteKind::I32 | WriteKind::I64 => {
                r.push("$numeric".to_owned());
                r.push("$integer".to_owned());
            },
            WriteKind::F32 | WriteKind::F64 | WriteKind::Decimal(_) => {
                r.push("$numeric".to_owned());
            },
            WriteKind::Str => {
                r.push("$text".to_owned());
            },
            WriteKind::Date => {
                r.push("$date".to_owned());
            },
            WriteKind::Timestamp => {
                r.push("$timestamp".to_owned());
            },
            WriteKind::Time => {
                r.push("$time".to_owned());
            },
            WriteKind::Interval => {
                r.push("$interval".to_owned());
            },
        }
        assert(texts(r@) =~= self.tag_texts());
        r
    }

    /// Whether a stored value is of the DuckDB type of the column, and, for a date, its
    /// serial number fits in 32 bits.
    pub open spec fn accepts(self, raw: RawValue) -> bool {
        match self {
            WriteKind::Bool => raw is U8,
            WriteKind::I8 => raw is I8,
            WriteKind::I16 => raw is I16,
            WriteKind::I32 => raw is I32,
            WriteKind::I64 => raw is I64,
            WriteKind::F32 => raw is F32,
            WriteKind::F64 => raw is F64,
            WriteKind::Str => raw is Bytes,
            WriteKind::Date => raw matches RawValue::I32(days) && days + QLIK_EPOCH_OFFSET_DAYS
                <= i32::MAX,
            WriteKind::Timestamp => raw is I64,
            WriteKind::Time => raw is I64,
            WriteKind::Interval => raw is Interval,
            WriteKind::Decimal(_) => raw is I16 || raw is I32 || raw is I64 || raw is I128,
        }
    }

    /// Whether a stored value can be written in a column.
    pub fn can_write(self, raw: &Raw) -> (r: bool)
        ensures
            r == self.accepts(raw@),
    {
        match (self, raw) {
            (WriteKind::Bool, Raw::U8(_)) => true,
            (WriteKind::I8, Raw::I8(_)) => true,
            (WriteKind::I16, Raw::I16(_)) => true,
            (WriteKind::I32, Raw::I32(_)) => true,
            (WriteKind::I64, Raw::I64(_)) => true,
            (WriteKind::F32, Raw::F32(_)) => true,
            (WriteKind::F64, Raw::F64(_)) => true,
            (WriteKind::Str, Raw::Bytes(_)) => true,
            (WriteKind::Date, Raw::I32(x)) => *x <= i32::MAX - QLIK_EPOCH_OFFSET_DAYS,
            (WriteKind::Timestamp, Raw::I64(_)) => true,
            (WriteKind::Time, Raw::I64(_)) => true,
            (WriteKind::Interval, Raw::Interval(_)) => true,
            (WriteKind::Decimal(_), Raw::I16(_)) => true,
            (WriteKind::Decimal(_), Raw::I32(_)) => true,
            (WriteKind::Decimal(_), Raw::I64(_)) => true,
            (WriteKind::Decimal(_), Raw::I128(_)) => true,
            _ => false,
        }
    }

    /// What is stored in a QVD for a value.
    pub open spec fn written(self, raw: RawValue) -> StoredValue {
        match self {
            WriteKind::Bool => StoredValue::Int(
                if raw->U8_0 != 0 {
                    1
                } else {
                    0
                },
            ),
            WriteKind::I8 => StoredValue::Int(raw->I8_0 as i32),
            WriteKind::I16 => StoredValue::Int(raw->I16_0 as i32),
            WriteKind::I32 => StoredValue::Int(raw->I32_0),
            WriteKind::I64 => stored_integer(raw->I64_0),
            WriteKind::F32 => StoredValue::Float(widened(raw->F32_0)),
            WriteKind::F64 => StoredValue::Float(raw->F64_0),
            WriteKind::Str => StoredValue::Str(text_of(raw->Bytes_0)),
            WriteKind::Date => StoredValue::Int((raw->I32_0 + QLIK_EPOCH_OFFSET_DAYS) as i32),
            WriteKind::Timestamp => StoredValue::Float(timestamp_serial(raw->I64_0)),
            WriteKind::Time => StoredValue::Float(
                quotient(raw->I64_0 as int, MICROS_PER_DAY as int),
            ),
            WriteKind::Interval => StoredValue::Float(
                quotient(interval_micros(raw->Interval_0), MICROS_PER_DAY as int),
            ),
            WriteKind::Decimal(scale) => StoredValue::Float(
                quotient(unscaled(raw), ten_to(scale as nat)),
            ),
        }
    }

    /// What is stored in a QVD for a value.
    pub fn read(self, raw: &Raw) -> (r: Value)
        requires
            self.wf(),
            self.accepts(raw@),
        ensures
            r@ == self.written(raw@),
    {
        match (self, raw) {
            (WriteKind::Bool, Raw::U8(x)) => Value::Int(
                if *x != 0 {
                    1
                } else {
                    0
                },
            ),
            (WriteKind::I8, Raw::I8(x)) => Value::Int(*x as i32),
            (WriteKind::I16, Raw::I16(x)) => Value::Int(*x as i32),
            (WriteKind::I32, Raw::I32(x)) => Value::Int(*x),
            (WriteKind::I64, Raw::I64(x)) => {
                if *x >= i32::MIN as i64 && *x <= i32::MAX as i64 {
                    Value::Int(*x as i32)
                } else {
                    Value::Float(double::whole(*x))
                }
            },
            (WriteKind::F32, Raw::F32(x)) => Value::Float(double::widen(*x)),
            (WriteKind::F64, Raw::F64(x)) => Value::Float(*x),
            (WriteKind::Str, Raw::Bytes(x)) => Value::Str(text::from_utf8_lossy(x)),
            (WriteKind::Date, Raw::I32(x)) => Value::Int(*x + QLIK_EPOCH_OFFSET_DAYS),
            (WriteKind::Timestamp, Raw::I64(x)) => {
                let days: u64 = double::divide_by(double::whole(*x), MICROS_PER_DAY);
                Value::Float(double::add_whole(days, QLIK_EPOCH_OFFSET_DAYS))
            },
            (WriteKind::Time, Raw::I64(x)) => Value::Float(
                divide_signed(*x as i128, MICROS_PER_DAY as u128),
            ),
            (WriteKind::Interval, Raw::Interval(x)) => {
                let days: i64 = x.months as i64 * DAYS_PER_MONTH + x.days as i64;
                assert(-0x1_0000_0000_0000 <= days <= 0x1_0000_0000_0000);
                assert(-0x1_0000_0000_0000 * MICROS_PER_DAY <= days * MICROS_PER_DAY
                    <= 0x1_0000_0000_0000 * MICROS_PER_DAY) by (nonlinear_arith)
                    requires
                        -0x1_0000_0000_0000 <= days <= 0x1_0000_0000_0000,
                ;
                let micros: i128 = days as i128 * MICROS_PER_DAY as i128 + x.micros as i128;
                Value::Float(divide_signed(micros, MICROS_PER_DAY as u128))
            },
            (WriteKind::Decimal(scale), Raw::I16(x)) => read_decimal(*x as i128, scale),
            (WriteKind::Decimal(scale), Raw::I32(x)) => read_decimal(*x as i128, scale),
            (WriteKind::Decimal(scale), Raw::I64(x)) => read_decimal(*x as i128, scale),
            (WriteKind::Decimal(scale), Raw::I128(x)) => read_decimal(*x, scale),
            _ => Value::Int(0),
        }
    }
}

/// The double nearest to `n / d`.
fn divide_signed(n: i128, d: u128) -> (r: u64)
    requires
        0 < d < 0x8000_0000_0000_0000_0000_0000_0000_0000,
    ensures
        r == quotient(n as int, d as int),
{
    if n < 0 {
        double::divide(true, (-(n + 1)) as u128 + 1, d)
    } else {
        double::divide(false, n as u128, d)
    }
}

/// `10^k`.
fn power_of_ten(k: u8) -> (r: u128)
    requires
        k <= MAX_SCALE,
    ensures
        r == ten_to(k as nat),
        0 < r < 0x8000_0000_0000_0000_0000_0000_0000_0000,
{
    let mut r: u128 = 1;
    let mut i: u8 = 0;
    proof {
        lemma_powers_of_ten(k as nat);
    }
    while i < k
        invariant
            i <= k <= MAX_SCALE,
            r == ten_to(i as nat),
            ten_to(k as nat) < 0x8000_0000_0000_0000_0000_0000_0000_0000,
        decreases k - i,
    {
        proof {
            lemma_ten_to_increases((i + 1) as nat, k as nat);
        }
        r = 10 * r;
        i = i + 1;
    }
    r
}

/// Larger powers of ten for larger exponents.
proof fn lemma_ten_to_increases(a: nat, b: nat)
    requires
        a <= b,
    ensures
        0 < ten_to(a) <= ten_to(b),
    decreases b,
{
    if a < b {
        lemma_ten_to_increases(a, (b - 1) as nat);
    } else if b > 0 {
        lemma_ten_to_increases((b - 1) as nat, (b - 1) as nat);
    }
}

/// The powers of ten that occur have less than 127 bits.
proof fn lemma_powers_of_ten(k: nat)
    requires
        k <= MAX_SCALE,
    ensures
        0 < ten_to(k) < 0x8000_0000_0000_0000_0000_0000_0000_0000,
{
    reveal_with_fuel(ten_to, 39);
    assert(ten_to(38) == 100_000_000_000_000_000_000_000_000_000_000_000_000);
    lemma_ten_to_increases(k, 38);
}

/// A `DECIMAL` as the nearest double.
fn read_decimal(x: i128, scale: u8) -> (r: Value)
    requires
        scale <= MAX_SCALE,
    ensures
        r@ == StoredValue::Float(quotient(x as int, ten_to(scale as nat))),
{
    let d: u128 = power_of_ten(scale);
    Value::Float(divide_signed(x, d))
}

/// The DuckDB type of a column: its identifier and, for a `DECIMAL`, its number of digits
/// behind the point.
#[derive(Clone, Copy, Debug, PartialEq, Eq, Structural)]
pub struct ColumnType {
    pub type_id: u32,
    pub scale: u8,
}

/// The `FIELD_NAMES` option: left out, or one name, or a list of names.
#[derive(Clone, Debug)]
pub enum FieldNames {
    Absent,
    Single(String),
    List(Vec<String>),
}

/// The names that are given, if any.
pub open spec fn given_names(option: FieldNames) -> Option<Seq<Seq<char>>> {
    match option {
        FieldNames::Absent => None,
        FieldNames::Single(name) => Some(seq![name@]),
        FieldNames::List(names) => Some(texts(names@)),
    }
}

/// Why columns cannot be written.
#[derive(Clone, Copy, Debug, PartialEq, Eq, Structural)]
pub enum CopyError {
    /// A column is of a type, given by its identifier, that is not written.
    UnsupportedType(u32),
    /// The number of names that are given is not that of the columns.
    NameCount { names: usize, columns: usize },
}

impl CopyError {
    /// What the error says.
    pub open spec fn text(self) -> Seq<char> {
        match self {
            CopyError::UnsupportedType(tid) =>
                "read_qvd/COPY : type de colonne non supporté (id "@ + decimal(tid as nat)
                    + ") en écriture ; CAST vers BIGINT/DOUBLE/VARCHAR/DATE/TIMESTAMP"@,
            CopyError::NameCount { names, columns } => "FIELD_NAMES : "@ + decimal(names as nat)
                + " nom(s) pour "@ + decimal(columns as nat) + " colonne(s)"@,
        }
    }

    /// What the error says.
    pub fn message(&self) -> (r: String)
        ensures
            r@ == self.text(),
    {
        let mut r: String = String::new();
        match self {
            CopyError::UnsupportedType(tid) => {
                r.append("read_qvd/COPY : type de colonne non supporté (id ");
                text::append_decimal(&mut r, *tid as u64);
                r.append(") en écriture ; CAST vers BIGINT/DOUBLE/VARCHAR/DATE/TIMESTAMP");
            },
            CopyError::NameCount { names, columns } => {
                r.append("FIELD_NAMES : ");
                text::append_decimal(&mut r, *names as u64);
                r.append(" nom(s) pour ");
                text::append_decimal(&mut r, *columns as u64);
                r.append(" colonne(s)");
            },
        }
        assert(r@ =~= self.text());
        r
    }
}

/// The columns to be written: their names and the ways in which they are written.
#[derive(Clone, Debug)]
pub struct CopyBind {
    pub kinds: Vec<WriteKind>,
    pub names: Vec<String>,
}

impl CopyBind {
    /// Whether every column has a name and a way to be written.
    pub open spec fn wf(self) -> bool {
        &&& self.names@.len() == self.kinds@.len()
        &&& forall|i: int| 0 <= i < self.kinds@.len() ==> (#[trigger] self.kinds@[i]).wf()
    }
}

/// The identifier of the first type that cannot be written, if there is one.
pub open spec fn first_unsupported(types: Seq<ColumnType>) -> Option<u32>
    decreases types.len(),
{
    if types.len() == 0 {
        None
    } else if WriteKind::for_type(types[0].type_id, types[0].scale) is None {
        Some(types[0].type_id)
    } else {
        first_unsupported(types.drop_first())
    }
}

/// The ways in which columns of the given types are written.
pub open spec fn write_kinds(types: Seq<ColumnType>) -> Seq<WriteKind> {
    types.map_values(|t: ColumnType| WriteKind::for_type(t.type_id, t.scale)->0)
}

/// The names of columns for which none are given: `field0`, `field1` and so on.
pub open spec fn default_names(columns: nat) -> Seq<Seq<char>> {
    Seq::new(columns, |i: int| "field"@ + decimal(i as nat))
}

/// Columns for which no names are given get names that differ.
pub proof fn lemma_default_names_differ(columns: nat, i: int, j: int)
    requires
        0 <= i < columns,
        0 <= j < columns,
        i != j,
    ensures
        default_names(columns)[i] != default_names(columns)[j],
{
    let prefix = "field"@;
    let a = decimal(i as nat);
    let b = decimal(j as nat);
    lemma_decimal_spells_its_number(i as nat);
    lemma_decimal_spells_its_number(j as nat);
    assert((prefix + a).skip(prefix.len() as int) =~= a);
    assert((prefix + b).skip(prefix.len() as int) =~= b);
}

/// The ways in which columns of the given types are written, or the first type that
/// cannot be.
fn bind_kinds(types: &Vec<ColumnType>) -> (r: Result<Vec<WriteKind>, u32>)
    ensures
        match r {
            Ok(kinds) => first_unsupported(types@) is None && kinds@ == write_kinds(types@)
                && forall|i: int| 0 <= i < kinds@.len() ==> (#[trigger] kinds@[i]).wf(),
            Err(tid) => first_unsupported(types@) == Some(tid),
        },
{
    let mut kinds: Vec<WriteKind> = Vec::new();
    let mut i: usize = 0;
    assert(types@.skip(0) =~= types@);
    while i < types.len()
        invariant
            i <= types@.len(),
            kinds@.len() == i,
            first_unsupported(types@) == first_unsupported(types@.skip(i as int)),
            forall|k: int| 0 <= k < i ==> #[trigger] kinds@[k] == write_kinds(types@)[k],
            forall|k: int| 0 <= k < i ==> (#[trigger] kinds@[k]).wf(),
        decreases types@.len() - i,
    {
        assert(types@.skip(i as int)[0] == types@[i as int]);
        assert(types@.skip(i as int).drop_first() =~= types@.skip(i + 1));
        let t: ColumnType = types[i];
        match WriteKind::from_type_id(t.type_id, t.scale) {
            Some(kind) => kinds.push(kind),
            None => return Err(t.type_id),
        }
        i = i + 1;
    }
    assert(kinds@ =~= write_kinds(types@));
    Ok(kinds)
}

/// The names of columns for which none are given.
fn numbered_names(columns: usize) -> (r: Vec<String>)
    ensures
        texts(r@) == default_names(columns as nat),
{
    let mut r: Vec<String> = Vec::new();
    let mut i: usize = 0;
    while i < columns
        invariant
            i <= columns,
            r@.len() == i,
            forall|k: int| 0 <= k < i ==> (#[trigger] r@[k])@ == "field"@ + decimal(k as nat),
        decreases columns - i,
    {
        let mut name: String = "field".to_owned();
        text::append_decimal(&mut name, i as u64);
        r.push(name);
        i = i + 1;
    }
    assert(texts(r@) =~= default_names(columns as nat));
    r
}

/// Binds columns of the given types. The first type that cannot be written is an error;
/// so is a number of names other than the number of columns.
pub fn copy_bind(types: &Vec<ColumnType>, option: FieldNames) -> (r: Result<CopyBind, CopyError>)
    ensures
        match first_unsupported(types@) {
            Some(tid) => r == Err::<CopyBind, CopyError>(CopyError::UnsupportedType(tid)),
            None => match given_names(option) {
                None => r matches Ok(bind) && bind.wf() && bind.kinds@ == write_kinds(types@)
                    && texts(bind.names@) == default_names(types@.len()),
                Some(names) => if names.len() == types@.len() {
                    r matches Ok(bind) && bind.wf() && bind.kinds@ == write_kinds(types@)
                        && texts(bind.names@) == names
                } else {
                    r == Err::<CopyBind, CopyError>(
                        CopyError::NameCount {
                            names: names.len() as usize,
                            columns: types@.len() as usize,
                        },
                    )
                },
            },
        },
{
    let kinds: Vec<WriteKind> = match bind_kinds(types) {
        Ok(kinds) => kinds,
        Err(tid) => return Err(CopyError::UnsupportedType(tid)),
    };
    let names: Vec<String> = match option {
        FieldNames::Absent => numbered_names(types.len()),
        FieldNames::Single(name) => {
            let mut list: Vec<String> = Vec::new();
            list.push(name);
            assert(texts(list@) =~= seq![name@]);
            list
        },
        FieldNames::List(list) => list,
    };
    assert(texts(names@).len() == names@.len());
    if names.len() != kinds.len() {
        return Err(CopyError::NameCount { names: names.len(), columns: types.len() });
    }
    Ok(CopyBind { kinds, names })
}

/// The values in a list of cells.
pub open spec fn stored_cells(cells: Seq<Option<Value>>) -> Seq<Option<StoredValue>> {
    cells.map_values(
        |c: Option<Value>|
            match c {
                Some(v) => Some(v@),
                None => None,
            },
    )
}

/// The values that DuckDB stores in a list of rows.
pub open spec fn raw_cells(rows: Seq<Option<Raw>>) -> Seq<Option<RawValue>> {
    rows.map_values(
        |c: Option<Raw>|
            match c {
                Some(v) => Some(v@),
                None => None,
            },
    )
}

/// What is stored for the rows of one column; `NULL` is kept.
pub open spec fn written_cells(kind: WriteKind, rows: Seq<Option<RawValue>>) -> Seq<
    Option<StoredValue>,
> {
    rows.map_values(
        |c: Option<RawValue>|
            match c {
                Some(raw) => Some(kind.written(raw)),
                None => None,
            },
    )
}

/// The rows that have been gathered.
pub struct SinkValue {
    pub kinds: Seq<WriteKind>,
    pub names: Seq<Seq<char>>,
    pub columns: Seq<Seq<Option<StoredValue>>>,
}

/// Rows that are gathered to be written.
pub struct CopySink {
    kinds: Vec<WriteKind>,
    names: Vec<String>,
    columns: Vec<Vec<Option<Value>>>,
}

/// A column as it is handed to the writer of the file.
#[derive(Clone, Debug)]
pub struct FieldData {
    pub name: String,
    pub tags: Vec<String>,
    pub values: Vec<Option<Value>>,
}

/// A table as it is handed to the writer of the file.
#[derive(Clone, Debug)]
pub struct TableData {
    pub name: String,
    pub fields: Vec<FieldData>,
}

impl View for CopySink {
    type V = SinkValue;

    closed spec fn view(&self) -> SinkValue {
        SinkValue {
            kinds: self.kinds@,
            names: texts(self.names@),
            columns: self.columns@.map_values(|c: Vec<Option<Value>>| stored_cells(c@)),
        }
    }
}

/// Whether a chunk has one column per column to be written, all with the same number of
/// rows, and values that can be written.
pub open spec fn is_chunk(kinds: Seq<WriteKind>, chunk: Seq<Vec<Option<Raw>>>, rows: nat) -> bool {
    &&& chunk.len() == kinds.len()
    &&& forall|c: int| 0 <= c < chunk.len() ==> (#[trigger] chunk[c])@.len() == rows
    &&& forall|c: int, r: int|
        0 <= c < chunk.len() && 0 <= r < rows ==> (#[trigger] chunk[c]@[r] matches Some(raw)
            ==> kinds[c].accepts(raw@))
}

impl CopySink {
    /// Whether all columns have a name, a way to be written and the same number of rows.
    pub closed spec fn wf(&self) -> bool {
        &&& self.names@.len() == self.kinds@.len()
        &&& self.columns@.len() == self.kinds@.len()
        &&& forall|i: int| 0 <= i < self.kinds@.len() ==> (#[trigger] self.kinds@[i]).wf()
        &&& forall|i: int|
            0 <= i < self.columns@.len() ==> (#[trigger] self.columns@[i])@.len()
                == self.columns@[0]@.len()
    }

    /// What well-formedness promises of the rows that have been gathered.
    pub proof fn lemma_wf(&self)
        requires
            self.wf(),
        ensures
            self@.names.len() == self@.kinds.len(),
            self@.columns.len() == self@.kinds.len(),
            forall|i: int|
                0 <= i < self@.columns.len() ==> (#[trigger] self@.columns[i]).len()
                    == self@.columns[0].len(),
    {
    }

    /// Starts without rows.
    pub fn new(bind: CopyBind) -> (r: CopySink)
        requires
            bind.wf(),
        ensures
            r.wf(),
            r@.kinds == bind.kinds@,
            r@.names == texts(bind.names@),
            r@.columns == Seq::new(
                bind.kinds@.len(),
                |i: int| Seq::<Option<StoredValue>>::empty(),
            ),
    {
        let mut columns: Vec<Vec<Option<Value>>> = Vec::new();
        let mut i: usize = 0;
        while i < bind.kinds.len()
            invariant
                i <= bind.kinds@.len(),
                columns@.len() == i,
                forall|k: int| 0 <= k < i ==> (#[trigger] columns@[k])@.len() == 0,
            decreases bind.kinds@.len() - i,
        {
            columns.push(Vec::new());
            i = i + 1;
        }
        let r = CopySink { kinds: bind.kinds, names: bind.names, columns };
        assert forall|k: int| 0 <= k < r.columns@.len() implies #[trigger] r@.columns[k]
            == Seq::<Option<StoredValue>>::empty() by {
            assert(r.columns@[k]@.len() == 0);
            assert(r@.columns[k] =~= Seq::<Option<StoredValue>>::empty());
        }
        assert(r@.columns =~= Seq::new(
            bind.kinds@.len(),
            |i: int| Seq::<Option<StoredValue>>::empty(),
        ));
        r
    }

    /// Adds the rows of a chunk behind those that have been gathered.
    pub fn sink(&mut self, chunk: &Vec<Vec<Option<Raw>>>)
        requires
            old(self).wf(),
            exists|rows: nat| is_chunk(old(self)@.kinds, chunk@, rows),
        ensures
            final(self).wf(),
            final(self)@.kinds == old(self)@.kinds,
            final(self)@.names == old(self)@.names,
            final(self)@.columns.len() == old(self)@.columns.len(),
            forall|c: int|
                0 <= c < final(self)@.columns.len() ==> #[trigger] final(self)@.columns[c]
                    == old(self)@.columns[c] + written_cells(
                    final(self)@.kinds[c],
                    raw_cells(chunk@[c]@),
                ),
    {
        let ghost rows: nat = choose|rows: nat| is_chunk(self@.kinds, chunk@, rows);
        let ghost before: Seq<Vec<Option<Value>>> = self.columns@;
        let mut c: usize = 0;
        while c < self.kinds.len()
            invariant
                c <= self.kinds@.len(),
                self.kinds@ == old(self).kinds@,
                self.names@ == old(self).names@,
                self.columns@.len() == self.kinds@.len(),
                before == old(self).columns@,
                old(self).wf(),
                is_chunk(self.kinds@, chunk@, rows),
                forall|k: int|
                    0 <= k < c ==> (#[trigger] self.columns@[k])@.len() == before[k]@.len() + rows,
                forall|k: int|
                    0 <= k < c ==> stored_cells((#[trigger] self.columns@[k])@) == stored_cells(
                        before[k]@,
                    ) + written_cells(self.kinds@[k], raw_cells(chunk@[k]@)),
                forall|k: int|
                    c <= k < self.columns@.len() ==> #[trigger] self.columns@[k] == before[k],
            decreases self.kinds@.len() - c,
        {
            let kind: WriteKind = self.kinds[c];
            assert(kind.wf());
            gather(kind, &mut self.columns[c], &chunk[c]);
            c = c + 1;
        }
    }

    /// The table to be written, `qvd`: its columns with their names and tags.
    pub fn finish(&self) -> (r: TableData)
        requires
            self.wf(),
        ensures
            r.name@ == "qvd"@,
            r.fields@.len() == self@.kinds.len(),
            forall|i: int|
                0 <= i < r.fields@.len() ==> {
                    &&& (#[trigger] r.fields@[i]).name@ == self@.names[i]
                    &&& texts(r.fields@[i].tags@) == self@.kinds[i].tag_texts()
                    &&& stored_cells(r.fields@[i].values@) == self@.columns[i]
                },
    {
        let mut fields: Vec<FieldData> = Vec::new();
        let mut i: usize = 0;
        while i < self.kinds.len()
            invariant
                i <= self.kinds@.len(),
                self.wf(),
                fields@.len() == i,
                forall|k: int|
                    0 <= k < i ==> {
                        &&& (#[trigger] fields@[k]).name@ == self@.names[k]
                        &&& texts(fields@[k].tags@) == self@.kinds[k].tag_texts()
                        &&& stored_cells(fields@[k].values@) == self@.columns[k]
                    },
            decreases self.kinds@.len() - i,
        {
            let field = FieldData {
                name: self.names[i].clone(),
                tags: self.kinds[i].tags(),
                values: copy_values(&self.columns[i]),
            };
            assert(self@.columns[i as int] == stored_cells(self.columns@[i as int]@));
            fields.push(field);
            i = i + 1;
        }
        TableData { name: "qvd".to_owned(), fields }
    }
}

/// Adds the rows of one column behind those that have been gathered.
fn gather(kind: WriteKind, column: &mut Vec<Option<Value>>, rows: &Vec<Option<Raw>>)
    requires
        kind.wf(),
        forall|r: int|
            0 <= r < rows@.len() ==> (#[trigger] rows@[r] matches Some(raw) ==> kind.accepts(raw@)),
    ensures
        final(column)@.len() == old(column)@.len() + rows@.len(),
        stored_cells(final(column)@) == stored_cells(old(column)@) + written_cells(
            kind,
            raw_cells(rows@),
        ),
{
    let ghost before: Seq<Option<Value>> = column@;
    let mut i: usize = 0;
    while i < rows.len()
        invariant
            i <= rows@.len(),
            kind.wf(),
            forall|r: int|
                0 <= r < rows@.len() ==> (#[trigger] rows@[r] matches Some(raw) ==> kind.accepts(
                    raw@,
                )),
            before == old(column)@,
            column@.len() == before.len() + i,
            forall|k: int| 0 <= k < before.len() ==> #[trigger] column@[k] == before[k],
            forall|k: int|
                before.len() <= k < before.len() + i ==> stored_cells(column@)[k] == written_cells(
                    kind,
                    raw_cells(rows@),
                )[k - before.len()],
        decreases rows@.len() - i,
    {
        let ghost so_far: Seq<Option<Value>> = column@;
        let cell: Option<Value> = match &rows[i] {
            Some(raw) => Some(kind.read(raw)),
            None => None,
        };
        column.push(cell);
        proof {
            assert forall|k: int| before.len() <= k < before.len() + i + 1 implies stored_cells(
                column@,
            )[k] == written_cells(kind, raw_cells(rows@))[k - before.len()] by {
                if k < before.len() + i {
                    assert(column@[k] == so_far[k]);
                    assert(stored_cells(so_far)[k] == stored_cells(column@)[k]);
                } else {
                    assert(raw_cells(rows@)[i as int] == match rows@[i as int] {
                        Some(v) => Some(v@),
                        None => None,
                    });
                }
            }
        }
        i = i + 1;
    }
    assert(stored_cells(column@) =~= stored_cells(before) + written_cells(kind, raw_cells(rows@)));
}

/// A copy of the values of a column.
fn copy_values(values: &Vec<Option<Value>>) -> (r: Vec<Option<Value>>)
    ensures
        stored_cells(r@) == stored_cells(values@),
{
    let mut r: Vec<Option<Value>> = Vec::new();
    let mut i: usize = 0;
    while i < values.len()
        invariant
            i <= values@.len(),
            r@.len() == i,
            forall|k: int| 0 <= k < i ==> stored_cells(r@)[k] == stored_cells(values@)[k],
        decreases values@.len() - i,
    {
        let ghost so_far: Seq<Option<Value>> = r@;
        let cell: Option<Value> = match &values[i] {
            Some(v) => Some(v.copied()),
            None => None,
        };
        r.push(cell);
        proof {
            assert forall|k: int| 0 <= k < i + 1 implies stored_cells(r@)[k] == stored_cells(
                values@,
            )[k] by {
                if k < i {
                    assert(r@[k] == so_far[k]);
                    assert(stored_cells(so_far)[k] == stored_cells(r@)[k]);
                }
            }
        }
        i = i + 1;
    }
    assert(stored_cells(r@) =~= stored_cells(values@));
    r
}

/// What DuckDB stores and what a QVD stores is what is in the values.
pub proof fn lemma_views_of_values(raw: Raw, value: Value)
    ensures
        match raw {
            Raw::U8(x) => raw@ == RawValue::U8(x),
            Raw::I8(x) => raw@ == RawValue::I8(x),
            Raw::I16(x) => raw@ == RawValue::I16(x),
            Raw::I32(x) => raw@ == RawValue::I32(x),
            Raw::I64(x) => raw@ == RawValue::I64(x),
            Raw::I128(x) => raw@ == RawValue::I128(x),
            Raw::F32(x) => raw@ == RawValue::F32(x),
            Raw::F64(x) => raw@ == RawValue::F64(x),
            Raw::Interval(x) => raw@ == RawValue::Interval(x),
            Raw::Bytes(x) => raw@ == RawValue::Bytes(x@),
        },
        match value {
            Value::Int(x) => value@ == StoredValue::Int(x),
            Value::Float(x) => value@ == StoredValue::Float(x),
            Value::Str(x) => value@ == StoredValue::Str(x@),
        },
{
}

/// The rows in lists are those that the lists hold, and `NULL` exactly where these are.
pub proof fn lemma_views_of_rows(cells: Seq<Option<Value>>, rows: Seq<Option<Raw>>)
    ensures
        stored_cells(cells).len() == cells.len(),
        forall|i: int|
            0 <= i < cells.len() ==> match cells[i] {
                Some(v) => #[trigger] stored_cells(cells)[i] == Some(v@),
                None => stored_cells(cells)[i] is None,
            },
        raw_cells(rows).len() == rows.len(),
        forall|i: int|
            0 <= i < rows.len() ==> match rows[i] {
                Some(v) => #[trigger] raw_cells(rows)[i] == Some(v@),
                None => raw_cells(rows)[i] is None,
            },
{
}

/// Every row of a chunk is gathered: it is `NULL` exactly where the row was `NULL`, and else
/// the stored form of that row's value.
pub proof fn lemma_rows_are_kept(kind: WriteKind, rows: Seq<Option<RawValue>>)
    ensures
        written_cells(kind, rows).len() == rows.len(),
        forall|r: int|
            0 <= r < rows.len() ==> (#[trigger] written_cells(kind, rows)[r] is None
                <==> rows[r] is None),
        forall|r: int|
            0 <= r < rows.len() ==> (rows[r] matches Some(raw) ==> #[trigger] written_cells(
                kind,
                rows,
            )[r] == Some(kind.written(raw))),
{
}

/// It makes no difference how rows are cut into chunks.
pub proof fn lemma_chunks_do_not_matter(
    kind: WriteKind,
    a: Seq<Option<RawValue>>,
    b: Seq<Option<RawValue>>,
)
    ensures
        written_cells(kind, a + b) == written_cells(kind, a) + written_cells(kind, b),
{
    assert(written_cells(kind, a + b) =~= written_cells(kind, a) + written_cells(kind, b));
}

/// Which types are written, by the numbers that DuckDB gives them, and how: a `DECIMAL` with
/// the digits behind its point that it has, at most 38.
pub proof fn lemma_types_that_are_written(tid: u32, scale: u8)
    ensures
        tid == 1 ==> WriteKind::for_type(tid, scale) == Some(WriteKind::Bool),
        tid == 2 ==> WriteKind::for_type(tid, scale) == Some(WriteKind::I8),
        tid == 3 ==> WriteKind::for_type(tid, scale) == Some(WriteKind::I16),
        tid == 4 ==> WriteKind::for_type(tid, scale) == Some(WriteKind::I32),
        tid == 5 ==> WriteKind::for_type(tid, scale) == Some(WriteKind::I64),
        tid == 10 ==> WriteKind::for_type(tid, scale) == Some(WriteKind::F32),
        tid == 11 ==> WriteKind::for_type(tid, scale) == Some(WriteKind::F64),
        tid == 12 ==> WriteKind::for_type(tid, scale) == Some(WriteKind::Timestamp),
        tid == 13 ==> WriteKind::for_type(tid, scale) == Some(WriteKind::Date),
        tid == 14 ==> WriteKind::for_type(tid, scale) == Some(WriteKind::Time),
        tid == 15 ==> WriteKind::for_type(tid, scale) == Some(WriteKind::Interval),
        tid == 17 ==> WriteKind::for_type(tid, scale) == Some(WriteKind::Str),
        tid == 19 ==> WriteKind::for_type(tid, scale) == if scale <= 38 {
            Some(WriteKind::Decimal(scale))
        } else {
            None
        },
        WriteKind::for_type(tid, scale) is Some ==> 1 <= tid <= 5 || 10 <= tid <= 15 || tid == 17
            || tid == 19,
{
}

/// A kind can be written exactly where it is no `DECIMAL` of more than 38 digits behind its
/// point.
pub proof fn lemma_kinds_that_can_be_written(kind: WriteKind)
    ensures
        kind.wf() <==> match kind {
            WriteKind::Decimal(scale) => scale <= 38,
            _ => true,
        },
{
}

/// Every type is tagged with its meaning and nothing else: whole numbers as numbers and
/// integers, other numbers as numbers, and the rest by the tag of its name.
pub proof fn lemma_tags_of_types(kind: WriteKind)
    ensures
        match kind {
            WriteKind::Bool | WriteKind::I8 | WriteKind::I16 | WriteKind::I32 | WriteKind::I64 => {
                &&& kind.tag_texts().len() == 2
                &&& kind.tag_texts()[0] == "$numeric"@
                &&& kind.tag_texts()[1] == "$integer"@
            },
            WriteKind::F32 | WriteKind::F64 | WriteKind::Decimal(_) => kind.tag_texts().len() == 1
                && kind.tag_texts()[0] == "$numeric"@,
            WriteKind::Str => kind.tag_texts().len() == 1 && kind.tag_texts()[0] == "$text"@,
            WriteKind::Date => kind.tag_texts().len() == 1 && kind.tag_texts()[0] == "$date"@,
            WriteKind::Timestamp => kind.tag_texts().len() == 1 && kind.tag_texts()[0]
                == "$timestamp"@,
            WriteKind::Time => kind.tag_texts().len() == 1 && kind.tag_texts()[0] == "$time"@,
            WriteKind::Interval => kind.tag_texts().len() == 1 && kind.tag_texts()[0]
                == "$interval"@,
        },
{
}

/// Every value that DuckDB stores in a column can be written, but for dates whose serial
/// number 32 bits do not hold.
pub proof fn lemma_values_that_can_be_written(kind: WriteKind, raw: RawValue)
    ensures
        kind.accepts(raw) <==> match raw {
            RawValue::U8(_) => kind is Bool,
            RawValue::I8(_) => kind is I8,
            RawValue::I16(_) => kind is I16 || kind is Decimal,
            RawValue::I32(days) => kind is I32 || kind is Decimal || kind is Date && days
                <= 0x7FFF_FFFF - 25_569,
            RawValue::I64(_) => kind is I64 || kind is Decimal || kind is Timestamp || kind is Time,
            RawValue::I128(_) => kind is Decimal,
            RawValue::F32(_) => kind is F32,
            RawValue::F64(_) => kind is F64,
            RawValue::Interval(_) => kind is Interval,
            RawValue::Bytes(_) => kind is Str,
        },
{
}

/// Powers of ten: the first is 1, each is ten times the one before, and they multiply as
/// their exponents add up.
pub proof fn lemma_powers_of_ten_multiply(a: nat, b: nat)
    ensures
        ten_to(0) == 1,
        ten_to(1) == 10,
        ten_to(a + 1) == 10 * ten_to(a),
        ten_to(a + b) == ten_to(a) * ten_to(b),
    decreases b,
{
    assert(ten_to(1) == 10 * ten_to(0));
    if b > 0 {
        let c = (b - 1) as nat;
        lemma_powers_of_ten_multiply(a, c);
        let x = ten_to(a);
        let y = ten_to(c);
        assert(x * (10 * y) == 10 * (x * y)) by (nonlinear_arith);
        assert(ten_to(a + b) == 10 * ten_to((a + b - 1) as nat));
    } else {
        assert(ten_to(a) * 1 == ten_to(a));
    }
}

/// The length of a duration: nothing lasts nothing, and lengths add up, at 30 days for each
/// month, 86400 million microseconds for each day, and 1 for each microsecond.
pub proof fn lemma_lengths_of_durations(x: IntervalVal, y: IntervalVal)
    ensures
        x.months == 0 && x.days == 0 && x.micros == 0 ==> interval_micros(x) == 0,
        interval_micros(x) - interval_micros(y) == (x.months - y.months) * 2_592_000_000_000 + (
        x.days - y.days) * 86_400_000_000 + (x.micros - y.micros),
{
}

/// The number of a `DECIMAL` is the same in however many bits it is stored.
pub proof fn lemma_width_of_a_decimal_does_not_matter(x: i16, y: i32, z: i64, w: i128)
    ensures
        unscaled(RawValue::I16(x)) == x,
        unscaled(RawValue::I32(y)) == y,
        unscaled(RawValue::I64(z)) == z,
        unscaled(RawValue::I128(w)) == w,
{
}

/// Names are given one by one, as a list or not at all, and are taken as they are given.
pub proof fn lemma_names_that_are_given(option: FieldNames)
    ensures
        match option {
            FieldNames::Absent => given_names(option) is None,
            FieldNames::Single(name) => given_names(option) matches Some(names) && names.len() == 1
                && names[0] == name@,
            FieldNames::List(list) => given_names(option) matches Some(names) && names.len()
                == list@.len() && forall|i: int|
                0 <= i < names.len() ==> #[trigger] names[i] == list@[i]@,
        },
{
}

/// Columns can be bound where every type is written; else the error is about the first one
/// that is not.
pub proof fn lemma_first_type_that_is_not_written(types: Seq<ColumnType>)
    ensures
        first_unsupported(types) is None <==> forall|i: int|
            0 <= i < types.len() ==> WriteKind::for_type(
                (#[trigger] types[i]).type_id,
                types[i].scale,
            ) is Some,
        first_unsupported(types) matches Some(tid) ==> exists|i: int|
            0 <= i < types.len() && (#[trigger] types[i]).type_id == tid && WriteKind::for_type(
                tid,
                types[i].scale,
            ) is None && forall|h: int|
                0 <= h < i ==> WriteKind::for_type(
                    (#[trigger] types[h]).type_id,
                    types[h].scale,
                ) is Some,
    decreases types.len(),
{
    if types.len() > 0 {
        let rest = types.drop_first();
        lemma_first_type_that_is_not_written(rest);
        assert forall|i: int| 0 < i < types.len() implies #[trigger] types[i] == rest[i - 1] by {}
        if WriteKind::for_type(types[0].type_id, types[0].scale) is Some {
            if let Some(tid) = first_unsupported(rest) {
                let i = choose|i: int|
                    0 <= i < rest.len() && (#[trigger] rest[i]).type_id == tid
                        && WriteKind::for_type(tid, rest[i].scale) is None && forall|h: int|
                        0 <= h < i ==> WriteKind::for_type(
                            (#[trigger] rest[h]).type_id,
                            rest[h].scale,
                        ) is Some;
                assert(types[i + 1] == rest[i]);
                assert forall|h: int| 0 <= h < i + 1 implies WriteKind::for_type(
                    (#[trigger] types[h]).type_id,
                    types[h].scale,
                ) is Some by {
                    if h > 0 {
                        assert(types[h] == rest[h - 1]);
                    }
                }
            } else {
                assert forall|i: int| 0 <= i < types.len() implies WriteKind::for_type(
                    (#[trigger] types[i]).type_id,
                    types[i].scale,
                ) is Some by {
                    if i > 0 {
                        assert(types[i] == rest[i - 1]);
                    }
                }
            }
        } else {
            assert(types[0].type_id == first_unsupported(types)->0);
        }
    }
}

/// Every column is written as its own type is.
pub proof fn lemma_kinds_of_columns(types: Seq<ColumnType>)
    ensures
        write_kinds(types).len() == types.len(),
        forall|i: int|
            0 <= i < types.len() ==> (WriteKind::for_type(types[i].type_id, types[i].scale) is Some
                ==> Some(#[trigger] write_kinds(types)[i]) == WriteKind::for_type(
                types[i].type_id,
                types[i].scale,
            )),
{
}

/// A column without a given name is called `field` and its number, counted from 0.
pub proof fn lemma_default_names_are_numbered(columns: nat, i: int)
    requires
        0 <= i < columns,
    ensures
        default_names(columns).len() == columns,
        ({
            let name = default_names(columns)[i];
            let digits = name.skip(5);
            &&& name.len() > 5
            &&& name.take(5) == "field"@
            &&& all_digits(digits)
            &&& digits_value(digits) == i
            &&& digits[0] == '0' ==> i == 0 && digits.len() == 1
        }),
{
    reveal_strlit("field");
    let name = default_names(columns)[i];
    lemma_shape_of_an_integer_text(i);
    assert(signed_decimal(i) == decimal(i as nat));
    assert(name.skip(5) =~= decimal(i as nat));
    assert(name.take(5) =~= "field"@);
}

/// The errors name the type that is not written, or both numbers that differ, and else say
/// the same for all: their texts differ where the numbers in them do.
pub proof fn lemma_messages_name_the_numbers(tid: u32, names: usize, columns: usize)
    ensures
        ({
            let text = CopyError::UnsupportedType(tid).text();
            let lead = "read_qvd/COPY : type de colonne non supporté (id "@;
            let trail = ") en écriture ; CAST vers BIGINT/DOUBLE/VARCHAR/DATE/TIMESTAMP"@;
            text == lead + signed_decimal(tid as int) + trail
        }),
        ({
            let text = CopyError::NameCount { names, columns }.text();
            text == "FIELD_NAMES : "@ + signed_decimal(names as int) + " nom(s) pour "@
                + signed_decimal(columns as int) + " colonne(s)"@
        }),
{
}

/// Bytes that are valid UTF-8 are decoded; what stands for other bytes is left to the
/// standard library.
pub proof fn lemma_texts_of_bytes(bytes: Seq<u8>)
    ensures
        valid_utf8(bytes) ==> text_of(bytes) == decode_utf8(bytes),
        !valid_utf8(bytes) ==> text_of(bytes) == lossy_text(bytes),
{
}

/// A chunk has a column for each column to be written, all of them as long as the number of
/// rows, and only values that can be written.
pub proof fn lemma_what_a_chunk_is(
    kinds: Seq<WriteKind>,
    chunk: Seq<Vec<Option<Raw>>>,
    rows: nat,
)
    requires
        chunk.len() == kinds.len(),
        forall|c: int| 0 <= c < chunk.len() ==> (#[trigger] chunk[c])@.len() == rows,
        forall|c: int, r: int|
            0 <= c < chunk.len() && 0 <= r < rows ==> (#[trigger] chunk[c]@[r] matches Some(raw)
                ==> kinds[c].accepts(raw@)),
    ensures
        is_chunk(kinds, chunk, rows),
{
}

} // verus!
