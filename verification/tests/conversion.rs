//! Converting single values, and the kinds of fields.

use duckdb_qvd::column::{import_chunk, set_nulls, table_chunk, write_col_raw, write_column, Buffer};
use duckdb_qvd::convert::{
    convert, serial_to_days, serial_to_interval, serial_to_micros, serial_to_time_micros,
    val_to_f64, val_to_i64, val_to_string, Cell, IntervalVal, QvdSymbol, QvdValue,
};
use duckdb_qvd::kind::{kind_of_field, read_schema, FieldHeader, Kind, LogicalTypeId};
use duckdb_qvd::scan::Pull;
use duckdb_qvd::text::{integer_text, parse_double, parse_i64};

fn whole(n: i32) -> QvdValue {
    QvdValue::Symbol(QvdSymbol::Int(n))
}

fn double(x: f64) -> QvdValue {
    QvdValue::Symbol(QvdSymbol::Double(x.to_bits()))
}

fn text(s: &str) -> QvdValue {
    QvdValue::Symbol(QvdSymbol::Text(s.to_string()))
}

fn dual_int(n: i32, s: &str) -> QvdValue {
    QvdValue::Symbol(QvdSymbol::DualInt(n, s.to_string()))
}

fn dual_double(x: f64, s: &str) -> QvdValue {
    QvdValue::Symbol(QvdSymbol::DualDouble(x.to_bits(), s.to_string()))
}

fn field(tags: &[&str], format_type: &str) -> FieldHeader {
    FieldHeader {
        field_name: "f".to_string(),
        tags: tags.iter().map(|t| t.to_string()).collect(),
        format_type: format_type.to_string(),
    }
}

#[test]
fn tags_decide_the_kind() {
    assert_eq!(kind_of_field(&field(&["$date", "$timestamp"], "UNKNOWN")), Kind::Date);
    assert_eq!(kind_of_field(&field(&["$timestamp", "$date"], "UNKNOWN")), Kind::Date);
    assert_eq!(kind_of_field(&field(&["$numeric", "$timestamp"], "")), Kind::Timestamp);
    assert_eq!(kind_of_field(&field(&["$time", "$numeric"], "")), Kind::Time);
    assert_eq!(kind_of_field(&field(&["$interval"], "")), Kind::Interval);
    assert_eq!(kind_of_field(&field(&["$text"], "INTEGER")), Kind::Text);
    assert_eq!(kind_of_field(&field(&["$ascii", "$integer"], "")), Kind::Text);
    assert_eq!(kind_of_field(&field(&["$numeric", "$integer"], "REAL")), Kind::Int);
    assert_eq!(kind_of_field(&field(&["$numeric"], "DATE")), Kind::Float);
    assert_eq!(kind_of_field(&field(&["$Date"], "")), Kind::Text);
}

#[test]
fn the_type_element_decides_without_tags() {
    for (format_type, kind) in [
        ("INTEGER", Kind::Int),
        ("REAL", Kind::Float),
        ("FIX", Kind::Float),
        ("MONEY", Kind::Float),
        ("DATE", Kind::Date),
        ("TIME", Kind::Time),
        ("TIMESTAMP", Kind::Timestamp),
        ("INTERVAL", Kind::Interval),
        ("UNKNOWN", Kind::Text),
        ("", Kind::Text),
    ] {
        assert_eq!(kind_of_field(&field(&[], format_type)), kind, "{format_type}");
        assert_eq!(kind_of_field(&field(&["$key"], format_type)), kind, "{format_type}");
    }
}

#[test]
fn a_schema_follows_its_fields() {
    let mut fields = vec![field(&["$integer"], ""), field(&[], "REAL"), field(&["$time"], "")];
    fields[1].field_name = "g".to_string();
    let s = read_schema(&fields);
    assert_eq!(s.names, ["f", "g", "f"]);
    assert_eq!(s.kinds, [Kind::Int, Kind::Float, Kind::Time]);
    assert_eq!(s.type_ids, [LogicalTypeId::Bigint, LogicalTypeId::Double, LogicalTypeId::Time]);
    assert_eq!(Kind::Text.type_id(), LogicalTypeId::Varchar);
    assert_eq!(Kind::Date.type_id(), LogicalTypeId::Date);
    assert_eq!(Kind::Timestamp.type_id(), LogicalTypeId::Timestamp);
    assert_eq!(Kind::Interval.type_id(), LogicalTypeId::Interval);
}

#[test]
fn whole_numbers_of_values() {
    assert_eq!(val_to_i64(&whole(-7)), Some(-7));
    assert_eq!(val_to_i64(&dual_int(8, "huit")), Some(8));
    assert_eq!(val_to_i64(&double(-2.9)), Some(-2));
    assert_eq!(val_to_i64(&dual_double(1e30, "x")), Some(i64::MAX));
    assert_eq!(val_to_i64(&double(f64::NAN)), Some(0));
    assert_eq!(val_to_i64(&text(" \t+42\u{a0}")), Some(42));
    assert_eq!(val_to_i64(&text("-9223372036854775808")), Some(i64::MIN));
    assert_eq!(val_to_i64(&text("9223372036854775808")), None);
    assert_eq!(val_to_i64(&text("1.5")), None);
    assert_eq!(val_to_i64(&text("")), None);
    assert_eq!(val_to_i64(&QvdValue::Null), None);
}

#[test]
fn doubles_of_values() {
    assert_eq!(val_to_f64(&whole(-7)), Some((-7.0f64).to_bits()));
    assert_eq!(val_to_f64(&dual_int(8, "huit")), Some(8.0f64.to_bits()));
    assert_eq!(val_to_f64(&double(-0.0)), Some((-0.0f64).to_bits()));
    assert_eq!(val_to_f64(&dual_double(0.1, "x")), Some(0.1f64.to_bits()));
    assert_eq!(val_to_f64(&text(" 1e3 ")), Some(1000.0f64.to_bits()));
    assert_eq!(val_to_f64(&text("\u{2003}-.5\n")), Some((-0.5f64).to_bits()));
    assert_eq!(val_to_f64(&text("un")), None);
    assert_eq!(val_to_f64(&QvdValue::Null), None);
}

#[test]
fn texts_of_values() {
    assert_eq!(val_to_string(&whole(i32::MIN)), Some("-2147483648".to_string()));
    assert_eq!(val_to_string(&whole(0)), Some("0".to_string()));
    assert_eq!(val_to_string(&double(1.5)), Some("1.5".to_string()));
    assert_eq!(val_to_string(&text(" é ")), Some(" é ".to_string()));
    assert_eq!(val_to_string(&dual_int(3, "mars")), Some("mars".to_string()));
    assert_eq!(val_to_string(&dual_double(0.5, "12:00")), Some("12:00".to_string()));
    assert_eq!(val_to_string(&QvdValue::Null), None);
}

#[test]
fn serial_33765_is_the_10th_of_june_1992() {
    // 1992-06-10 is day 8196 after 1970-01-01.
    assert_eq!(serial_to_days(&whole(33765)), Some(8196));
    assert_eq!(serial_to_days(&double(33765.4)), Some(8196));
    assert_eq!(serial_to_days(&double(33764.5)), Some(8196));
    assert_eq!(serial_to_days(&text("33765")), Some(8196));
    assert_eq!(serial_to_days(&text("x")), None);
    assert_eq!(serial_to_days(&double(1e20)), Some(i32::MAX));
    assert_eq!(serial_to_micros(&whole(33765)), Some(8196 * 86_400_000_000));
    assert_eq!(serial_to_micros(&double(25569.5)), Some(43_200_000_000));
    assert_eq!(serial_to_micros(&QvdValue::Null), None);
    assert_eq!(serial_to_time_micros(&double(-0.25)), Some(64_800_000_000));
    assert_eq!(serial_to_time_micros(&double(45000.75)), Some(64_800_000_000));
    assert_eq!(
        serial_to_interval(&double(-1.5)),
        Some(IntervalVal { months: 0, days: -1, micros: -43_200_000_000 })
    );
    assert_eq!(serial_to_interval(&QvdValue::Null), None);
}

#[test]
fn conversion_follows_the_kind() {
    let v = dual_int(25570, "le 2");
    assert!(matches!(convert(Kind::Int, &v), Cell::I64(25570)));
    assert!(matches!(convert(Kind::Float, &v), Cell::F64(b) if b == 25570.0f64.to_bits()));
    assert!(matches!(convert(Kind::Text, &v), Cell::Str(s) if s == "le 2"));
    assert!(matches!(convert(Kind::Date, &v), Cell::I32(1)));
    assert!(matches!(convert(Kind::Timestamp, &v), Cell::I64(86_400_000_000)));
    assert!(matches!(convert(Kind::Time, &v), Cell::I64(0)));
    assert!(matches!(
        convert(Kind::Interval, &v),
        Cell::Interval(IntervalVal { months: 0, days: 25570, micros: 0 })
    ));
    for kind in [
        Kind::Int,
        Kind::Float,
        Kind::Text,
        Kind::Date,
        Kind::Timestamp,
        Kind::Time,
        Kind::Interval,
    ] {
        assert!(matches!(convert(kind, &QvdValue::Null), Cell::Null));
        if kind != Kind::Text {
            assert!(matches!(convert(kind, &text("abc")), Cell::Null));
        }
    }
}

#[test]
fn numbers_in_texts() {
    let whole_numbers =
        ["0", "-0", "+0", "007", "-12", "123456789012345678901", "", "-", "+", "1 ", "é", "1_0"];
    for s in whole_numbers {
        assert_eq!(parse_i64(s), s.parse::<i64>().ok(), "{s}");
    }
    let doubles = [
        "0", "-0", "1e400", "nan", "inf", "-Infinity", ".5", "5.", "1e-5", "", ".", "0x10", "1,5",
    ];
    for s in doubles {
        let native = s.parse::<f64>().ok().map(|x| x.to_bits());
        assert_eq!(parse_double(s), native, "{s}");
    }
    for n in [0, 9, 10, -1, 1234567890, i64::MIN, i64::MAX] {
        assert_eq!(integer_text(n), n.to_string());
        assert_eq!(parse_i64(&integer_text(n)), Some(n));
    }
}

#[test]
fn columns_are_written_by_kind() {
    let cells = vec![Cell::I64(5), Cell::Null, Cell::Str("x".to_string())];
    let table = write_column(Kind::Int, &cells);
    assert!(matches!(table.data, Buffer::I64(v) if v == [5, 0, 0]));
    assert_eq!(table.nulls, [false, true, false]);
    let raw = write_col_raw(Kind::Int, &cells);
    assert!(matches!(raw.data, Buffer::I64(v) if v == [5, 0, 0]));
    assert_eq!(raw.nulls, [false, true, true]);
    let texts = write_column(Kind::Text, &cells);
    assert!(matches!(texts.data, Buffer::Text(v) if v == ["", "", "x"]));
    assert_eq!(texts.nulls, [true, true, false]);
    assert_eq!(set_nulls(&cells), [false, true, false]);

    let bits = 1.5f64.to_bits();
    let floats = write_col_raw(Kind::Float, &vec![Cell::F64(bits), Cell::Null]);
    assert!(matches!(floats.data, Buffer::F64(v) if v == [bits, 0]));
    let days = write_column(Kind::Date, &vec![Cell::I32(-3), Cell::Null]);
    assert!(matches!(days.data, Buffer::I32(v) if v == [-3, 0]));
    assert_eq!(days.nulls, [false, true]);
    let some = IntervalVal { months: 0, days: 1, micros: 2 };
    let none = IntervalVal { months: 0, days: 0, micros: 0 };
    let spans = write_col_raw(Kind::Interval, &vec![Cell::Null, Cell::Interval(some)]);
    assert!(matches!(spans.data, Buffer::Interval(v) if v == [none, some]));
    assert_eq!(spans.nulls, [true, false]);
    for kind in [Kind::Timestamp, Kind::Time] {
        let micros = write_column(kind, &vec![Cell::I64(7)]);
        assert!(matches!(micros.data, Buffer::I64(v) if v == [7]));
    }
}

#[test]
fn both_writers_agree_on_converted_values() {
    let values =
        [whole(3), double(0.25), text("12"), text("abc"), dual_int(1, "un"), QvdValue::Null];
    for kind in [
        Kind::Int,
        Kind::Float,
        Kind::Text,
        Kind::Date,
        Kind::Timestamp,
        Kind::Time,
        Kind::Interval,
    ] {
        let cells: Vec<Cell> = values.iter().map(|v| convert(kind, v)).collect();
        let expected: Vec<bool> = cells.iter().map(|c| matches!(c, Cell::Null)).collect();
        assert_eq!(write_column(kind, &cells).nulls, expected);
        assert_eq!(write_col_raw(kind, &cells).nulls, expected);
    }
}

#[test]
fn batches_are_written_column_by_column() {
    let pull = Pull::Cells {
        columns: vec![
            vec![Cell::I64(1), Cell::Null],
            vec![Cell::Str("a".to_string()), Cell::Str("b".to_string())],
        ],
    };
    let kinds = vec![Kind::Int, Kind::Text];
    for chunk in [table_chunk(&kinds, &pull), import_chunk(&kinds, &pull)] {
        assert_eq!(chunk.len, 2);
        assert_eq!(chunk.columns.len(), 2);
        assert_eq!(chunk.columns[0].nulls, [false, true]);
        assert!(matches!(&chunk.columns[1].data, Buffer::Text(v) if v == &["a", "b"]));
    }
    let counted = table_chunk(&vec![], &Pull::Rows(17));
    assert_eq!((counted.len, counted.columns.len()), (17, 0));
    let done = import_chunk(&kinds, &Pull::Done);
    assert_eq!((done.len, done.columns.len()), (0, 0));
}
