//! Writing: binding columns, gathering rows, and what comes back from a file.

use duckdb::ffi;
use duckdb_qvd::convert::{convert, Cell, IntervalVal, QvdSymbol, QvdValue};
use duckdb_qvd::copy::{
    copy_bind, ColumnType, CopyError, CopySink, FieldNames, Raw, Value, WriteKind,
};
use duckdb_qvd::encode::encode;
use duckdb_qvd::files::expand_glob;
use duckdb_qvd::kind::{kind_of_field, FieldHeader, Kind};
use std::io::Cursor;

const DAY: i64 = 86_400_000_000;

fn plain(type_id: u32) -> ColumnType {
    ColumnType { type_id, scale: 0 }
}

fn strings(list: &[&str]) -> Vec<String> {
    list.iter().map(|s| s.to_string()).collect()
}

#[test]
fn type_ids_are_those_of_duckdb() {
    for (tid, kind) in [
        (ffi::DUCKDB_TYPE_DUCKDB_TYPE_BOOLEAN, WriteKind::Bool),
        (ffi::DUCKDB_TYPE_DUCKDB_TYPE_TINYINT, WriteKind::I8),
        (ffi::DUCKDB_TYPE_DUCKDB_TYPE_SMALLINT, WriteKind::I16),
        (ffi::DUCKDB_TYPE_DUCKDB_TYPE_INTEGER, WriteKind::I32),
        (ffi::DUCKDB_TYPE_DUCKDB_TYPE_BIGINT, WriteKind::I64),
        (ffi::DUCKDB_TYPE_DUCKDB_TYPE_FLOAT, WriteKind::F32),
        (ffi::DUCKDB_TYPE_DUCKDB_TYPE_DOUBLE, WriteKind::F64),
        (ffi::DUCKDB_TYPE_DUCKDB_TYPE_VARCHAR, WriteKind::Str),
        (ffi::DUCKDB_TYPE_DUCKDB_TYPE_DATE, WriteKind::Date),
        (ffi::DUCKDB_TYPE_DUCKDB_TYPE_TIMESTAMP, WriteKind::Timestamp),
        (ffi::DUCKDB_TYPE_DUCKDB_TYPE_TIME, WriteKind::Time),
        (ffi::DUCKDB_TYPE_DUCKDB_TYPE_INTERVAL, WriteKind::Interval),
        (ffi::DUCKDB_TYPE_DUCKDB_TYPE_DECIMAL, WriteKind::Decimal(3)),
    ] {
        assert_eq!(WriteKind::from_type_id(tid, 3), Some(kind), "{tid}");
    }
    for tid in [
        ffi::DUCKDB_TYPE_DUCKDB_TYPE_INVALID,
        ffi::DUCKDB_TYPE_DUCKDB_TYPE_HUGEINT,
        ffi::DUCKDB_TYPE_DUCKDB_TYPE_UBIGINT,
        ffi::DUCKDB_TYPE_DUCKDB_TYPE_UTINYINT,
        ffi::DUCKDB_TYPE_DUCKDB_TYPE_BLOB,
        ffi::DUCKDB_TYPE_DUCKDB_TYPE_LIST,
    ] {
        assert_eq!(WriteKind::from_type_id(tid, 0), None, "{tid}");
    }
    assert_eq!(WriteKind::from_type_id(ffi::DUCKDB_TYPE_DUCKDB_TYPE_DECIMAL, 39), None);
}

#[test]
fn tags_of_written_columns() {
    for kind in [WriteKind::Bool, WriteKind::I8, WriteKind::I16, WriteKind::I32, WriteKind::I64] {
        assert_eq!(kind.tags(), ["$numeric", "$integer"]);
    }
    for kind in [WriteKind::F32, WriteKind::F64, WriteKind::Decimal(2)] {
        assert_eq!(kind.tags(), ["$numeric"]);
    }
    assert_eq!(WriteKind::Str.tags(), ["$text"]);
    assert_eq!(WriteKind::Date.tags(), ["$date"]);
    assert_eq!(WriteKind::Timestamp.tags(), ["$timestamp"]);
    assert_eq!(WriteKind::Time.tags(), ["$time"]);
    assert_eq!(WriteKind::Interval.tags(), ["$interval"]);
}

#[test]
fn tags_give_the_kind_back() {
    for (kind, expected) in [
        (WriteKind::Bool, Kind::Int),
        (WriteKind::I64, Kind::Int),
        (WriteKind::F32, Kind::Float),
        (WriteKind::Decimal(5), Kind::Float),
        (WriteKind::Str, Kind::Text),
        (WriteKind::Date, Kind::Date),
        (WriteKind::Timestamp, Kind::Timestamp),
        (WriteKind::Time, Kind::Time),
        (WriteKind::Interval, Kind::Interval),
    ] {
        let field = FieldHeader {
            field_name: "f".to_string(),
            tags: kind.tags(),
            format_type: "UNKNOWN".to_string(),
        };
        assert_eq!(kind_of_field(&field), expected);
    }
}

fn float(v: Value) -> f64 {
    match v {
        Value::Float(bits) => f64::from_bits(bits),
        _ => panic!("not a double"),
    }
}

#[test]
fn values_are_read_by_kind() {
    assert!(matches!(WriteKind::Bool.read(&Raw::U8(0)), Value::Int(0)));
    assert!(matches!(WriteKind::Bool.read(&Raw::U8(2)), Value::Int(1)));
    assert!(matches!(WriteKind::I8.read(&Raw::I8(-128)), Value::Int(-128)));
    assert!(matches!(WriteKind::I16.read(&Raw::I16(-32768)), Value::Int(-32768)));
    assert!(matches!(WriteKind::I32.read(&Raw::I32(i32::MIN)), Value::Int(i32::MIN)));
    assert!(matches!(WriteKind::I64.read(&Raw::I64(2147483647)), Value::Int(2147483647)));
    assert!(matches!(WriteKind::I64.read(&Raw::I64(-2147483648)), Value::Int(i32::MIN)));
    assert_eq!(float(WriteKind::I64.read(&Raw::I64(2147483648))), 2147483648.0);
    assert_eq!(float(WriteKind::I64.read(&Raw::I64(i64::MIN))), i64::MIN as f64);
    assert_eq!(float(WriteKind::F32.read(&Raw::F32(1.1f32.to_bits()))), 1.1f32 as f64);
    assert_eq!(float(WriteKind::F64.read(&Raw::F64(1.1f64.to_bits()))), 1.1);
    assert!(matches!(WriteKind::Date.read(&Raw::I32(8196)), Value::Int(33765)));
    assert!(matches!(WriteKind::Date.read(&Raw::I32(-25569)), Value::Int(0)));
    let us = 1_700_000_000_123_456i64;
    assert_eq!(
        float(WriteKind::Timestamp.read(&Raw::I64(us))),
        us as f64 / 86_400_000_000.0 + 25569.0
    );
    for us in [i64::MIN, i64::MAX, -1, 0, 9007199254740993] {
        assert_eq!(
            float(WriteKind::Timestamp.read(&Raw::I64(us))),
            us as f64 / 86_400_000_000.0 + 25569.0
        );
    }
    assert_eq!(float(WriteKind::Time.read(&Raw::I64(DAY / 4))), 0.25);
    assert_eq!(float(WriteKind::Time.read(&Raw::I64(1))), 1.0 / 86_400_000_000.0);
    let span = IntervalVal { months: 2, days: 3, micros: DAY / 2 };
    assert_eq!(float(WriteKind::Interval.read(&Raw::Interval(span))), 63.5);
    let back = IntervalVal { months: -1, days: 0, micros: 0 };
    assert_eq!(float(WriteKind::Interval.read(&Raw::Interval(back))), -30.0);
}

#[test]
fn decimals_of_all_widths_become_doubles() {
    let kind = WriteKind::Decimal(2);
    assert_eq!(float(kind.read(&Raw::I16(-125))), -1.25);
    assert_eq!(float(kind.read(&Raw::I32(110))), 1.1);
    assert_eq!(float(kind.read(&Raw::I64(12345678901))), 123456789.01);
    assert_eq!(float(kind.read(&Raw::I128(0))), 0.0);
    assert_eq!(float(WriteKind::Decimal(0).read(&Raw::I128(i128::MIN))), i128::MIN as f64);
    assert_eq!(float(WriteKind::Decimal(38).read(&Raw::I128(1))), 1e-38);
}

#[test]
fn texts_keep_their_utf8() {
    let text = "é€ 漢字 🦆";
    match WriteKind::Str.read(&Raw::Bytes(text.as_bytes().to_vec())) {
        Value::Str(s) => assert_eq!(s, text),
        _ => panic!(),
    }
    match WriteKind::Str.read(&Raw::Bytes(vec![0x61, 0xFF, 0x62])) {
        Value::Str(s) => assert_eq!(s, "a\u{FFFD}b"),
        _ => panic!(),
    }
}

#[test]
fn names_are_numbered_by_default() {
    let types: Vec<ColumnType> = (0..12).map(|_| plain(5)).collect();
    let bind = copy_bind(&types, FieldNames::Absent).unwrap();
    assert_eq!(bind.names[0], "field0");
    assert_eq!(bind.names[9], "field9");
    assert_eq!(bind.names[11], "field11");
    assert_eq!(bind.kinds, vec![WriteKind::I64; 12]);
}

#[test]
fn names_can_be_given() {
    let types = vec![plain(4), plain(17)];
    let bind = copy_bind(&types, FieldNames::List(strings(&["id", "nom"]))).unwrap();
    assert_eq!(bind.names, ["id", "nom"]);
    assert_eq!(bind.kinds, [WriteKind::I32, WriteKind::Str]);
    let one = copy_bind(&vec![plain(13)], FieldNames::Single("jour".to_string())).unwrap();
    assert_eq!(one.names, ["jour"]);
}

#[test]
fn the_number_of_names_must_be_that_of_the_columns() {
    let types = vec![plain(4), plain(17)];
    let e = copy_bind(&types, FieldNames::List(strings(&["id"]))).unwrap_err();
    assert_eq!(e, CopyError::NameCount { names: 1, columns: 2 });
    assert_eq!(e.message(), "FIELD_NAMES : 1 nom(s) pour 2 colonne(s)");
    let e = copy_bind(&types, FieldNames::Single("id".to_string())).unwrap_err();
    assert_eq!(e, CopyError::NameCount { names: 1, columns: 2 });
    let e = copy_bind(&types, FieldNames::List(vec![])).unwrap_err();
    assert_eq!(e, CopyError::NameCount { names: 0, columns: 2 });
}

#[test]
fn the_first_type_that_cannot_be_written_is_an_error() {
    let types = vec![plain(4), plain(16), plain(9)];
    let e = copy_bind(&types, FieldNames::List(strings(&["too", "few"]))).unwrap_err();
    assert_eq!(e, CopyError::UnsupportedType(16));
    assert_eq!(
        e.message(),
        "read_qvd/COPY : type de colonne non supporté (id 16) en écriture ; \
         CAST vers BIGINT/DOUBLE/VARCHAR/DATE/TIMESTAMP"
    );
}

#[test]
fn matching_files_are_sorted() {
    let found = strings(&["b.qvd", "a.qvd", "a10.qvd", "a2.qvd", "é.qvd", "Z.qvd", "a.qvd"]);
    let turned = found.iter().rev().cloned().collect();
    let sorted = ["Z.qvd", "a.qvd", "a.qvd", "a10.qvd", "a2.qvd", "b.qvd", "é.qvd"];
    assert_eq!(expand_glob("*.qvd", found).unwrap(), sorted);
    assert_eq!(expand_glob("*.qvd", turned).unwrap(), sorted);
}

#[test]
fn a_pattern_without_a_match_is_an_error() {
    assert_eq!(
        expand_glob("data/*.qvd", vec![]).unwrap_err(),
        "aucun fichier ne correspond au motif 'data/*.qvd'"
    );
}

#[test]
fn rows_are_gathered_in_order() {
    let types = vec![plain(4), plain(17)];
    let bind = copy_bind(&types, FieldNames::List(strings(&["id", "nom"]))).unwrap();
    let mut sink = CopySink::new(bind);
    sink.sink(&vec![
        vec![Some(Raw::I32(1)), None],
        vec![Some(Raw::Bytes(b"a".to_vec())), Some(Raw::Bytes(b"b".to_vec()))],
    ]);
    sink.sink(&vec![vec![], vec![]]);
    sink.sink(&vec![vec![Some(Raw::I32(3))], vec![None]]);
    let table = sink.finish();
    assert_eq!(table.name, "qvd");
    let fields = table.fields;
    assert_eq!(fields.len(), 2);
    assert_eq!(fields[0].name, "id");
    assert_eq!(fields[1].tags, ["$text"]);
    assert!(matches!(
        fields[0].values[..],
        [Some(Value::Int(1)), None, Some(Value::Int(3))]
    ));
    match &fields[1].values[..] {
        [Some(Value::Str(a)), Some(Value::Str(b)), None] => {
            assert_eq!((&a[..], &b[..]), ("a", "b"))
        }
        _ => panic!(),
    }
}

/// Encodes rows and reads them with the streaming reader, as cells.
fn through_a_file(sink: &CopySink) -> Vec<(String, Vec<Cell>)> {
    let bytes = encode(sink).unwrap().unwrap();
    let mut reader = qvd::QvdStreamReader::open(Cursor::new(bytes)).unwrap();
    let (indices, _, _) = reader.next_chunk_indices(2048).unwrap().unwrap();
    let mut out = Vec::new();
    for (i, f) in reader.header.fields.iter().enumerate() {
        let kind = kind_of_field(&FieldHeader {
            field_name: f.field_name.clone(),
            tags: f.tags.clone(),
            format_type: f.number_format.format_type.clone(),
        });
        let cells = indices[i]
            .iter()
            .map(|&x| {
                if x < 0 {
                    return Cell::Null;
                }
                let symbol = match &reader.symbols[i][x as usize] {
                    qvd::QvdSymbol::Int(n) => QvdSymbol::Int(*n),
                    qvd::QvdSymbol::Double(f) => QvdSymbol::Double(f.to_bits()),
                    qvd::QvdSymbol::Text(t) => QvdSymbol::Text(t.clone()),
                    _ => panic!("nothing writes duals"),
                };
                convert(kind, &QvdValue::Symbol(symbol))
            })
            .collect();
        out.push((f.field_name.clone(), cells));
    }
    out
}

#[test]
fn rows_are_encoded_as_openqvd_does() {
    let types = vec![plain(4), plain(11), plain(17)];
    let names = FieldNames::List(strings(&["n", "x", "<t>"]));
    let mut sink = CopySink::new(copy_bind(&types, names).unwrap());
    sink.sink(&vec![
        vec![Some(Raw::I32(7)), None],
        vec![Some(Raw::F64((-2.5f64).to_bits())), Some(Raw::F64(f64::MAX.to_bits()))],
        vec![None, Some(Raw::Bytes("é".as_bytes().to_vec()))],
    ]);
    let column = |name: &str, cells: Vec<Option<openqvd::Value>>, tags: &[&str]| {
        let mut c = openqvd::Column::new(name, cells);
        c.tags = strings(tags);
        c
    };
    let columns = vec![
        column("n", vec![Some(openqvd::Value::Int(7)), None], &["$numeric", "$integer"]),
        column(
            "x",
            vec![Some(openqvd::Value::Float(-2.5)), Some(openqvd::Value::Float(f64::MAX))],
            &["$numeric"],
        ),
        column("<t>", vec![None, Some(openqvd::Value::Str("é".to_string()))], &["$text"]),
    ];
    let expected = openqvd::WriteTable::new("qvd", columns).unwrap().to_bytes().unwrap();
    assert_eq!(encode(&sink).unwrap().unwrap(), expected);
}

#[test]
fn each_value_is_stored_once() {
    let types = vec![plain(4), plain(17), plain(11)];
    let mut sink = CopySink::new(copy_bind(&types, FieldNames::Absent).unwrap());
    let text = |s: &str| Some(Raw::Bytes(s.as_bytes().to_vec()));
    sink.sink(&vec![
        vec![Some(Raw::I32(7)), Some(Raw::I32(7)), None, Some(Raw::I32(8))],
        vec![text("é"), text("a"), text("é"), text("é")],
        (0..4).map(|_| Some(Raw::F64(0.5f64.to_bits()))).collect(),
    ]);
    let bytes = encode(&sink).unwrap().unwrap();
    let header = bytes.iter().position(|&b| b == 0).unwrap();
    // Two numbers of 5 bytes, texts of 4 and 3 bytes, a double of 9 bytes; then four rows of
    // one byte, for indices of 2, 1 and 0 bits.
    assert_eq!(bytes.len() - header - 1, 10 + 7 + 9 + 4);
    // A column with one value takes no room in the rows.
    let mut long = CopySink::new(copy_bind(&vec![plain(17)], FieldNames::Absent).unwrap());
    long.sink(&vec![(0..3000).map(|_| text("always the same")).collect()]);
    let bytes = encode(&long).unwrap().unwrap();
    let header = bytes.iter().position(|&b| b == 0).unwrap();
    assert_eq!(bytes.len() - header - 1, 17);
}

#[test]
fn a_text_with_the_character_0_cannot_be_stored() {
    let bind = copy_bind(&vec![plain(17)], FieldNames::Absent).unwrap();
    let mut sink = CopySink::new(bind);
    sink.sink(&vec![vec![Some(Raw::Bytes(b"a\0b".to_vec()))]]);
    assert!(encode(&sink).unwrap().unwrap_err().contains("NUL"));
}

#[test]
fn a_table_without_columns_or_rows_can_be_encoded() {
    let none = CopySink::new(copy_bind(&vec![], FieldNames::Absent).unwrap());
    assert!(encode(&none).unwrap().is_ok());
    let empty = CopySink::new(copy_bind(&vec![plain(5)], FieldNames::Absent).unwrap());
    let bytes = encode(&empty).unwrap().unwrap();
    let reader = qvd::QvdStreamReader::open(Cursor::new(bytes)).unwrap();
    assert_eq!(reader.header.no_of_records, 0);
    assert_eq!(reader.header.fields[0].field_name, "field0");
}

fn write(type_id: u32, scale: u8, rows: Vec<Option<Raw>>) -> Vec<Cell> {
    let types = vec![ColumnType { type_id, scale }];
    let bind = copy_bind(&types, FieldNames::Absent).unwrap();
    let mut sink = CopySink::new(bind);
    sink.sink(&vec![rows]);
    let mut out = through_a_file(&sink);
    assert_eq!(out[0].0, "field0");
    out.remove(0).1
}

fn i64s(cells: Vec<Cell>) -> Vec<Option<i64>> {
    cells
        .into_iter()
        .map(|c| match c {
            Cell::I64(x) => Some(x),
            Cell::Null => None,
            _ => panic!(),
        })
        .collect()
}

#[test]
fn integers_come_back() {
    let bools = write(1, 0, vec![Some(Raw::U8(1)), None, Some(Raw::U8(0))]);
    assert_eq!(i64s(bools), [Some(1), None, Some(0)]);
    assert_eq!(i64s(write(2, 0, vec![Some(Raw::I8(-5))])), [Some(-5)]);
    assert_eq!(i64s(write(3, 0, vec![Some(Raw::I16(-500))])), [Some(-500)]);
    assert_eq!(i64s(write(4, 0, vec![None, Some(Raw::I32(i32::MAX))])), [None, Some(2147483647)]);
    let big = [0, -1, i32::MIN as i64 - 1, 1 << 53, -(1 << 53), i64::MIN, i64::MAX, 3 << 60];
    let rows = big.iter().map(|&x| Some(Raw::I64(x))).collect();
    let expected: Vec<Option<i64>> = big.iter().map(|&x| Some(x)).collect();
    assert_eq!(i64s(write(5, 0, rows)), expected);
    // The first whole number that no double holds is rounded.
    let odd = (1i64 << 53) + 1;
    assert_eq!(i64s(write(5, 0, vec![Some(Raw::I64(odd))])), [Some(1 << 53)]);
}

#[test]
fn floats_decimals_and_texts_come_back() {
    let cells = write(11, 0, vec![Some(Raw::F64((-0.1f64).to_bits())), None]);
    assert!(matches!(cells[0], Cell::F64(b) if b == (-0.1f64).to_bits()));
    assert!(matches!(cells[1], Cell::Null));
    let cells = write(10, 0, vec![Some(Raw::F32(0.1f32.to_bits()))]);
    assert!(matches!(cells[0], Cell::F64(b) if b == (0.1f32 as f64).to_bits()));
    let cells = write(19, 3, vec![Some(Raw::I64(1234567))]);
    assert!(matches!(cells[0], Cell::F64(b) if b == 1234.567f64.to_bits()));
    let text = |bytes: &[u8]| Some(Raw::Bytes(bytes.to_vec()));
    let cells = write(17, 0, vec![text("déjà".as_bytes()), None, text(&[0xE9])]);
    assert!(matches!(&cells[0], Cell::Str(s) if s == "déjà"));
    assert!(matches!(cells[1], Cell::Null));
    assert!(matches!(&cells[2], Cell::Str(s) if s == "\u{FFFD}"));
}

#[test]
fn dates_come_back() {
    let days = [0, 8196, -25569, -25570, i32::MIN, i32::MAX - 25569];
    let rows = days.iter().map(|&d| Some(Raw::I32(d))).collect();
    for (cell, day) in write(13, 0, rows).iter().zip(days) {
        assert!(matches!(cell, Cell::I32(x) if *x == day), "{day}");
    }
}

#[test]
fn times_come_back() {
    let mut times: Vec<i64> = (0..1500).map(|i| (i * 57_637_189_123i64) % DAY).collect();
    times.push(DAY - 1);
    times.push(0);
    let rows = times.iter().map(|&t| Some(Raw::I64(t))).collect();
    let expected: Vec<Option<i64>> = times.iter().map(|&t| Some(t)).collect();
    assert_eq!(i64s(write(14, 0, rows)), expected);
    // 24:00:00 comes back as midnight.
    assert_eq!(i64s(write(14, 0, vec![Some(Raw::I64(DAY))])), [Some(0)]);
}

#[test]
fn timestamps_come_back() {
    let back = |us: i64| i64s(write(12, 0, vec![Some(Raw::I64(us))]))[0].unwrap();
    for i in 0..300i64 {
        // Less than 2^50 microseconds from 1970: the same microsecond.
        let us = (i * 7_368_787_123_457) % (1 << 50);
        assert_eq!(back(us), us);
        assert_eq!(back(-us), -us);
        // Midnights: the same microsecond.
        let midnight = (i * 680_123 - 100_000_000) * DAY;
        assert_eq!(back(midnight), midnight);
        // From 1790 until 2079: to within a microsecond.
        let later = (i * 11_368_787_123_457) % (39_967 * DAY);
        assert!((back(later) - later).abs() <= 1, "{later}");
        let earlier = -(i * 18_368_787_123_457) % (65_536 * DAY);
        assert!((back(earlier) - earlier).abs() <= 1, "{earlier}");
        // Any: to within a microsecond and the 2^50th part.
        let any = (i * 30_489_146_912_365_171) ^ i64::MIN;
        let off = (back(any) as i128 - any as i128).abs();
        assert!((off << 50) <= (any as i128).abs() + (1 << 50), "{any}");
    }
    assert_eq!(back(2_376_229_435_946_887), 2_376_229_435_946_888);
    assert_eq!(back(-25_569 * DAY), -25_569 * DAY);
    assert!((back(1 - 65_536 * DAY) + 65_536 * DAY - 1).abs() <= 1);
    assert_eq!(back(i64::MAX), i64::MAX);
}

#[test]
fn intervals_come_back() {
    let back = |x: IntervalVal| match write(15, 0, vec![Some(Raw::Interval(x))])[0] {
        Cell::Interval(y) => (y.months, y.days, y.micros),
        _ => panic!(),
    };
    let span = |months, days, micros| IntervalVal { months, days, micros };
    for i in 0..300 {
        let days = i * 218;
        let micros = (i as i64 * 77_637_189_123) % DAY;
        assert_eq!(back(span(0, days, micros)), (0, days, micros));
        assert_eq!(back(span(0, -days, -micros)), (0, -days, -micros));
    }
    // A month counts as 30 days, and the rest is brought into days.
    assert_eq!(back(span(14, 1, 0)), (0, 421, 0));
    assert_eq!(back(span(1, -31, DAY + 5)), (0, 0, 5));
    assert_eq!(back(span(0, 1, -1)), (0, 0, DAY - 1));
    // Beyond 65536 days the microseconds are rounded.
    assert_eq!(back(span(0, 65536, 2)), (0, 65536, 3));
}

#[test]
fn long_intervals_come_back_closely() {
    let length = |x: IntervalVal| {
        (x.months as i128 * 30 + x.days as i128) * DAY as i128 + x.micros as i128
    };
    let back = |x: IntervalVal| match write(15, 0, vec![Some(Raw::Interval(x))])[0] {
        Cell::Interval(y) => y,
        _ => panic!(),
    };
    for i in 0..300i64 {
        let x = IntervalVal {
            months: (i * 453_211) as i32 % 40_000_000 - 20_000_000,
            days: (i * 3_968_787) as i32,
            micros: (i - 150) * 30_489_146_912_365_171,
        };
        let off = (length(back(x)) - length(x)).abs();
        assert!((off << 53) <= length(x).abs() + (1 << 53), "{x:?}");
    }
    for days in [i32::MIN, 1 - i32::MAX, i32::MAX] {
        let y = back(IntervalVal { months: 0, days, micros: 0 });
        assert_eq!((y.months, y.days, y.micros), (0, days, 0));
    }
    // A second is a part of a day that no double holds exactly.
    let y = back(IntervalVal { months: 0, days: 2_000_000_000, micros: 1_000_000 });
    assert_eq!((y.days, y.micros), (2_000_000_000, 1_009_369));
    // Days that 32 bits do not hold are cut off.
    let y = back(IntervalVal { months: i32::MAX, days: 0, micros: 0 });
    assert_eq!((y.months, y.days, y.micros), (0, i32::MAX, 0));
}
