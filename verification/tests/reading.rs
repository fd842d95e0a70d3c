//! Reading QVD files that were written with OpenQVD, through the streaming reader.

use duckdb_qvd::convert::{Cell, IntervalVal, QvdSymbol};
use duckdb_qvd::kind::{read_schema, FieldHeader, Kind, LogicalTypeId, Schema};
use duckdb_qvd::scan::{pick, Action, Event, Pull, QvdScan};
use openqvd::{Column, Value, WriteTable};
use std::collections::BTreeMap;
use std::io::Cursor;

type Reader = qvd::QvdStreamReader<Cursor<Vec<u8>>>;

/// Files by their names.
type Files = BTreeMap<String, Vec<u8>>;

/// A column with its Qlik tags.
fn tagged(name: &str, values: Vec<Option<Value>>, tags: &[&str]) -> Column {
    let mut c = Column::new(name, values);
    c.tags = tags.iter().map(|t| t.to_string()).collect();
    c
}

fn write_file(files: &mut Files, name: &str, cols: Vec<Column>) -> String {
    let bytes = WriteTable::new("demo", cols).unwrap().to_bytes().unwrap();
    files.insert(name.to_string(), bytes);
    name.to_string()
}

fn open(files: &Files, path: &str) -> Reader {
    Reader::open(Cursor::new(files[path].clone())).unwrap()
}

fn symbol(s: &qvd::QvdSymbol) -> QvdSymbol {
    match s {
        qvd::QvdSymbol::Int(n) => QvdSymbol::Int(*n),
        qvd::QvdSymbol::Double(f) => QvdSymbol::Double(f.to_bits()),
        qvd::QvdSymbol::Text(t) => QvdSymbol::Text(t.clone()),
        qvd::QvdSymbol::DualInt(n, t) => QvdSymbol::DualInt(*n, t.clone()),
        qvd::QvdSymbol::DualDouble(f, t) => QvdSymbol::DualDouble(f.to_bits(), t.clone()),
    }
}

fn schema_of(files: &Files, path: &str) -> Schema {
    let reader = open(files, path);
    let fields = reader
        .header
        .fields
        .iter()
        .map(|f| FieldHeader {
            field_name: f.field_name.clone(),
            tags: f.tags.clone(),
            format_type: f.number_format.format_type.clone(),
        })
        .collect();
    read_schema(&fields)
}

/// An open file, and the field of each column of the scan.
struct Opened {
    reader: Reader,
    fields: Vec<Option<usize>>,
}

/// Carries out the actions of a scan until it hands out a batch.
fn pull(scan: &mut QvdScan, files: &Files, current: &mut Option<Opened>) -> Pull {
    let mut event = Event::Pull;
    loop {
        event = match scan.step(event) {
            Action::Emit(pull) => return pull,
            Action::Open(path) => {
                let reader = open(files, &path);
                let names = reader.header.fields.iter().map(|f| f.field_name.clone()).collect();
                *current = Some(Opened { reader, fields: Vec::new() });
                Event::Opened { names }
            }
            Action::Load(fields) => {
                let opened = current.as_mut().unwrap();
                let symbols = fields
                    .iter()
                    .map(|f| match f {
                        Some(i) => opened.reader.symbols[*i].iter().map(symbol).collect(),
                        None => Vec::new(),
                    })
                    .collect();
                opened.fields = fields;
                Event::Loaded { symbols }
            }
            Action::Read(size) => {
                let opened = current.as_mut().unwrap();
                let next = opened.reader.next_chunk_indices(size).unwrap();
                let fields = &opened.fields;
                Event::Chunk { next: next.map(|(columns, rows, _)| (pick(&columns, fields), rows)) }
            }
        };
    }
}

/// A typed column of values.
enum TestCol {
    I64(Vec<Option<i64>>),
    F64(Vec<Option<f64>>),
    Utf8(Vec<Option<String>>),
    Date(Vec<Option<i32>>),
    Time(Vec<Option<i64>>),
    Interval(Vec<Option<IntervalVal>>),
}

impl TestCol {
    fn empty(k: Kind) -> Self {
        match k {
            Kind::Int => TestCol::I64(Vec::new()),
            Kind::Float => TestCol::F64(Vec::new()),
            Kind::Text => TestCol::Utf8(Vec::new()),
            Kind::Date => TestCol::Date(Vec::new()),
            Kind::Timestamp | Kind::Time => TestCol::Time(Vec::new()),
            Kind::Interval => TestCol::Interval(Vec::new()),
        }
    }

    fn push(&mut self, c: Cell) {
        match (self, c) {
            (TestCol::I64(v), Cell::I64(x)) => v.push(Some(x)),
            (TestCol::I64(v), Cell::Null) => v.push(None),
            (TestCol::F64(v), Cell::F64(x)) => v.push(Some(f64::from_bits(x))),
            (TestCol::F64(v), Cell::Null) => v.push(None),
            (TestCol::Utf8(v), Cell::Str(s)) => v.push(Some(s)),
            (TestCol::Utf8(v), Cell::Null) => v.push(None),
            (TestCol::Date(v), Cell::I32(x)) => v.push(Some(x)),
            (TestCol::Date(v), Cell::Null) => v.push(None),
            (TestCol::Time(v), Cell::I64(x)) => v.push(Some(x)),
            (TestCol::Time(v), Cell::Null) => v.push(None),
            (TestCol::Interval(v), Cell::Interval(x)) => v.push(Some(x)),
            (TestCol::Interval(v), Cell::Null) => v.push(None),
            _ => unreachable!("Cell incohérent avec le Kind de la colonne"),
        }
    }
}

fn scan_of(files: &Files, paths: &[String], schema: &Schema, indices: &[usize]) -> QvdScan {
    let records: Vec<usize> =
        paths.iter().map(|p| open(files, p).header.no_of_records).collect();
    QvdScan::new(&paths.to_vec(), &schema.names, &schema.kinds, &indices.to_vec(), &records)
}

/// Drains a scan into typed columns.
fn collect(
    files: &Files,
    paths: &[String],
    schema: &Schema,
    indices: &[usize],
) -> (Vec<TestCol>, usize) {
    let mut scan = scan_of(files, paths, schema, indices);
    let out_kinds: Vec<Kind> = scan.output_kinds().clone();
    let mut cols: Vec<TestCol> = out_kinds.iter().map(|&k| TestCol::empty(k)).collect();
    let mut total = 0usize;
    let mut reader = None;
    loop {
        match pull(&mut scan, files, &mut reader) {
            Pull::Done => break,
            Pull::Rows(n) => total += n,
            Pull::Cells { columns } => {
                total += columns.first().map_or(0, |c| c.len());
                for (j, col) in cols.iter_mut().enumerate() {
                    for cell in columns[j].iter() {
                        col.push(cell.clone());
                    }
                }
            }
        }
    }
    (cols, total)
}

/// Reads the schema and all columns.
fn read_all(files: &Files, path: &str) -> (Vec<String>, Vec<LogicalTypeId>, Vec<TestCol>, usize) {
    let s = schema_of(files, path);
    let indices: Vec<usize> = (0..s.names.len()).collect();
    let (cols, n) = collect(files, &[path.to_string()], &s, &indices);
    (s.names, s.type_ids, cols, n)
}

#[test]
fn read_qvd_infers_types_and_values() {
    // Serials 45000, 45001, 45002 are the days 19431, 19432, 19433.
    let cols = vec![
        tagged(
            "id",
            vec![Some(Value::Int(1)), Some(Value::Int(2)), Some(Value::Int(3))],
            &["$integer"],
        ),
        tagged(
            "price",
            vec![Some(Value::Float(1.5)), Some(Value::Float(2.0)), Some(Value::Float(3.25))],
            &["$numeric"],
        ),
        tagged(
            "name",
            vec![
                Some(Value::Str("a".into())),
                Some(Value::Str("b".into())),
                Some(Value::Str("a".into())),
            ],
            &["$text"],
        ),
        tagged("qty", vec![Some(Value::Int(10)), None, Some(Value::Int(30))], &["$integer"]),
        tagged(
            "day",
            vec![Some(Value::Int(45000)), Some(Value::Int(45001)), Some(Value::Int(45002))],
            &["$date", "$timestamp"],
        ),
    ];
    let mut files = Files::new();
    let path = write_file(&mut files, "qvdrs_read_test.qvd", cols);
    let (names, type_ids, columns, num_rows) = read_all(&files, &path);

    assert_eq!(num_rows, 3);
    assert_eq!(names, ["id", "price", "name", "qty", "day"]);
    assert!(matches!(type_ids[0], LogicalTypeId::Bigint));
    assert!(matches!(type_ids[1], LogicalTypeId::Double));
    assert!(matches!(type_ids[2], LogicalTypeId::Varchar));
    assert!(matches!(type_ids[3], LogicalTypeId::Bigint));
    assert!(matches!(type_ids[4], LogicalTypeId::Date));

    match &columns[0] {
        TestCol::I64(v) => assert_eq!(v, &[Some(1), Some(2), Some(3)]),
        _ => panic!("id devrait être I64"),
    }
    match &columns[1] {
        TestCol::F64(v) => assert_eq!(v, &[Some(1.5), Some(2.0), Some(3.25)]),
        _ => panic!("price devrait être F64"),
    }
    match &columns[2] {
        TestCol::Utf8(v) => {
            assert_eq!(v, &[Some("a".to_string()), Some("b".to_string()), Some("a".to_string())])
        }
        _ => panic!("name devrait être Utf8"),
    }
    match &columns[3] {
        TestCol::I64(v) => assert_eq!(v, &[Some(10), None, Some(30)]),
        _ => panic!("qty devrait être I64"),
    }
    match &columns[4] {
        TestCol::Date(v) => assert_eq!(v, &[Some(19431), Some(19432), Some(19433)]),
        _ => panic!("day devrait être Date"),
    }
}

#[test]
fn projection_reads_only_requested_columns() {
    let cols = vec![
        tagged("a", vec![Some(Value::Int(1)), Some(Value::Int(2))], &["$integer"]),
        tagged("b", vec![Some(Value::Float(9.5)), Some(Value::Float(8.5))], &["$numeric"]),
        tagged(
            "c",
            vec![Some(Value::Str("x".into())), Some(Value::Str("y".into()))],
            &["$text"],
        ),
    ];
    let mut files = Files::new();
    let path = write_file(&mut files, "qvdrs_projection_test.qvd", cols);

    let s = schema_of(&files, &path);
    assert_eq!(s.names, ["a", "b", "c"]);

    // c, then a; b is left out.
    let (columns, num_rows) = collect(&files, &[path], &s, &[2, 0]);
    assert_eq!(num_rows, 2);
    assert_eq!(columns.len(), 2);
    match &columns[0] {
        TestCol::Utf8(v) => assert_eq!(v, &[Some("x".to_string()), Some("y".to_string())]),
        _ => panic!("position 0 devrait être c (VARCHAR)"),
    }
    match &columns[1] {
        TestCol::I64(v) => assert_eq!(v, &[Some(1), Some(2)]),
        _ => panic!("position 1 devrait être a (BIGINT)"),
    }
}

#[test]
fn a_column_can_be_asked_for_twice() {
    let cols = vec![tagged("a", vec![Some(Value::Int(1)), None], &["$integer"])];
    let mut files = Files::new();
    let path = write_file(&mut files, "twice.qvd", cols);
    let s = schema_of(&files, &path);
    let (columns, num_rows) = collect(&files, &[path], &s, &[0, 0]);
    assert_eq!((columns.len(), num_rows), (2, 2));
    for column in &columns {
        assert!(matches!(column, TestCol::I64(v) if v == &[Some(1), None]));
    }
}

#[test]
fn multi_file_concatenates_rows() {
    let f1 = vec![
        tagged("id", vec![Some(Value::Int(1)), Some(Value::Int(2))], &["$integer"]),
        tagged(
            "name",
            vec![Some(Value::Str("a".into())), Some(Value::Str("b".into()))],
            &["$text"],
        ),
    ];
    // The second file has its columns the other way round.
    let f2 = vec![
        tagged("name", vec![Some(Value::Str("c".into()))], &["$text"]),
        tagged("id", vec![Some(Value::Int(3))], &["$integer"]),
    ];
    let mut files = Files::new();
    let p1 = write_file(&mut files, "qvdrs_multi_1.qvd", f1);
    let p2 = write_file(&mut files, "qvdrs_multi_2.qvd", f2);

    let s = schema_of(&files, &p1);
    let indices: Vec<usize> = (0..s.names.len()).collect();
    let (columns, n) = collect(&files, &[p1, p2], &s, &indices);

    assert_eq!(n, 3);
    match &columns[0] {
        TestCol::I64(v) => assert_eq!(v, &[Some(1), Some(2), Some(3)]),
        _ => panic!("id devrait être I64"),
    }
    match &columns[1] {
        TestCol::Utf8(v) => {
            assert_eq!(v, &[Some("a".to_string()), Some("b".to_string()), Some("c".to_string())])
        }
        _ => panic!("name devrait être Utf8"),
    }
}

#[test]
fn read_qvd_maps_time_and_interval() {
    let cols = vec![
        tagged("t", vec![Some(Value::Float(0.5)), Some(Value::Float(0.25))], &["$time"]),
        tagged("dur", vec![Some(Value::Float(1.5)), Some(Value::Float(2.0))], &["$interval"]),
    ];
    let mut files = Files::new();
    let path = write_file(&mut files, "qvdrs_time_interval.qvd", cols);
    let (_, type_ids, columns, _) = read_all(&files, &path);

    assert!(matches!(type_ids[0], LogicalTypeId::Time));
    assert!(matches!(type_ids[1], LogicalTypeId::Interval));

    match &columns[0] {
        TestCol::Time(v) => {
            assert_eq!(v, &[Some(12 * 3_600_000_000), Some(6 * 3_600_000_000)])
        }
        _ => panic!("t devrait être Time"),
    }
    match &columns[1] {
        TestCol::Interval(v) => {
            let a = v[0].unwrap();
            assert_eq!((a.months, a.days, a.micros), (0, 1, 12 * 3_600_000_000));
            let b = v[1].unwrap();
            assert_eq!((b.months, b.days, b.micros), (0, 2, 0));
        }
        _ => panic!("dur devrait être Interval"),
    }
}

#[test]
fn a_field_that_a_file_lacks_is_null() {
    let f1 = vec![
        tagged("id", vec![Some(Value::Int(1))], &["$integer"]),
        tagged("name", vec![Some(Value::Str("a".into()))], &["$text"]),
    ];
    let f2 = vec![tagged("id", vec![Some(Value::Int(2)), Some(Value::Int(3))], &["$integer"])];
    let mut files = Files::new();
    let p1 = write_file(&mut files, "full.qvd", f1);
    let p2 = write_file(&mut files, "short.qvd", f2);
    let s = schema_of(&files, &p1);
    let (columns, n) = collect(&files, &[p1, p2], &s, &[1, 0]);
    assert_eq!(n, 3);
    match &columns[0] {
        TestCol::Utf8(v) => assert_eq!(v, &[Some("a".to_string()), None, None]),
        _ => panic!(),
    }
    match &columns[1] {
        TestCol::I64(v) => assert_eq!(v, &[Some(1), Some(2), Some(3)]),
        _ => panic!(),
    }
}

#[test]
fn a_long_file_comes_in_batches() {
    let values: Vec<Option<Value>> = (0..5000).map(|i| Some(Value::Int(i % 700))).collect();
    let mut files = Files::new();
    let path = write_file(&mut files, "long.qvd", vec![tagged("n", values, &["$integer"])]);
    let empty = write_file(&mut files, "empty.qvd", vec![tagged("n", vec![], &["$integer"])]);
    let s = schema_of(&files, &path);
    let mut scan = scan_of(&files, &[path.clone(), empty, path.clone()], &s, &[0]);
    let mut reader = None;
    let mut lens = Vec::new();
    let mut all = Vec::new();
    loop {
        match pull(&mut scan, &files, &mut reader) {
            Pull::Cells { columns } => {
                lens.push(columns[0].len());
                for c in columns[0].iter() {
                    match c {
                        Cell::I64(x) => all.push(*x),
                        _ => panic!(),
                    }
                }
            }
            Pull::Done => break,
            Pull::Rows(_) => panic!(),
        }
    }
    assert_eq!(lens, [2048, 2048, 904, 2048, 2048, 904]);
    let expected: Vec<i64> = (0..5000i64).chain(0..5000).map(|i| i % 700).collect();
    assert_eq!(all, expected);
    // Once drained, a scan stays drained.
    assert!(matches!(pull(&mut scan, &files, &mut reader), Pull::Done));
}

#[test]
fn counting_opens_no_file() {
    let names = vec!["a".to_string()];
    let kinds = vec![Kind::Int];
    let paths = vec!["nowhere.qvd".to_string(), "nowhere else.qvd".to_string()];
    let mut scan = QvdScan::new(&paths, &names, &kinds, &vec![], &vec![5000, 3]);
    let mut counts = Vec::new();
    loop {
        match scan.step(Event::Pull) {
            Action::Emit(Pull::Rows(n)) => counts.push(n),
            Action::Emit(Pull::Done) => break,
            _ => panic!(),
        }
    }
    assert_eq!(counts, [2048, 2048, 907]);
    assert!(matches!(scan.step(Event::Pull), Action::Emit(Pull::Done)));
}

#[test]
fn a_scan_of_no_files_is_done() {
    let names = vec!["a".to_string()];
    let kinds = vec![Kind::Int];
    let mut scan = QvdScan::new(&vec![], &names, &kinds, &vec![0], &vec![]);
    assert!(matches!(scan.step(Event::Pull), Action::Emit(Pull::Done)));
}

#[test]
fn only_the_columns_of_the_scan_are_loaded() {
    let names = vec!["a".to_string(), "b".to_string(), "c".to_string()];
    let kinds = vec![Kind::Int, Kind::Int, Kind::Text];
    let mut scan =
        QvdScan::new(&vec!["f".to_string()], &names, &kinds, &vec![2, 0, 1], &vec![4]);
    assert!(matches!(scan.step(Event::Pull), Action::Open(_)));
    let fields = ["x", "a", "y", "z", "c"].iter().map(|s| s.to_string()).collect();
    assert!(matches!(
        scan.step(Event::Opened { names: fields }),
        Action::Load(fields) if fields == [Some(4), Some(1), None]
    ));
}

#[test]
fn the_fields_of_the_columns_are_picked() {
    let columns = vec![vec![1, 2], vec![3, -2], vec![5, 6]];
    let fields = vec![Some(2), None, Some(1), Some(2)];
    assert_eq!(pick(&columns, &fields), [vec![5, 6], vec![], vec![3, -2], vec![5, 6]]);
    assert!(pick(&columns, &vec![]).is_empty());
}

#[test]
fn the_first_field_of_a_name_counts() {
    let names = vec!["x".to_string()];
    let kinds = vec![Kind::Int];
    let mut scan =
        QvdScan::new(&vec!["f".to_string()], &names, &kinds, &vec![0], &vec![4]);
    assert!(matches!(scan.step(Event::Pull), Action::Open(p) if p == "f"));
    let opened =
        Event::Opened { names: vec!["y".to_string(), "x".to_string(), "x".to_string()] };
    assert!(matches!(scan.step(opened), Action::Load(fields) if fields == [Some(1)]));
    // Asked again, it still waits for the symbols.
    assert!(matches!(scan.step(Event::Pull), Action::Load(fields) if fields == [Some(1)]));
    let loaded = Event::Loaded {
        symbols: vec![vec![QvdSymbol::Int(8), QvdSymbol::Text("no number".to_string())]],
    };
    assert!(matches!(scan.step(loaded), Action::Read(2048)));
    let chunk = Event::Chunk { next: Some((vec![vec![0, 1, 2, -2]], 4)) };
    match scan.step(chunk) {
        Action::Emit(Pull::Cells { columns }) => {
            assert_eq!(columns.len(), 1);
            assert!(matches!(columns[0][0], Cell::I64(8)));
            // A text that is no number, an index beyond the table, and a negative one.
            assert!(matches!(columns[0][1], Cell::Null));
            assert!(matches!(columns[0][2], Cell::Null));
            assert!(matches!(columns[0][3], Cell::Null));
        }
        _ => panic!(),
    }
    assert!(matches!(scan.step(Event::Pull), Action::Read(2048)));
    assert!(matches!(
        scan.step(Event::Chunk { next: None }),
        Action::Emit(Pull::Done)
    ));
}
