//! Columns of cells as the buffers that DuckDB takes.

use vstd::prelude::*;
use crate::convert::converted;
use crate::convert::{Cell, CellValue, IntervalVal, QvdValue};
use crate::kind::{texts, Kind};
use crate::scan::{cell_values, Pull, PullValue};

verus! {

/// The values of a column, in the layout of its DuckDB type. Doubles are held as their
/// bits.
#[derive(Clone, Debug)]
pub enum Buffer {
    I64(Vec<i64>),
    F64(Vec<u64>),
    I32(Vec<i32>),
    Interval(Vec<IntervalVal>),
    Text(Vec<String>),
}

/// A column to be written: its values, and which rows are `NULL`. The value of such a
/// row is zero or empty.
#[derive(Clone, Debug)]
pub struct WrittenColumn {
    pub data: Buffer,
    pub nulls: Vec<bool>,
}

/// A batch of rows to be written: its columns, and how many rows it has. A batch of a
/// scan without columns has rows all the same.
#[derive(Clone, Debug)]
pub struct OutputChunk {
    pub columns: Vec<WrittenColumn>,
    pub len: usize,
}

/// The values in a buffer.
pub enum BufferValue {
    I64(Seq<i64>),
    F64(Seq<u64>),
    I32(Seq<i32>),
    Interval(Seq<IntervalVal>),
    Text(Seq<Seq<char>>),
}

impl View for Buffer {
    type V = BufferValue;

    open spec fn view(&self) -> BufferValue {
        match self {
            Buffer::I64(x) => BufferValue::I64(x@),
            Buffer::F64(x) => BufferValue::F64(x@),
            Buffer::I32(x) => BufferValue::I32(x@),
            Buffer::Interval(x) => BufferValue::Interval(x@),
            Buffer::Text(x) => BufferValue::Text(texts(x@)),
        }
    }
}

/// The whole number in a cell, or 0.
pub open spec fn stored_i64(c: CellValue) -> i64 {
    match c {
        CellValue::I64(x) => x,
        _ => 0,
    }
}

/// The double in a cell, or 0.
pub open spec fn stored_f64(c: CellValue) -> u64 {
    match c {
        CellValue::F64(x) => x,
        _ => 0,
    }
}

/// The days in a cell, or 0.
pub open spec fn stored_i32(c: CellValue) -> i32 {
    match c {
        CellValue::I32(x) => x,
        _ => 0,
    }
}

/// The duration in a cell, or none.
pub open spec fn stored_interval(c: CellValue) -> IntervalVal {
    match c {
        CellValue::Interval(x) => x,
        _ => IntervalVal { months: 0, days: 0, micros: 0 },
    }
}

/// The text in a cell, or none.
pub open spec fn stored_text(c: CellValue) -> Seq<char> {
    match c {
        CellValue::Str(x) => x,
        _ => Seq::empty(),
    }
}

/// The values of a column of the given kind.
pub open spec fn stored(kind: Kind, cells: Seq<CellValue>) -> BufferValue {
    match kind {
        Kind::Text => BufferValue::Text(cells.map_values(|c: CellValue| stored_text(c))),
        Kind::Float => BufferValue::F64(cells.map_values(|c: CellValue| stored_f64(c))),
        Kind::Date => BufferValue::I32(cells.map_values(|c: CellValue| stored_i32(c))),
        Kind::Interval => BufferValue::Interval(
            cells.map_values(|c: CellValue| stored_interval(c)),
        ),
        _ => BufferValue::I64(cells.map_values(|c: CellValue| stored_i64(c))),
    }
}

/// Whether a cell holds a value of the given kind.
pub open spec fn is_of(kind: Kind, c: CellValue) -> bool {
    match kind {
        Kind::Text => c is Str,
        Kind::Float => c is F64,
        Kind::Date => c is I32,
        Kind::Interval => c is Interval,
        _ => c is I64,
    }
}

/// The rows of `read_qvd` that are `NULL`: in a text column those without a text, in any
/// other those with an empty cell.
pub open spec fn table_null(kind: Kind, c: CellValue) -> bool {
    if kind == Kind::Text {
        !(c is Str)
    } else {
        c is Null
    }
}

/// How many rows a batch has.
pub open spec fn rows_of(pull: PullValue) -> int {
    match pull {
        PullValue::Rows(n) => n,
        PullValue::Cells(columns) => if columns.len() == 0 {
            0
        } else {
            columns[0].len() as int
        },
        PullValue::Done => 0,
    }
}

/// How many columns of a batch are written.
pub open spec fn width_of(kinds: Seq<Kind>, pull: PullValue) -> nat {
    if pull is Cells {
        kinds.len()
    } else {
        0
    }
}

/// Which cells are empty.
pub fn set_nulls(cells: &Vec<Cell>) -> (r: Vec<bool>)
    ensures
        r@ == cell_values(cells@).map_values(|c: CellValue| c is Null),
{
    let mut r: Vec<bool> = Vec::new();
    let mut i: usize = 0;
    while i < cells.len()
        invariant
            i <= cells@.len(),
            r@.len() == i,
            forall|k: int| 0 <= k < i ==> #[trigger] r@[k] == (cells@[k]@ is Null),
        decreases cells@.len() - i,
    {
        r.push(
            match &cells[i] {
                Cell::Null => true,
                _ => false,
            },
        );
        i = i + 1;
    }
    assert(r@ =~= cell_values(cells@).map_values(|c: CellValue| c is Null));
    r
}

/// Which cells do not hold a value of the given kind.
fn set_mismatches(kind: Kind, cells: &Vec<Cell>) -> (r: Vec<bool>)
    ensures
        r@ == cell_values(cells@).map_values(|c: CellValue| !is_of(kind, c)),
{
    let mut r: Vec<bool> = Vec::new();
    let mut i: usize = 0;
    while i < cells.len()
        invariant
            i <= cells@.len(),
            r@.len() == i,
            forall|k: int| 0 <= k < i ==> #[trigger] r@[k] == !is_of(kind, cells@[k]@),
        decreases cells@.len() - i,
    {
        r.push(
            match (kind, &cells[i]) {
                (Kind::Text, Cell::Str(_)) => false,
                (Kind::Float, Cell::F64(_)) => false,
                (Kind::Date, Cell::I32(_)) => false,
                (Kind::Interval, Cell::Interval(_)) => false,
                (Kind::Int, Cell::I64(_)) => false,
                (Kind::Timestamp, Cell::I64(_)) => false,
                (Kind::Time, Cell::I64(_)) => false,
                _ => true,
            },
        );
        i = i + 1;
    }
    assert(r@ =~= cell_values(cells@).map_values(|c: CellValue| !is_of(kind, c)));
    r
}

/// The whole numbers of a column.
fn fill_i64(cells: &Vec<Cell>) -> (r: Vec<i64>)
    ensures
        r@ == cell_values(cells@).map_values(|c: CellValue| stored_i64(c)),
{
    let mut r: Vec<i64> = Vec::new();
    let mut i: usize = 0;
    while i < cells.len()
        invariant
            i <= cells@.len(),
            r@.len() == i,
            forall|k: int| 0 <= k < i ==> #[trigger] r@[k] == stored_i64(cells@[k]@),
        decreases cells@.len() - i,
    {
        r.push(
            match &cells[i] {
                Cell::I64(x) => *x,
                _ => 0,
            },
        );
        i = i + 1;
    }
    assert(r@ =~= cell_values(cells@).map_values(|c: CellValue| stored_i64(c)));
    r
}

/// The doubles of a column.
fn fill_f64(cells: &Vec<Cell>) -> (r: Vec<u64>)
    ensures
        r@ == cell_values(cells@).map_values(|c: CellValue| stored_f64(c)),
{
    let mut r: Vec<u64> = Vec::new();
    let mut i: usize = 0;
    while i < cells.len()
        invariant
            i <= cells@.len(),
            r@.len() == i,
            forall|k: int| 0 <= k < i ==> #[trigger] r@[k] == stored_f64(cells@[k]@),
        decreases cells@.len() - i,
    {
        r.push(
            match &cells[i] {
                Cell::F64(x) => *x,
                _ => 0,
            },
        );
        i = i + 1;
    }
    assert(r@ =~= cell_values(cells@).map_values(|c: CellValue| stored_f64(c)));
    r
}

/// The days of a column.
fn fill_i32(cells: &Vec<Cell>) -> (r: Vec<i32>)
    ensures
        r@ == cell_values(cells@).map_values(|c: CellValue| stored_i32(c)),
{
    let mut r: Vec<i32> = Vec::new();
    let mut i: usize = 0;
    while i < cells.len()
        invariant
            i <= cells@.len(),
            r@.len() == i,
            forall|k: int| 0 <= k < i ==> #[trigger] r@[k] == stored_i32(cells@[k]@),
        decreases cells@.len() - i,
    {
        r.push(
            match &cells[i] {
                Cell::I32(x) => *x,
                _ => 0,
            },
        );
        i = i + 1;
    }
    assert(r@ =~= cell_values(cells@).map_values(|c: CellValue| stored_i32(c)));
    r
}

/// The durations of a column.
fn fill_interval(cells: &Vec<Cell>) -> (r: Vec<IntervalVal>)
    ensures
        r@ == cell_values(cells@).map_values(|c: CellValue| stored_interval(c)),
{
    let mut r: Vec<IntervalVal> = Vec::new();
    let mut i: usize = 0;
    while i < cells.len()
        invariant
            i <= cells@.len(),
            r@.len() == i,
            forall|k: int| 0 <= k < i ==> #[trigger] r@[k] == stored_interval(cells@[k]@),
        decreases cells@.len() - i,
    {
        r.push(
            match &cells[i] {
                Cell::Interval(x) => *x,
                _ => IntervalVal { months: 0, days: 0, micros: 0 },
            },
        );
        i = i + 1;
    }
    assert(r@ =~= cell_values(cells@).map_values(|c: CellValue| stored_interval(c)));
    r
}

/// The texts of a column.
fn fill_text(cells: &Vec<Cell>) -> (r: Vec<String>)
    ensures
        texts(r@) == cell_values(cells@).map_values(|c: CellValue| stored_text(c)),
{
    let mut r: Vec<String> = Vec::new();
    let mut i: usize = 0;
    while i < cells.len()
        invariant
            i <= cells@.len(),
            r@.len() == i,
            forall|k: int| 0 <= k < i ==> (#[trigger] r@[k])@ == stored_text(cells@[k]@),
        decreases cells@.len() - i,
    {
        let text: String = match &cells[i] {
            Cell::Str(s) => s.clone(),
            _ => String::new(),
        };
        r.push(text);
        i = i + 1;
    }
    assert(texts(r@) =~= cell_values(cells@).map_values(|c: CellValue| stored_text(c)));
    r
}

/// The values of a column of the given kind.
fn fill(kind: Kind, cells: &Vec<Cell>) -> (r: Buffer)
    ensures
        r@ == stored(kind, cell_values(cells@)),
{
    match kind {
        Kind::Text => Buffer::Text(fill_text(cells)),
        Kind::Float => Buffer::F64(fill_f64(cells)),
        Kind::Date => Buffer::I32(fill_i32(cells)),
        Kind::Interval => Buffer::Interval(fill_interval(cells)),
        Kind::Int => Buffer::I64(fill_i64(cells)),
        Kind::Timestamp => Buffer::I64(fill_i64(cells)),
        Kind::Time => Buffer::I64(fill_i64(cells)),
    }
}

/// A column of `read_qvd`, ready to be written.
pub fn write_column(kind: Kind, cells: &Vec<Cell>) -> (r: WrittenColumn)
    ensures
        r.data@ == stored(kind, cell_values(cells@)),
        r.nulls@ == cell_values(cells@).map_values(|c: CellValue| table_null(kind, c)),
{
    let data: Buffer = fill(kind, cells);
    let nulls: Vec<bool> = match kind {
        Kind::Text => set_mismatches(kind, cells),
        _ => set_nulls(cells),
    };
    assert(nulls@ =~= cell_values(cells@).map_values(|c: CellValue| table_null(kind, c)));
    WrittenColumn { data, nulls }
}

/// A column of `COPY ... FROM`, ready to be written: whatever is not of its kind is
/// `NULL`.
pub fn write_col_raw(kind: Kind, cells: &Vec<Cell>) -> (r: WrittenColumn)
    ensures
        r.data@ == stored(kind, cell_values(cells@)),
        r.nulls@ == cell_values(cells@).map_values(|c: CellValue| !is_of(kind, c)),
{
    let data: Buffer = fill(kind, cells);
    let nulls: Vec<bool> = set_mismatches(kind, cells);
    WrittenColumn { data, nulls }
}

/// How many rows a batch has.
fn batch_len(pull: &Pull) -> (r: usize)
    ensures
        r == rows_of(pull@),
{
    match pull {
        Pull::Rows(n) => *n,
        Pull::Cells { columns } => if columns.len() == 0 {
            0
        } else {
            columns[0].len()
        },
        Pull::Done => 0,
    }
}

/// A batch of `read_qvd`, ready to be written.
pub fn table_chunk(kinds: &Vec<Kind>, pull: &Pull) -> (r: OutputChunk)
    requires
        pull@ matches PullValue::Cells(columns) ==> kinds@.len() <= columns.len(),
    ensures
        r.len == rows_of(pull@),
        r.columns@.len() == width_of(kinds@, pull@),
        forall|j: int|
            0 <= j < r.columns@.len() ==> {
                let cells = (pull@->Cells_0)[j];
                &&& (#[trigger] r.columns@[j]).data@ == stored(kinds@[j], cells)
                &&& r.columns@[j].nulls@ == cells.map_values(
                    |c: CellValue| table_null(kinds@[j], c),
                )
            },
{
    let len: usize = batch_len(pull);
    let mut written: Vec<WrittenColumn> = Vec::new();
    match pull {
        Pull::Cells { columns } => {
            let mut j: usize = 0;
            while j < kinds.len()
                invariant
                    j <= kinds@.len() <= columns@.len(),
                    written@.len() == j,
                    forall|i: int|
                        0 <= i < j ==> {
                            let cells = cell_values(columns@[i]@);
                            &&& (#[trigger] written@[i]).data@ == stored(kinds@[i], cells)
                            &&& written@[i].nulls@ == cells.map_values(
                                |c: CellValue| table_null(kinds@[i], c),
                            )
                        },
                decreases kinds@.len() - j,
            {
                let column: WrittenColumn = write_column(kinds[j], &columns[j]);
                written.push(column);
                j = j + 1;
            }
        },
        _ => {},
    }
    OutputChunk { columns: written, len }
}

/// A batch of `COPY ... FROM`, ready to be written.
pub fn import_chunk(kinds: &Vec<Kind>, pull: &Pull) -> (r: OutputChunk)
    requires
        pull@ matches PullValue::Cells(columns) ==> kinds@.len() <= columns.len(),
    ensures
        r.len == rows_of(pull@),
        r.columns@.len() == width_of(kinds@, pull@),
        forall|j: int|
            0 <= j < r.columns@.len() ==> {
                let cells = (pull@->Cells_0)[j];
                &&& (#[trigger] r.columns@[j]).data@ == stored(kinds@[j], cells)
                &&& r.columns@[j].nulls@ == cells.map_values(|c: CellValue| !is_of(kinds@[j], c))
            },
{
    let len: usize = batch_len(pull);
    let mut written: Vec<WrittenColumn> = Vec::new();
    match pull {
        Pull::Cells { columns } => {
            let mut j: usize = 0;
            while j < kinds.len()
                invariant
                    j <= kinds@.len() <= columns@.len(),
                    written@.len() == j,
                    forall|i: int|
                        0 <= i < j ==> {
                            let cells = cell_values(columns@[i]@);
                            &&& (#[trigger] written@[i]).data@ == stored(kinds@[i], cells)
                            &&& written@[i].nulls@ == cells.map_values(
                                |c: CellValue| !is_of(kinds@[i], c),
                            )
                        },
                decreases kinds@.len() - j,
            {
                let column: WrittenColumn = write_col_raw(kinds[j], &columns[j]);
                written.push(column);
                j = j + 1;
            }
        },
        _ => {},
    }
    OutputChunk { columns: written, len }
}

/// A converted value is of the kind it was converted for, or `NULL`.
pub proof fn lemma_converted_is_of_its_kind(kind: Kind, v: QvdValue)
    ensures
        converted(kind, v) is Null || is_of(kind, converted(kind, v)),
{
}

/// `COPY ... FROM` and `read_qvd` write the same rows as `NULL`: on converted values they
/// do not differ.
pub proof fn lemma_both_writers_agree(kind: Kind, v: QvdValue)
    ensures
        table_null(kind, converted(kind, v)) == !is_of(kind, converted(kind, v)),
        table_null(kind, converted(kind, v)) == (converted(kind, v) is Null),
{
}

/// The buffer that is handed to DuckDB holds in every row the very value of the cell: in a
/// column of whole numbers, timestamps or times its whole number, and likewise its double,
/// day, duration or text in the others. A row without a value of its column's kind holds
/// zero or nothing.
pub proof fn lemma_buffers_hold_the_values(kind: Kind, cells: Seq<CellValue>, r: int)
    requires
        0 <= r < cells.len(),
    ensures
        kind is Int || kind is Timestamp || kind is Time ==> (stored(
            kind,
            cells,
        ) matches BufferValue::I64(data) && data.len() == cells.len() && match cells[r] {
            CellValue::I64(x) => data[r] == x,
            _ => data[r] == 0,
        }),
        kind is Float ==> (stored(kind, cells) matches BufferValue::F64(data) && data.len()
            == cells.len() && match cells[r] {
            CellValue::F64(x) => data[r] == x,
            _ => data[r] == 0,
        }),
        kind is Date ==> (stored(kind, cells) matches BufferValue::I32(data) && data.len()
            == cells.len() && match cells[r] {
            CellValue::I32(x) => data[r] == x,
            _ => data[r] == 0,
        }),
        kind is Interval ==> (stored(kind, cells) matches BufferValue::Interval(data) && data.len()
            == cells.len() && match cells[r] {
            CellValue::Interval(x) => data[r] == x,
            _ => data[r].months == 0 && data[r].days == 0 && data[r].micros == 0,
        }),
        kind is Text ==> (stored(kind, cells) matches BufferValue::Text(data) && data.len()
            == cells.len() && match cells[r] {
            CellValue::Str(x) => data[r] == x,
            _ => data[r].len() == 0,
        }),
{
}

/// From two columns whose buffers and `NULL`s agree the same cells were written: no value
/// and no `NULL` is lost on the way to DuckDB.
pub proof fn lemma_nothing_is_lost(kind: Kind, a: Seq<CellValue>, b: Seq<CellValue>, r: int)
    requires
        a.len() == b.len(),
        0 <= r < a.len(),
        a[r] is Null || is_of(kind, a[r]),
        b[r] is Null || is_of(kind, b[r]),
        stored(kind, a) == stored(kind, b),
        table_null(kind, a[r]) == table_null(kind, b[r]),
    ensures
        a[r] == b[r],
{
    lemma_buffers_hold_the_values(kind, a, r);
    lemma_buffers_hold_the_values(kind, b, r);
}

/// Which cells are of a kind, and which are `NULL`, for either way of reading: in a text
/// column of `read_qvd` every cell but a text is `NULL`, in its other columns only an empty
/// one; in `COPY ... FROM` every cell that is not of its column's kind.
pub proof fn lemma_what_is_null(kind: Kind, c: CellValue)
    ensures
        is_of(kind, c) <==> match c {
            CellValue::I64(_) => kind is Int || kind is Timestamp || kind is Time,
            CellValue::F64(_) => kind is Float,
            CellValue::Str(_) => kind is Text,
            CellValue::I32(_) => kind is Date,
            CellValue::Interval(_) => kind is Interval,
            CellValue::Null => false,
        },
        kind is Text ==> (table_null(kind, c) <==> !(c is Str)),
        !(kind is Text) ==> (table_null(kind, c) <==> c is Null),
{
}

/// A batch of columns has as many rows as each of its columns and is written with all of
/// them; a batch that only counts has the rows that it counts and no columns; the end has
/// neither.
pub proof fn lemma_rows_and_columns_of_a_batch(kinds: Seq<Kind>, pull: PullValue)
    ensures
        pull is Done ==> rows_of(pull) == 0 && width_of(kinds, pull) == 0,
        pull matches PullValue::Rows(n) ==> rows_of(pull) == n && width_of(kinds, pull) == 0,
        pull matches PullValue::Cells(columns) ==> width_of(kinds, pull) == kinds.len() && forall|
            j: int,
        |
            0 <= j < columns.len() && (forall|i: int|
                0 <= i < columns.len() ==> (#[trigger] columns[i]).len() == columns[j].len())
                ==> rows_of(pull) == #[trigger] columns[j].len(),
        pull matches PullValue::Cells(columns) && columns.len() == 0 ==> rows_of(pull) == 0,
{
    if let PullValue::Cells(columns) = pull {
        assert forall|j: int|
            0 <= j < columns.len() && (forall|i: int|
                0 <= i < columns.len() ==> (#[trigger] columns[i]).len()
                    == columns[j].len()) implies rows_of(pull) == #[trigger] columns[j].len() by {
            assert(columns[0].len() == columns[j].len());
        }
    }
}

/// What a buffer holds is what is in it.
pub proof fn lemma_view_of_a_buffer(buffer: Buffer)
    ensures
        match buffer {
            Buffer::I64(x) => buffer@ == BufferValue::I64(x@),
            Buffer::F64(x) => buffer@ == BufferValue::F64(x@),
            Buffer::I32(x) => buffer@ == BufferValue::I32(x@),
            Buffer::Interval(x) => buffer@ == BufferValue::Interval(x@),
            Buffer::Text(x) => buffer@ matches BufferValue::Text(data) && data.len() == x@.len()
                && forall|i: int| 0 <= i < data.len() ==> #[trigger] data[i] == x@[i]@,
        },
{
}

} // verus!
