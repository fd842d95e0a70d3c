//! The bytes of the file that holds the rows that were gathered.

use std::collections::HashSet;
use vstd::prelude::*;
use vstd::arithmetic::power2::pow2;
use vstd::arithmetic::power2::lemma_pow2_unfold;
use vstd::hash_set::StringHashSet;
use vstd::utf8::encode_utf8;
use duckdb::arrow::buffer::{Buffer, ScalarBuffer};
use openqvd::{Column, WriteTable};
use crate::copy::stored_cells;
use crate::copy::{CopySink, FieldData, SinkValue, StoredValue, TableData, Value};
use crate::kind::texts;

verus! {

/// What a column that is handed to the writer of the file holds.
pub struct FieldValue {
    pub name: Seq<char>,
    pub tags: Seq<Seq<char>>,
    pub cells: Seq<Option<StoredValue>>,
}

/// What the columns of a table hold.
pub open spec fn field_values(fields: Seq<FieldData>) -> Seq<FieldValue> {
    fields.map_values(
        |f: FieldData|
            FieldValue { name: f.name@, tags: texts(f.tags@), cells: stored_cells(f.values@) },
    )
}

/// The columns that are written for the rows that were gathered.
pub open spec fn gathered_fields(s: SinkValue) -> Seq<FieldValue> {
    Seq::new(
        s.kinds.len(),
        |i: int|
            FieldValue { name: s.names[i], tags: s.kinds[i].tag_texts(), cells: s.columns[i] },
    )
}

/// The distinct values of a column in the order of their first rows: the symbol table
/// that a file holds for it.
pub open spec fn symbols(cells: Seq<Option<StoredValue>>) -> Seq<StoredValue>
    decreases cells.len(),
{
    if cells.len() == 0 {
        Seq::empty()
    } else {
        let before = symbols(cells.drop_last());
        match cells.last() {
            Some(v) => if before.contains(v) {
                before
            } else {
                before.push(v)
            },
            None => before,
        }
    }
}

/// How many bytes a value takes in a symbol table: its type, and the value.
pub open spec fn symbol_size(v: StoredValue) -> int {
    match v {
        StoredValue::Int(_) => 5,
        StoredValue::Float(_) => 9,
        StoredValue::Str(s) => encode_utf8(s).len() as int + 2,
    }
}

/// How many bytes a symbol table takes.
pub open spec fn symbol_bytes(table: Seq<StoredValue>) -> int
    decreases table.len(),
{
    if table.len() == 0 {
        0
    } else {
        symbol_bytes(table.drop_last()) + symbol_size(table.last())
    }
}

/// How many bits a number takes.
pub open spec fn bits_of(n: nat) -> nat
    decreases n,
{
    if n == 0 {
        0
    } else {
        1 + bits_of(n / 2)
    }
}

/// The largest number that a row of a column holds in place of its value: the last index
/// into the symbol table, moved up by two where the column has a `NULL`.
pub open spec fn last_index(cells: Seq<Option<StoredValue>>) -> nat {
    let n = symbols(cells).len();
    let has_null = cells.contains(None);
    if n == 0 {
        if has_null {
            1
        } else {
            0
        }
    } else if has_null {
        n + 1
    } else {
        (n - 1) as nat
    }
}

/// How many bytes the symbol tables of all columns take.
pub open spec fn body_bytes(fields: Seq<FieldValue>) -> int
    decreases fields.len(),
{
    if fields.len() == 0 {
        0
    } else {
        body_bytes(fields.drop_last()) + symbol_bytes(symbols(fields.last().cells))
    }
}

/// How many bits a row takes.
pub open spec fn record_bits(fields: Seq<FieldValue>) -> int
    decreases fields.len(),
{
    if fields.len() == 0 {
        0
    } else {
        record_bits(fields.drop_last()) + bits_of(last_index(fields.last().cells))
    }
}

/// How many rows there are.
pub open spec fn row_count(fields: Seq<FieldValue>) -> int {
    if fields.len() == 0 {
        0
    } else {
        fields[0].cells.len() as int
    }
}

/// How many bytes the rows take, each of them whole bytes.
pub open spec fn row_bytes(fields: Seq<FieldValue>) -> int {
    ((record_bits(fields) + 7) / 8) * row_count(fields)
}

/// Whether 32 bits hold the length of a row in bits, the length of the symbol tables and
/// the length of the rows.
pub open spec fn has_room(fields: Seq<FieldValue>) -> bool {
    &&& record_bits(fields) <= u32::MAX
    &&& body_bytes(fields) <= u32::MAX
    &&& row_bytes(fields) <= u32::MAX
}

/// Whether the lengths that the writer takes for granted fit in 32 bits: the number of
/// rows, each symbol table, and symbol tables and rows together where there is room for both.
pub open spec fn is_measurable(fields: Seq<FieldValue>) -> bool {
    &&& row_count(fields) <= u32::MAX
    &&& forall|i: int|
        0 <= i < fields.len() ==> symbol_bytes(symbols((#[trigger] fields[i]).cells)) <= u32::MAX
    &&& has_room(fields) ==> body_bytes(fields) + row_bytes(fields) <= u32::MAX
}

/// Whether all columns have the same number of rows.
pub open spec fn is_rectangular(fields: Seq<FieldValue>) -> bool {
    forall|i: int|
        0 <= i < fields.len() ==> (#[trigger] fields[i]).cells.len() == fields[0].cells.len()
}

/// Whether a cell holds a text with the character that ends a text in a file.
pub open spec fn has_end_of_text(cell: Option<StoredValue>) -> bool {
    cell matches Some(StoredValue::Str(s)) && s.contains('\0')
}

/// Whether no text in the columns holds the character that ends a text in a file.
pub open spec fn can_be_stored(fields: Seq<FieldValue>) -> bool {
    forall|i: int, r: int|
        0 <= i < fields.len() && 0 <= r < fields[i].cells.len() ==> !has_end_of_text(
            #[trigger] fields[i].cells[r],
        )
}

/// Whether there is a file for the columns.
pub open spec fn is_writable(fields: Seq<FieldValue>) -> bool {
    can_be_stored(fields) && has_room(fields)
}

/// What `WriteTable::to_bytes` of the crate `openqvd` makes of a table: the bytes of a
/// file, or a message.
pub uninterp spec fn openqvd_bytes(name: Seq<char>, fields: Seq<FieldValue>) -> Result<
    Seq<u8>,
    Seq<char>,
>;

/// Calls `WriteTable::new` and `WriteTable::to_bytes` of the crate `openqvd`.
///
/// The bytes are those of a file with the given columns; they are the same for the same
/// columns. A file holds each distinct value of a column once, and for each row as many
/// bits as an index takes. There is no file for a text with the character U+0000, which
/// ends a text in a file, nor where the writer finds a length that 32 bits do not hold.
/// The lengths that it does not look at must fit. `ScalarBuffer` of the crate `arrow`
/// reads bits as a double.
#[verifier::external_body]
fn openqvd_encode(table: &TableData) -> (r: Result<Vec<u8>, String>)
    requires
        is_rectangular(field_values(table.fields@)),
        is_measurable(field_values(table.fields@)),
    ensures
        r is Ok <==> is_writable(field_values(table.fields@)),
        match r {
            Ok(bytes) => openqvd_bytes(table.name@, field_values(table.fields@)) == Ok::<
                Seq<u8>,
                Seq<char>,
            >(bytes@),
            Err(message) => openqvd_bytes(table.name@, field_values(table.fields@)) == Err::<
                Seq<u8>,
                Seq<char>,
            >(message@),
        },
{
    let value = |v: &Value| match v {
        Value::Int(n) => openqvd::Value::Int(*n),
        Value::Float(b) => openqvd::Value::Float(ScalarBuffer::from(Buffer::from(vec![*b]))[0]),
        Value::Str(s) => openqvd::Value::Str(s.clone()),
    };
    let columns = table.fields.iter().map(|f| Column {
        tags: f.tags.clone(),
        ..Column::new(&f.name, f.values.iter().map(|v| v.as_ref().map(value)).collect())
    });
    let written = WriteTable::new(&table.name, columns.collect());
    written.and_then(|t| t.to_bytes()).map_err(|e| e.to_string())
}

/// A symbol table of more rows takes at least as many bytes.
proof fn lemma_symbols_grow(cells: Seq<Option<StoredValue>>, n: int)
    requires
        0 <= n <= cells.len(),
    ensures
        0 <= symbol_bytes(symbols(cells.take(n))) <= symbol_bytes(symbols(cells)),
        symbols(cells).len() <= cells.len(),
    decreases cells.len(),
{
    if cells.len() > 0 {
        let before = symbols(cells.drop_last());
        let m = if n < cells.len() {
            n
        } else {
            n - 1
        };
        lemma_symbols_grow(cells.drop_last(), m);
        assert(cells.drop_last().take(m) =~= cells.take(m));
        if let Some(v) = cells.last() {
            assert(before.push(v).drop_last() =~= before);
        }
    }
    if n == cells.len() {
        assert(cells.take(n) =~= cells);
    }
}

/// How many bits a number takes.
fn count_bits(n: u128) -> (r: u128)
    ensures
        r == bits_of(n as nat),
        r <= n,
    decreases n,
{
    if n == 0 {
        0
    } else {
        1 + count_bits(n / 2)
    }
}

/// How many bytes a value takes in a symbol table.
fn measure_symbol(v: &Value) -> (r: u128)
    ensures
        r == symbol_size(v@),
        2 <= r <= usize::MAX + 2,
{
    match v {
        Value::Int(_) => 5,
        Value::Float(_) => 9,
        Value::Str(s) => s.as_str().as_bytes().len() as u128 + 2,
    }
}

/// The values of a column that have been met.
struct Met {
    ints: HashSet<i32>,
    doubles: HashSet<u64>,
    texts: StringHashSet,
}

impl Met {
    /// Whether a value has been met.
    closed spec fn has(self, v: StoredValue) -> bool {
        match v {
            StoredValue::Int(n) => self.ints@.contains(n),
            StoredValue::Float(f) => self.doubles@.contains(f),
            StoredValue::Str(s) => self.texts@.contains(s),
        }
    }

    /// No value has been met.
    fn new() -> (r: Met)
        ensures
            forall|v: StoredValue| !r.has(v),
    {
        Met { ints: HashSet::new(), doubles: HashSet::new(), texts: StringHashSet::new() }
    }

    /// Notes a value, and tells whether it is new.
    fn note(&mut self, v: &Value) -> (r: bool)
        ensures
            r == !old(self).has(v@),
            forall|w: StoredValue| final(self).has(w) == (old(self).has(w) || w == v@),
    {
        broadcast use vstd::std_specs::hash::group_hash_axioms;

        match v {
            Value::Int(n) => self.ints.insert(*n),
            Value::Float(f) => self.doubles.insert(*f),
            Value::Str(s) => if self.texts.contains(s.as_str()) {
                false
            } else {
                self.texts.insert(s.clone());
                true
            },
        }
    }
}

/// The bytes of the symbol table of a column and the bits of its indices, where 32 bits
/// hold the former.
fn measure_column(cells: &Vec<Option<Value>>) -> (r: Option<(u32, u128)>)
    ensures
        match r {
            Some((bytes, bits)) => {
                &&& bytes == symbol_bytes(symbols(stored_cells(cells@)))
                &&& bits == bits_of(last_index(stored_cells(cells@)))
                &&& bits <= 0x1_0000_0000_0000_0000
            },
            None => symbol_bytes(symbols(stored_cells(cells@))) > u32::MAX,
        },
{
    let ghost all: Seq<Option<StoredValue>> = stored_cells(cells@);
    let mut met: Met = Met::new();
    let mut bytes: u32 = 0;
    let mut count: usize = 0;
    let mut has_null: bool = false;
    let mut i: usize = 0;
    assert(symbols(all.take(0)) =~= Seq::empty());
    while i < cells.len()
        invariant
            i <= cells@.len(),
            all == stored_cells(cells@),
            bytes == symbol_bytes(symbols(all.take(i as int))),
            count == symbols(all.take(i as int)).len(),
            count <= i,
            has_null == all.take(i as int).contains(None),
            forall|v: StoredValue| met.has(v) <==> symbols(all.take(i as int)).contains(v),
        decreases cells@.len() - i,
    {
        let ghost before: Seq<StoredValue> = symbols(all.take(i as int));
        proof {
            assert(all.take(i + 1).drop_last() =~= all.take(i as int));
            assert(all.take(i + 1) =~= all.take(i as int).push(all[i as int]));
            lemma_symbols_grow(all, i + 1);
            lemma_contains_pushed(all.take(i as int), all[i as int], None);
        }
        match &cells[i] {
            Some(v) => {
                proof {
                    assert(before.push(v@).drop_last() =~= before);
                    assert forall|w: StoredValue| before.push(v@).contains(w) == (before.contains(w)
                        || w == v@) by {
                        lemma_contains_pushed(before, v@, w);
                    }
                }
                if met.note(v) {
                    let size: u128 = measure_symbol(v);
                    if size > (u32::MAX - bytes) as u128 {
                        return None;
                    }
                    bytes = bytes + size as u32;
                    count = count + 1;
                }
            },
            None => {
                has_null = true;
            },
        }
        i = i + 1;
    }
    assert(all.take(i as int) =~= all);
    let last: u128 = if count == 0 {
        if has_null {
            1
        } else {
            0
        }
    } else if has_null {
        count as u128 + 1
    } else {
        count as u128 - 1
    };
    Some((bytes, count_bits(last)))
}

/// What a list holds once something was put behind it.
proof fn lemma_contains_pushed<T>(s: Seq<T>, x: T, y: T)
    ensures
        s.push(x).contains(y) == (s.contains(y) || x == y),
{
    if s.contains(y) {
        let i = choose|i: int| 0 <= i < s.len() && s[i] == y;
        assert(s.push(x)[i] == y);
    }
    assert(s.push(x)[s.len() as int] == x);
}

/// Whether the lengths that the writer takes for granted fit in 32 bits.
fn measure(fields: &Vec<FieldData>) -> (r: bool)
    ensures
        r == is_measurable(field_values(fields@)),
{
    let ghost all: Seq<FieldValue> = field_values(fields@);
    let rows: usize = if fields.len() == 0 {
        0
    } else {
        fields[0].values.len()
    };
    assert(rows == row_count(all));
    let mut body: u128 = 0;
    let mut bits: u128 = 0;
    let mut i: usize = 0;
    assert(body_bytes(all.take(0)) == 0 && record_bits(all.take(0)) == 0);
    while i < fields.len()
        invariant
            i <= fields@.len(),
            all == field_values(fields@),
            body == body_bytes(all.take(i as int)),
            body <= i * 0xFFFF_FFFF,
            bits == record_bits(all.take(i as int)),
            bits <= i * 0x1_0000_0000_0000_0000,
            forall|k: int|
                0 <= k < i ==> symbol_bytes(symbols((#[trigger] all[k]).cells)) <= u32::MAX,
        decreases fields@.len() - i,
    {
        proof {
            assert(all.take(i + 1).drop_last() =~= all.take(i as int));
            assert(all.take(i + 1).last() == all[i as int]);
        }
        match measure_column(&fields[i].values) {
            Some((w, b)) => {
                body = body + w as u128;
                bits = bits + b;
            },
            None => {
                assert(symbol_bytes(symbols(all[i as int].cells)) > u32::MAX);
                return false;
            },
        }
        i = i + 1;
    }
    assert(all.take(i as int) =~= all);
    if rows > u32::MAX as usize {
        return false;
    }
    if bits > u32::MAX as u128 || body > u32::MAX as u128 {
        return true;
    }
    let record: u128 = (bits + 7) / 8;
    assert(0 <= record * rows <= 0x2000_0000 * 0xFFFF_FFFF) by (nonlinear_arith)
        requires
            0 <= record <= 0x2000_0000,
            0 <= rows <= 0xFFFF_FFFF,
    ;
    let row_block: u128 = record * rows as u128;
    row_block > u32::MAX as u128 || body + row_block <= u32::MAX as u128
}

/// The bytes of a file with the rows that were gathered, or the message where there can be
/// no such file; `None` where a length that the writer takes for granted does not fit in
/// 32 bits.
pub fn encode(sink: &CopySink) -> (r: Option<Result<Vec<u8>, String>>)
    requires
        sink.wf(),
    ensures
        r is Some <==> is_measurable(gathered_fields(sink@)),
        r matches Some(result) ==> {
            &&& result is Ok <==> is_writable(gathered_fields(sink@))
            &&& openqvd_bytes("qvd"@, gathered_fields(sink@)) == match result {
                Ok(bytes) => Ok::<Seq<u8>, Seq<char>>(bytes@),
                Err(message) => Err::<Seq<u8>, Seq<char>>(message@),
            }
        },
{
    let table: TableData = sink.finish();
    proof {
        sink.lemma_wf();
        assert(field_values(table.fields@) =~= gathered_fields(sink@));
    }
    if measure(&table.fields) {
        Some(openqvd_encode(&table))
    } else {
        None
    }
}

/// The symbol table of a column holds every value of the column, no other, and none twice;
/// rows that are added leave it as it is but for what they add behind it.
pub proof fn lemma_symbols_are_the_distinct_values(
    cells: Seq<Option<StoredValue>>,
    more: Seq<Option<StoredValue>>,
)
    ensures
        symbols(cells).no_duplicates(),
        forall|v: StoredValue| #[trigger] symbols(cells).contains(v) <==> cells.contains(Some(v)),
        symbols(cells).is_prefix_of(symbols(cells + more)),
    decreases cells.len() + more.len(),
{
    if more.len() > 0 {
        let rest = more.drop_last();
        lemma_symbols_are_the_distinct_values(cells, rest);
        assert((cells + more).drop_last() =~= cells + rest);
        assert((cells + more).last() == more.last());
        let before = symbols(cells + rest);
        if let Some(v) = more.last() {
            assert(before.is_prefix_of(before.push(v)));
        }
        assert(before.is_prefix_of(symbols(cells + more)));
        assert(symbols(cells) =~= symbols(cells + more).take(symbols(cells).len() as int));
    } else {
        assert(cells + more =~= cells);
        if cells.len() > 0 {
            let rest = cells.drop_last();
            lemma_symbols_are_the_distinct_values(rest, more);
            let before = symbols(rest);
            assert(cells =~= rest.push(cells.last()));
            assert forall|v: StoredValue| #[trigger] symbols(cells).contains(v) <==> cells.contains(
                Some(v),
            ) by {
                lemma_contains_pushed(rest, cells.last(), Some(v));
                if let Some(w) = cells.last() {
                    lemma_contains_pushed(before, w, v);
                }
            }
        }
    }
}

/// A number takes 5 bytes in a symbol table if it is a whole one and 9 if it is a double; a
/// text takes those of its UTF-8 form and two more. A table takes what its symbols take.
pub proof fn lemma_bytes_of_symbols(
    table: Seq<StoredValue>,
    n: i32,
    bits: u64,
    s: Seq<char>,
)
    ensures
        symbol_bytes(Seq::empty()) == 0,
        symbol_bytes(table.push(StoredValue::Int(n))) == symbol_bytes(table) + 5,
        symbol_bytes(table.push(StoredValue::Float(bits))) == symbol_bytes(table) + 9,
        symbol_bytes(table.push(StoredValue::Str(s))) == symbol_bytes(table) + encode_utf8(s).len()
            + 2,
{
    assert(table.push(StoredValue::Int(n)).drop_last() =~= table);
    assert(table.push(StoredValue::Float(bits)).drop_last() =~= table);
    assert(table.push(StoredValue::Str(s)).drop_last() =~= table);
}

/// A number takes as many bits as the least power of two above it has zeros.
pub proof fn lemma_bits_of_a_number(n: nat)
    ensures
        n < pow2(bits_of(n)),
        n > 0 ==> bits_of(n) > 0 && pow2((bits_of(n) - 1) as nat) <= n,
        n == 0 ==> bits_of(n) == 0,
    decreases n,
{
    vstd::arithmetic::power2::lemma2_to64();
    if n > 0 {
        lemma_bits_of_a_number(n / 2);
        lemma_pow2_unfold(bits_of(n));
        if n / 2 > 0 {
            lemma_pow2_unfold(bits_of(n / 2));
        }
    }
}

/// Where a column has no `NULL`, its rows hold the places of their values in the symbol
/// table; where it has one, these are moved up by two, and `NULL` takes what is below.
pub proof fn lemma_largest_index(cells: Seq<Option<StoredValue>>)
    ensures
        symbols(cells).len() > 0 && !cells.contains(None) ==> last_index(cells) == symbols(
            cells,
        ).len() - 1,
        symbols(cells).len() > 0 && cells.contains(None) ==> last_index(cells) == symbols(
            cells,
        ).len() + 1,
        symbols(cells).len() == 0 && cells.contains(None) ==> last_index(cells) == 1,
        cells.len() == 0 ==> last_index(cells) == 0,
{
}

/// Every column adds its symbol table to a file and the bits of its indices to each row.
pub proof fn lemma_columns_add_up(fields: Seq<FieldValue>, f: FieldValue)
    ensures
        body_bytes(Seq::empty()) == 0,
        record_bits(Seq::empty()) == 0,
        body_bytes(fields.push(f)) == body_bytes(fields) + symbol_bytes(symbols(f.cells)),
        record_bits(fields.push(f)) == record_bits(fields) + bits_of(last_index(f.cells)),
{
    assert(fields.push(f).drop_last() =~= fields);
}

/// Every row takes whole bytes, no more than its bits need, and there are as many rows as
/// the columns have.
pub proof fn lemma_bytes_of_rows(fields: Seq<FieldValue>, i: int)
    requires
        is_rectangular(fields),
        0 <= i < fields.len(),
    ensures
        ({
            let rows = fields[i].cells.len();
            &&& row_count(fields) == rows
            &&& record_bits(fields) * rows <= 8 * row_bytes(fields) <= (record_bits(fields) + 7)
                * rows
            &&& rows > 0 ==> row_bytes(fields) % (rows as int) == 0
        }),
{
    let rows = fields[i].cells.len() as int;
    assert(rows == fields[0].cells.len());
    let bits = record_bits(fields);
    let bytes = (bits + 7) / 8;
    assert(bits <= 8 * bytes <= bits + 7);
    assert(bits * rows <= 8 * (bytes * rows) <= (bits + 7) * rows) by (nonlinear_arith)
        requires
            bits <= 8 * bytes <= bits + 7,
            rows >= 0,
    ;
    if rows > 0 {
        vstd::arithmetic::div_mod::lemma_mod_multiples_basic(bytes, rows);
    }
}

/// A table is refused before it is written only where a length that the writer does not
/// look at does not fit in 32 bits; the writer refuses it where one that it looks at does
/// not, or where a text holds the character U+0000.
pub proof fn lemma_tables_that_are_written(fields: Seq<FieldValue>)
    ensures
        has_room(fields) <==> record_bits(fields) <= 0xFFFF_FFFF && body_bytes(fields)
            <= 0xFFFF_FFFF && row_bytes(fields) <= 0xFFFF_FFFF,
        is_measurable(fields) <==> row_count(fields) <= 0xFFFF_FFFF && (forall|i: int|
            0 <= i < fields.len() ==> symbol_bytes(symbols((#[trigger] fields[i]).cells))
                <= 0xFFFF_FFFF) && (has_room(fields) ==> body_bytes(fields) + row_bytes(fields)
            <= 0xFFFF_FFFF),
        is_writable(fields) <==> has_room(fields) && forall|i: int, r: int|
            0 <= i < fields.len() && 0 <= r < fields[i].cells.len() ==> (
            #[trigger] fields[i].cells[r] matches Some(StoredValue::Str(s)) ==> !s.contains('\0')),
{
    if forall|i: int, r: int|
        0 <= i < fields.len() && 0 <= r < fields[i].cells.len() ==> (
        #[trigger] fields[i].cells[r] matches Some(StoredValue::Str(s)) ==> !s.contains('\0')) {
        assert(can_be_stored(fields));
    } else {
        let (i, r) = choose|i: int, r: int|
            !(0 <= i < fields.len() && 0 <= r < fields[i].cells.len() ==> (
            #[trigger] fields[i].cells[r] matches Some(StoredValue::Str(s)) ==> !s.contains(
                '\0',
            )));
        assert(has_end_of_text(fields[i].cells[r]));
    }
}

/// Columns are rectangular where any two have the same number of rows.
pub proof fn lemma_rectangular_columns(fields: Seq<FieldValue>)
    ensures
        is_rectangular(fields) <==> forall|i: int, j: int|
            0 <= i < fields.len() && 0 <= j < fields.len() ==> (#[trigger] fields[i]).cells.len()
                == (#[trigger] fields[j]).cells.len(),
{
}

/// The columns that are handed to the writer are those that were gathered, each with its
/// name, the tags of its type and its rows.
pub proof fn lemma_columns_that_are_written(fields: Seq<FieldData>, s: SinkValue)
    ensures
        field_values(fields).len() == fields.len(),
        forall|i: int|
            0 <= i < fields.len() ==> {
                let f = #[trigger] field_values(fields)[i];
                &&& f.name == fields[i].name@
                &&& f.tags == texts(fields[i].tags@)
                &&& f.cells == stored_cells(fields[i].values@)
            },
        gathered_fields(s).len() == s.kinds.len(),
        forall|i: int|
            0 <= i < s.kinds.len() ==> {
                let f = #[trigger] gathered_fields(s)[i];
                &&& f.name == s.names[i]
                &&& f.tags == s.kinds[i].tag_texts()
                &&& f.cells == s.columns[i]
            },
{
}

} // verus!
