//! What a scan hands out altogether.
//!
//! A scan that is drained over a set of files hands out, column by column, what the
//! files hold under the names of its columns, one file after the other.

use vstd::prelude::*;
use crate::convert::converted;
use crate::convert::{CellValue, QvdSymbol, QvdValue};
use crate::kind::Kind;
use crate::scan::{
    accepts,
    asked,
    chunk_column,
    chunk_columns,
    dictionaries,
    dictionary,
    looked_up,
    next,
    next_count,
    picked,
    position_of,
    resolved,
    total,
};
use crate::scan::{ActionValue, EventValue, OpenValue, PullValue, ScanValue, VECTOR_SIZE};

verus! {

/// What a file holds: the names and symbols of its fields, and for each field the
/// symbol index of every row.
pub struct FileValue {
    pub names: Seq<Seq<char>>,
    pub symbols: Seq<Seq<QvdSymbol>>,
    pub indices: Seq<Seq<i64>>,
    pub rows: int,
}

impl FileValue {
    /// Whether every field has symbols and as many indices as there are rows.
    pub open spec fn wf(self) -> bool {
        &&& self.rows >= 0
        &&& self.symbols.len() == self.names.len()
        &&& self.indices.len() == self.names.len()
        &&& forall|i: int|
            0 <= i < self.indices.len() ==> (#[trigger] self.indices[i]).len() == self.rows
    }

    /// The column that a file holds under a name: `NULL` throughout where it has no
    /// such field.
    pub open spec fn column(self, name: Seq<char>, kind: Kind) -> Seq<CellValue> {
        match position_of(self.names, name) {
            Some(i) => self.indices[i].map_values(
                |x: i64| looked_up(dictionary(kind, self.symbols[i]), x),
            ),
            None => Seq::new(self.rows as nat, |r: int| CellValue::Null),
        }
    }

    /// The first row that a block of at most `size` rows from row `at` on leaves out.
    pub open spec fn end_of_block(self, at: int, size: int) -> int {
        if self.rows - at < size {
            self.rows
        } else {
            at + size
        }
    }

    /// The symbols of the fields at the given positions.
    pub open spec fn loaded(self, positions: Seq<Option<int>>) -> Seq<Seq<QvdSymbol>> {
        picked(self.symbols, positions)
    }

    /// The symbol indices of all fields in the rows from `at` up to `end`.
    pub open spec fn block(self, at: int, end: int) -> Seq<Seq<i64>> {
        self.indices.map_values(|column: Seq<i64>| column.subrange(at, end))
    }

    /// What reading at most `size` rows from row `at` on reports for the fields at the
    /// given positions.
    pub open spec fn read(self, positions: Seq<Option<int>>, at: int, size: int) -> EventValue {
        let end = self.end_of_block(at, size);
        if end <= at {
            EventValue::End
        } else {
            EventValue::Chunk(picked(self.block(at, end), positions), end - at)
        }
    }
}

/// The batches that a scan hands out when each of its actions is carried out on the
/// given files, from row `at` of the open file on; `None` where `steps` actions are not
/// enough, or where the scan is told something that it does not accept.
pub open spec fn drained(
    s: ScanValue,
    action: ActionValue,
    files: Seq<FileValue>,
    at: int,
    steps: nat,
) -> Option<Seq<PullValue>>
    decreases steps,
{
    if steps == 0 {
        None
    } else {
        let (event, then) = match action {
            ActionValue::Open(_) => (EventValue::Opened(files[s.file].names), 0),
            ActionValue::Load(positions) => (
                EventValue::Loaded(files[s.file].loaded(positions)),
                at,
            ),
            ActionValue::Read(size) => (
                files[s.file].read((s.open->0).positions, at, size),
                files[s.file].end_of_block(at, size),
            ),
            ActionValue::Emit(_) => (EventValue::Pull, at),
        };
        if action == ActionValue::Emit(PullValue::Done) {
            Some(Seq::empty())
        } else if !accepts(s, event) {
            None
        } else {
            let (s1, a1) = next(s, event);
            match drained(s1, a1, files, then, (steps - 1) as nat) {
                Some(rest) => match action {
                    ActionValue::Emit(pull) => Some(seq![pull] + rest),
                    _ => Some(rest),
                },
                None => None,
            }
        }
    }
}

/// Column `j` of a sequence of batches.
pub open spec fn column_of(batches: Seq<PullValue>, j: int) -> Seq<CellValue>
    decreases batches.len(),
{
    if batches.len() == 0 {
        Seq::empty()
    } else {
        (match batches[0] {
            PullValue::Cells(columns) => columns[j],
            _ => Seq::empty(),
        }) + column_of(batches.drop_first(), j)
    }
}

/// How many rows a sequence of batches of a scan without columns counts.
pub open spec fn counted_rows(batches: Seq<PullValue>) -> int
    decreases batches.len(),
{
    if batches.len() == 0 {
        0
    } else {
        (match batches[0] {
            PullValue::Rows(n) => n,
            _ => 0,
        }) + counted_rows(batches.drop_first())
    }
}

/// The columns that files hold under a name, one after the other, from file `k` on.
pub open spec fn concatenated(
    files: Seq<FileValue>,
    k: int,
    name: Seq<char>,
    kind: Kind,
) -> Seq<CellValue>
    decreases files.len() - k,
{
    if 0 <= k < files.len() {
        files[k].column(name, kind) + concatenated(files, k + 1, name, kind)
    } else {
        Seq::empty()
    }
}

/// Whether a batch has one column per column of the scan, all of the same length, which
/// is at least 1 and at most `VECTOR_SIZE`.
pub open spec fn is_batch(s: ScanValue, pull: PullValue) -> bool {
    pull matches PullValue::Cells(columns) && columns.len() == s.names.len() && 1
        <= columns[0].len() <= VECTOR_SIZE && forall|j: int|
        0 <= j < columns.len() ==> (#[trigger] columns[j]).len() == columns[0].len()
}

/// How many actions draining takes at most, from file `k` on.
pub open spec fn enough_steps(files: Seq<FileValue>, k: int) -> int
    decreases files.len() - k,
{
    if 0 <= k < files.len() {
        3 + 2 * files[k].rows + enough_steps(files, k + 1)
    } else {
        1
    }
}

/// A name is found at the first field that has it, or not at all where none has it.
pub proof fn lemma_position_is_first(names: Seq<Seq<char>>, name: Seq<char>)
    ensures
        position_of(names, name) matches Some(i) ==> 0 <= i < names.len() && names[i] == name
            && forall|j: int| 0 <= j < i ==> #[trigger] names[j] != name,
        position_of(names, name) is None ==> !names.contains(name),
    decreases names.len(),
{
    if names.len() > 0 && names[0] != name {
        let rest = names.drop_first();
        lemma_position_is_first(rest, name);
        assert forall|j: int| 0 < j < names.len() implies names[j] == rest[j - 1] by {}
        match position_of(rest, name) {
            Some(i) => {
                assert forall|j: int| 0 <= j < i + 1 implies #[trigger] names[j] != name by {
                    if j > 0 {
                        assert(rest[j - 1] != name);
                    }
                }
            },
            None => {
                if names.contains(name) {
                    let j = choose|j: int| 0 <= j < names.len() && names[j] == name;
                    assert(rest[j - 1] == name);
                }
            },
        }
    }
}

/// A file that has been opened, and one whose symbols have been loaded too.
spec fn opened(s: ScanValue, f: FileValue, is_loaded: bool) -> OpenValue {
    let positions = resolved(s, f.names);
    OpenValue {
        positions,
        dicts: if is_loaded {
            Some(dictionaries(s, f.loaded(positions)))
        } else {
            None
        },
    }
}

/// How many actions have been carried out on the open file before its first row.
spec fn opening_steps(s: ScanValue) -> int {
    match s.open {
        Some(open) => if open.dicts is Some {
            2
        } else {
            1
        },
        None => 0,
    }
}

/// One block of a file, and where the rest of the column starts.
proof fn lemma_block(s: ScanValue, f: FileValue, at: int, j: int)
    requires
        f.wf(),
        s.names.len() == s.kinds.len(),
        0 <= at < f.rows,
        0 <= j < s.names.len(),
    ensures
        f.read(resolved(s, f.names), at, VECTOR_SIZE as int) matches EventValue::Chunk(
            columns,
            rows,
        ) && {
            let open = opened(s, f, true);
            let end = f.end_of_block(at, VECTOR_SIZE as int);
            let block = chunk_column(open.positions[j], (open.dicts->0)[j], columns[j], rows);
            let column = f.column(s.names[j], s.kinds[j]);
            &&& rows == end - at
            &&& 1 <= rows <= VECTOR_SIZE
            &&& columns.len() == s.names.len()
            &&& block.len() == rows
            &&& column.skip(at) == block + column.skip(end)
        },
{
    let end = f.end_of_block(at, VECTOR_SIZE as int);
    let open = opened(s, f, true);
    let columns = f.read(open.positions, at, VECTOR_SIZE as int)->Chunk_0;
    let block = chunk_column(open.positions[j], (open.dicts->0)[j], columns[j], end - at);
    let column = f.column(s.names[j], s.kinds[j]);
    lemma_position_is_first(f.names, s.names[j]);
    match position_of(f.names, s.names[j]) {
        Some(i) => {
            assert(f.indices[i].len() == f.rows);
            assert(columns[j] == f.indices[i].subrange(at, end));
            assert((open.dicts->0)[j] == dictionary(s.kinds[j], f.symbols[i]));
            assert(column.skip(at) =~= block + column.skip(end));
        },
        None => {
            assert(column.skip(at) =~= block + column.skip(end));
        },
    }
}

/// Draining goes on from row `at` of file `k`: read to its end, then the next files.
proof fn lemma_drains_from(s: ScanValue, files: Seq<FileValue>, k: int, at: int, steps: nat)
    requires
        forall|i: int| 0 <= i < files.len() ==> (#[trigger] files[i]).wf(),
        files.len() == s.paths.len(),
        s.names.len() == s.kinds.len() > 0,
        s.file == k,
        0 <= k <= files.len(),
        opening_steps(s) < 2 ==> at == 0,
        s.open matches Some(open) ==> k < files.len() && open == opened(
            s,
            files[k],
            open.dicts is Some,
        ) && 0 <= at <= files[k].rows,
        steps >= enough_steps(files, k) - 2 * at - opening_steps(s),
    ensures
        drained(s, asked(s).1, files, at, steps) matches Some(batches) && {
            &&& forall|b: int| 0 <= b < batches.len() ==> is_batch(s, #[trigger] batches[b])
            &&& forall|j: int|
                0 <= j < s.names.len() ==> #[trigger] column_of(batches, j) == concatenated(
                    files,
                    k,
                    s.names[j],
                    s.kinds[j],
                ).skip(at)
        },
    decreases
            files.len() - k,
            2 - opening_steps(s),
            (if k < files.len() {
                files[k].rows - at
            } else {
                0
            }),
{
    lemma_enough_steps(files, k);
    if k == files.len() {
        assert forall|j: int| 0 <= j < s.names.len() implies #[trigger] column_of(
            Seq::<PullValue>::empty(),
            j,
        ) == concatenated(files, k, s.names[j], s.kinds[j]).skip(at) by {
            assert(concatenated(files, k, s.names[j], s.kinds[j]).skip(0) =~= Seq::empty());
        }
    } else {
        let f = files[k];
        assert(f.wf());
        lemma_enough_steps(files, k + 1);
        if opening_steps(s) < 2 {
            let event = if s.open is None {
                EventValue::Opened(f.names)
            } else {
                EventValue::Loaded(f.loaded((s.open->0).positions))
            };
            let s1 = next(s, event).0;
            assert(accepts(s, event));
            assert(opened(s1, f, s.open is Some) == opened(s, f, s.open is Some));
            assert(next(s, event) == asked(s1) && asked(s1).0 == s1);
            lemma_drains_from(s1, files, k, 0, (steps - 1) as nat);
            let batches = drained(s1, asked(s1).1, files, 0, (steps - 1) as nat)->0;
            assert(drained(s, asked(s).1, files, at, steps) == Some(batches));
            assert forall|b: int| 0 <= b < batches.len() implies is_batch(
                s,
                #[trigger] batches[b],
            ) by {
                assert(is_batch(s1, batches[b]));
            }
        } else if at < f.rows {
            let positions = (s.open->0).positions;
            let event = f.read(positions, at, VECTOR_SIZE as int);
            let end = f.end_of_block(at, VECTOR_SIZE as int);
            lemma_block(s, f, at, 0);
            let columns = chunk_columns(
                positions,
                (s.open->0).dicts->0,
                event->Chunk_0,
                event->Chunk_1,
            );
            let pull = PullValue::Cells(columns);
            assert(accepts(s, event));
            assert(next(s, event) == (s, ActionValue::Emit(pull)));
            lemma_drains_from(s, files, k, end, (steps - 2) as nat);
            let rest = drained(s, asked(s).1, files, end, (steps - 2) as nat)->0;
            let batches = seq![pull] + rest;
            assert(drained(s, ActionValue::Emit(pull), files, end, (steps - 1) as nat) == Some(
                batches,
            )) by {
                assert(next(s, EventValue::Pull) == asked(s));
                assert(asked(s).0 == s);
            }
            assert(drained(s, asked(s).1, files, at, steps) == Some(batches));
            assert(is_batch(s, pull)) by {
                assert forall|j: int| 0 <= j < columns.len() implies (#[trigger] columns[j]).len()
                    == end - at by {
                    lemma_block(s, f, at, j);
                }
                assert(columns[0].len() == end - at);
            }
            assert forall|b: int| 0 <= b < batches.len() implies is_batch(
                s,
                #[trigger] batches[b],
            ) by {
                if b > 0 {
                    assert(batches[b] == rest[b - 1]);
                }
            }
            assert forall|j: int| 0 <= j < s.names.len() implies #[trigger] column_of(batches, j)
                == concatenated(files, k, s.names[j], s.kinds[j]).skip(at) by {
                lemma_block(s, f, at, j);
                assert(batches.drop_first() =~= rest);
                assert(batches[0] == pull);
                let whole = concatenated(files, k, s.names[j], s.kinds[j]);
                let column = f.column(s.names[j], s.kinds[j]);
                let after = concatenated(files, k + 1, s.names[j], s.kinds[j]);
                lemma_position_is_first(f.names, s.names[j]);
                assert(column.len() == f.rows);
                assert(whole.skip(at) =~= column.skip(at) + after);
                assert(whole.skip(end) =~= column.skip(end) + after);
                assert(column_of(rest, j) == whole.skip(end));
                assert(columns[j] + whole.skip(end) =~= whole.skip(at));
            }
        } else {
            let event = f.read((s.open->0).positions, at, VECTOR_SIZE as int);
            assert(event == EventValue::End);
            let s1 = ScanValue { open: None, file: s.file + 1, ..s };
            lemma_drains_from(s1, files, k + 1, 0, (steps - 1) as nat);
            assert(next(s, event) == asked(s1));
            assert(asked(s1).0 == s1);
            let batches = drained(s1, asked(s1).1, files, 0, (steps - 1) as nat)->0;
            lemma_same_drain(
                s1,
                asked(s1).1,
                files,
                0,
                f.end_of_block(at, VECTOR_SIZE as int),
                (steps - 1) as nat,
            );
            assert(drained(s, asked(s).1, files, at, steps) == Some(batches));
            assert forall|b: int| 0 <= b < batches.len() implies is_batch(
                s,
                #[trigger] batches[b],
            ) by {
                assert(is_batch(s1, batches[b]));
            }
            assert forall|j: int| 0 <= j < s.names.len() implies #[trigger] column_of(batches, j)
                == concatenated(files, k, s.names[j], s.kinds[j]).skip(at) by {
                assert(column_of(batches, j) == concatenated(
                    files,
                    k + 1,
                    s1.names[j],
                    s1.kinds[j],
                ).skip(0));
                lemma_position_is_first(f.names, s.names[j]);
                assert(f.column(s.names[j], s.kinds[j]).len() == f.rows);
                assert(concatenated(files, k + 1, s.names[j], s.kinds[j]).skip(0)
                    =~= concatenated(files, k, s.names[j], s.kinds[j]).skip(at));
            }
        }
    }
}

/// The row that was reached last does not matter once the file is left.
proof fn lemma_same_drain(
    s: ScanValue,
    action: ActionValue,
    files: Seq<FileValue>,
    at: int,
    other: int,
    steps: nat,
)
    requires
        !(action is Read),
        !(action is Load),
        action matches ActionValue::Emit(pull) ==> pull == PullValue::Done,
    ensures
        drained(s, action, files, at, steps) == drained(s, action, files, other, steps),
{
}

/// Draining takes at least one action.
proof fn lemma_enough_steps(files: Seq<FileValue>, k: int)
    requires
        forall|i: int| 0 <= i < files.len() ==> (#[trigger] files[i]).wf(),
        0 <= k,
    ensures
        enough_steps(files, k) >= 1,
        k < files.len() ==> enough_steps(files, k) >= 4 + 2 * files[k].rows,
    decreases files.len() - k,
{
    if k < files.len() {
        lemma_enough_steps(files, k + 1);
        assert(files[k].wf());
    }
}

/// A scan that is drained hands out every row of every file, file after file and in the
/// order of the rows: column `j` is the concatenation of the columns that the files hold
/// under the name of column `j`, with `NULL` throughout a file that lacks the name.
/// Every batch has from 1 to `VECTOR_SIZE` rows.
pub proof fn lemma_drained_scan_concatenates_files(
    s: ScanValue,
    files: Seq<FileValue>,
) -> (steps: nat)
    requires
        s.names.len() == s.kinds.len() > 0,
        s.file == 0,
        s.open is None,
        files.len() == s.paths.len(),
        forall|i: int| 0 <= i < files.len() ==> (#[trigger] files[i]).wf(),
    ensures
        drained(asked(s).0, asked(s).1, files, 0, steps) matches Some(batches) && {
            &&& forall|b: int| 0 <= b < batches.len() ==> is_batch(s, #[trigger] batches[b])
            &&& forall|j: int|
                0 <= j < s.names.len() ==> #[trigger] column_of(batches, j) == concatenated(
                    files,
                    0,
                    s.names[j],
                    s.kinds[j],
                )
        },
{
    lemma_enough_steps(files, 0);
    let steps = enough_steps(files, 0) as nat;
    lemma_drains_from(s, files, 0, 0, steps);
    let batches = drained(s, asked(s).1, files, 0, steps)->0;
    assert forall|j: int| 0 <= j < s.names.len() implies #[trigger] column_of(batches, j)
        == concatenated(files, 0, s.names[j], s.kinds[j]) by {
        assert(concatenated(files, 0, s.names[j], s.kinds[j]).skip(0) =~= concatenated(
            files,
            0,
            s.names[j],
            s.kinds[j],
        ));
    }
    steps
}

/// Of a file, only the fields of the columns of the scan are loaded and read: the fields
/// that are asked for are the first ones that have the names of the columns.
pub proof fn lemma_only_the_columns_are_loaded(s: ScanValue, names: Seq<Seq<char>>)
    requires
        accepts(s, EventValue::Opened(names)),
    ensures
        next(s, EventValue::Opened(names)).1 == ActionValue::Load(resolved(s, names)),
        forall|j: int|
            0 <= j < s.names.len() ==> (#[trigger] resolved(s, names)[j] matches Some(i) ==> 0 <= i
                < names.len() && names[i] == s.names[j]),
        forall|j: int|
            0 <= j < s.names.len() ==> (#[trigger] resolved(s, names)[j] is None
                ==> !names.contains(s.names[j])),
{
    assert forall|j: int| 0 <= j < s.names.len() implies (#[trigger] resolved(s, names)[
        j
    ] matches Some(i) ==> 0 <= i < names.len() && names[i] == s.names[j]) by {
        lemma_position_is_first(names, s.names[j]);
    }
    assert forall|j: int| 0 <= j < s.names.len() implies (#[trigger] resolved(s, names)[j] is None
        ==> !names.contains(s.names[j])) by {
        lemma_position_is_first(names, s.names[j]);
    }
}

/// A scan without columns asks for no file, and reads none: it only hands out counts.
pub proof fn lemma_count_reads_no_file(s: ScanValue)
    requires
        s.kinds.len() == 0,
    ensures
        next(s, EventValue::Pull).1 is Emit,
        next(s, EventValue::Pull).0.open == s.open,
        next(s, EventValue::Pull).0.file == s.file,
{
}

/// A scan without columns that is drained counts exactly the rows that the files are
/// said to hold, in batches of 1 to `VECTOR_SIZE`.
pub proof fn lemma_drained_count_is_total(s: ScanValue, files: Seq<FileValue>) -> (steps: nat)
    requires
        s.kinds.len() == 0,
        0 <= s.counted <= s.num_rows,
    ensures
        drained(asked(s).0, asked(s).1, files, 0, steps) matches Some(batches) && {
            &&& counted_rows(batches) == s.num_rows - s.counted
            &&& forall|b: int|
                0 <= b < batches.len() ==> (#[trigger] batches[b] matches PullValue::Rows(n) && 1
                    <= n <= VECTOR_SIZE)
        },
    decreases s.num_rows - s.counted,
{
    let (s1, a1) = asked(s);
    if next_count(s) == 0 {
        1
    } else {
        let steps = lemma_drained_count_is_total(s1, files) + 1;
        let pull = PullValue::Rows(next_count(s));
        assert(a1 == ActionValue::Emit(pull));
        let rest = drained(asked(s1).0, asked(s1).1, files, 0, (steps - 1) as nat)->0;
        let batches = seq![pull] + rest;
        assert(drained(s1, a1, files, 0, steps) == Some(batches));
        assert(batches.drop_first() =~= rest);
        assert forall|b: int| 0 <= b < batches.len() implies (#[trigger] batches[
            b
        ] matches PullValue::Rows(n) && 1 <= n <= VECTOR_SIZE) by {
            if b > 0 {
                assert(batches[b] == rest[b - 1]);
            }
        }
        steps
    }
}

/// How many rows the first `k` files hold together.
pub open spec fn rows_before(files: Seq<FileValue>, k: int) -> int
    decreases k,
{
    if k <= 0 {
        0
    } else {
        rows_before(files, k - 1) + files[k - 1].rows
    }
}

/// A row of a file stands behind all rows of the files before it.
proof fn lemma_row_in_concatenation(
    files: Seq<FileValue>,
    from: int,
    k: int,
    r: int,
    name: Seq<char>,
    kind: Kind,
)
    requires
        forall|i: int| 0 <= i < files.len() ==> (#[trigger] files[i]).wf(),
        0 <= from <= k < files.len(),
        0 <= r < files[k].rows,
    ensures
        0 <= rows_before(files, k) - rows_before(files, from) + r < concatenated(
            files,
            from,
            name,
            kind,
        ).len(),
        concatenated(files, from, name, kind)[rows_before(files, k) - rows_before(files, from) + r]
            == files[k].column(name, kind)[r],
        files[k].column(name, kind).len() == files[k].rows,
    decreases k - from,
{
    let f = files[from];
    assert(f.wf());
    lemma_position_is_first(f.names, name);
    assert(f.column(name, kind).len() == f.rows);
    if from < k {
        lemma_row_in_concatenation(files, from + 1, k, r, name, kind);
        assert(rows_before(files, from + 1) == rows_before(files, from) + f.rows);
    }
}

/// The files together have as many rows as they have one by one.
proof fn lemma_rows_of_concatenation(
    files: Seq<FileValue>,
    from: int,
    name: Seq<char>,
    kind: Kind,
)
    requires
        forall|i: int| 0 <= i < files.len() ==> (#[trigger] files[i]).wf(),
        0 <= from <= files.len(),
    ensures
        concatenated(files, from, name, kind).len() == rows_before(files, files.len() as int)
            - rows_before(files, from),
    decreases files.len() - from,
{
    if from < files.len() {
        let f = files[from];
        assert(f.wf());
        lemma_position_is_first(f.names, name);
        lemma_rows_of_concatenation(files, from + 1, name, kind);
        assert(rows_before(files, from + 1) == rows_before(files, from) + f.rows);
    }
}

/// Every row of every file comes out once, in its place: in a column, row `r` of file `k`
/// is the converted symbol that the row's index stands for in the first field with the
/// column's name; `NULL` where the index is negative or beyond the symbols, and where the
/// file has no such field.
pub proof fn lemma_every_row_comes_out(
    s: ScanValue,
    files: Seq<FileValue>,
    j: int,
    k: int,
    r: int,
) -> (steps: nat)
    requires
        s.names.len() == s.kinds.len() > 0,
        s.file == 0,
        s.open is None,
        files.len() == s.paths.len(),
        forall|i: int| 0 <= i < files.len() ==> (#[trigger] files[i]).wf(),
        0 <= j < s.names.len(),
        0 <= k < files.len(),
        0 <= r < files[k].rows,
    ensures
        drained(asked(s).0, asked(s).1, files, 0, steps) matches Some(batches) && {
            let column = column_of(batches, j);
            let cell = column[rows_before(files, k) + r];
            let f = files[k];
            &&& column.len() == rows_before(files, files.len() as int)
            &&& 0 <= rows_before(files, k) + r < column.len()
            &&& forall|i: int|
                0 <= i < f.names.len() && #[trigger] f.names[i] == s.names[j] && (forall|h: int|
                    0 <= h < i ==> #[trigger] f.names[h] != s.names[j]) ==> {
                    let x = f.indices[i][r];
                    cell == if 0 <= x < f.symbols[i].len() {
                        converted(s.kinds[j], QvdValue::Symbol(f.symbols[i][x as int]))
                    } else {
                        CellValue::Null
                    }
                }
            &&& !f.names.contains(s.names[j]) ==> cell is Null
        },
{
    let steps = lemma_drained_scan_concatenates_files(s, files);
    let batches = drained(asked(s).0, asked(s).1, files, 0, steps)->0;
    let name = s.names[j];
    let kind = s.kinds[j];
    let f = files[k];
    assert(column_of(batches, j) == concatenated(files, 0, name, kind));
    lemma_row_in_concatenation(files, 0, k, r, name, kind);
    lemma_rows_of_concatenation(files, 0, name, kind);
    lemma_position_is_first(f.names, name);
    assert(f.wf());
    assert forall|i: int|
        0 <= i < f.names.len() && #[trigger] f.names[i] == name && (forall|h: int|
            0 <= h < i ==> #[trigger] f.names[h] != name) implies position_of(f.names, name)
        == Some(i) by {
        match position_of(f.names, name) {
            Some(p) => {
                if p < i {
                    assert(f.names[p] != name);
                } else if i < p {
                    assert(f.names[i] != name);
                }
            },
            None => {
                assert(f.names.contains(f.names[i]));
            },
        }
    }
    if !f.names.contains(name) {
        assert(position_of(f.names, name) is None);
    }
    assert forall|i: int|
        0 <= i < f.names.len() && #[trigger] f.names[i] == name && (forall|h: int|
            0 <= h < i ==> #[trigger] f.names[h] != name) implies column_of(batches, j)[rows_before(
        files,
        k,
    ) + r] == looked_up(dictionary(kind, f.symbols[i]), f.indices[i][r]) by {
        assert(position_of(f.names, name) == Some(i));
        assert(f.indices[i].len() == f.rows);
    }
    steps
}

/// Counting the rows of files gives the number of rows that a scan of the same files with
/// columns hands out.
pub proof fn lemma_count_is_the_number_of_rows(
    count: ScanValue,
    s: ScanValue,
    files: Seq<FileValue>,
    records: Seq<usize>,
    j: int,
) -> (steps: (nat, nat))
    requires
        count.kinds.len() == 0,
        count.counted == 0,
        count.num_rows == total(records),
        s.names.len() == s.kinds.len() > 0,
        s.file == 0,
        s.open is None,
        files.len() == s.paths.len() == records.len(),
        forall|i: int| 0 <= i < files.len() ==> (#[trigger] files[i]).wf(),
        forall|i: int| 0 <= i < files.len() ==> (#[trigger] files[i]).rows == records[i],
        0 <= j < s.names.len(),
    ensures
        drained(asked(count).0, asked(count).1, files, 0, steps.0) matches Some(counts) && (drained(
            asked(s).0,
            asked(s).1,
            files,
            0,
            steps.1,
        ) matches Some(batches) && counted_rows(counts) == column_of(batches, j).len()),
{
    lemma_total_is_rows_before(files, records, files.len() as int);
    assert(records.take(files.len() as int) =~= records);
    lemma_total_of_records(records);
    let first = lemma_drained_count_is_total(count, files);
    let second = lemma_drained_scan_concatenates_files(s, files);
    lemma_rows_of_concatenation(files, 0, s.names[j], s.kinds[j]);
    (first, second)
}

/// Numbers of rows do not add up to less than nothing.
proof fn lemma_total_of_records(records: Seq<usize>)
    ensures
        total(records) >= 0,
    decreases records.len(),
{
    if records.len() > 0 {
        lemma_total_of_records(records.drop_last());
    }
}

/// The numbers of rows that the headers of files give, added up.
proof fn lemma_total_is_rows_before(files: Seq<FileValue>, records: Seq<usize>, k: int)
    requires
        0 <= k <= files.len() == records.len(),
        forall|i: int| 0 <= i < files.len() ==> (#[trigger] files[i]).rows == records[i],
    ensures
        total(records.take(k)) == rows_before(files, k),
    decreases k,
{
    if k > 0 {
        lemma_total_is_rows_before(files, records, k - 1);
        assert(records.take(k).drop_last() =~= records.take(k - 1));
        assert(files[k - 1].rows == records[k - 1]);
    }
}

} // verus!
