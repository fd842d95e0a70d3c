//! Scanning one or more QVD files as one table.
//!
//! A scan decides what is to be done next and what comes of it. Opening files and
//! reading blocks of row indices is done by the caller, who performs each `Action`
//! and hands back its outcome as an `Event`.

use vstd::prelude::*;
use crate::convert::{convert, converted};
use crate::convert::{Cell, CellValue, QvdSymbol, QvdValue};
use crate::kind::{texts, Kind};

verus! {

/// The most rows that are read or emitted at once.
pub const VECTOR_SIZE: usize = 2048;

/// A batch of rows drawn from a scan.
pub enum Pull {
    /// Rows of a scan without columns, which only counts them.
    Rows(usize),
    /// Rows as columns of converted values.
    Cells { columns: Vec<Vec<Cell>> },
    /// There are no more rows.
    Done,
}

/// What a scan asks its caller to do.
pub enum Action {
    /// Open the file at this path and report the names of its fields.
    Open(String),
    /// Load the symbols of these fields of the open file, one for each column; there
    /// is none for a column that the file lacks.
    Load(Vec<Option<usize>>),
    /// Read the symbol indices of the next rows, at most this many, for the fields
    /// whose symbols were loaded.
    Read(usize),
    /// Hand this batch out. The scan waits for the next `Event::Pull`.
    Emit(Pull),
}

/// What a scan is told.
pub enum Event {
    /// The next batch is wanted.
    Pull,
    /// The file was opened: the names of its fields.
    Opened { names: Vec<String> },
    /// The symbols of the field of each column; none for a column that the file lacks.
    Loaded { symbols: Vec<Vec<QvdSymbol>> },
    /// The symbol indices of the next rows, for the field of each column, and how many
    /// rows there are; `None` at the end of the file.
    Chunk { next: Option<(Vec<Vec<i64>>, usize)> },
}

/// The columns of the open file, as the scan needs them.
struct OpenFile {
    /// For each column, the field that it is read from.
    positions: Vec<Option<usize>>,
    /// For each column, the converted symbols of that field, once they are loaded.
    dicts: Option<Vec<Vec<Cell>>>,
}

/// A scan of one or more QVD files.
pub struct QvdScan {
    paths: Vec<String>,
    needed_names: Vec<String>,
    needed_kinds: Vec<Kind>,
    num_rows: usize,
    file_idx: usize,
    file: Option<OpenFile>,
    countstar_emitted: usize,
}

/// What a batch holds.
pub enum PullValue {
    Rows(int),
    Cells(Seq<Seq<CellValue>>),
    Done,
}

/// What an action asks for.
pub enum ActionValue {
    Open(Seq<char>),
    Load(Seq<Option<int>>),
    Read(int),
    Emit(PullValue),
}

/// What an event reports.
pub enum EventValue {
    Pull,
    Opened(Seq<Seq<char>>),
    Loaded(Seq<Seq<QvdSymbol>>),
    Chunk(Seq<Seq<i64>>, int),
    End,
}

/// Where the columns of a scan stand in the open file, and what their symbols were
/// converted to once they were loaded.
pub struct OpenValue {
    pub positions: Seq<Option<int>>,
    pub dicts: Option<Seq<Seq<CellValue>>>,
}

/// The state of a scan.
pub struct ScanValue {
    /// The files, in the order in which they are read.
    pub paths: Seq<Seq<char>>,
    /// The names of the columns.
    pub names: Seq<Seq<char>>,
    /// The kinds of the columns.
    pub kinds: Seq<Kind>,
    /// How many rows the files hold together.
    pub num_rows: int,
    /// How many files have been read.
    pub file: int,
    /// The file that is being read.
    pub open: Option<OpenValue>,
    /// How many rows a scan without columns has counted.
    pub counted: int,
}

/// The values in a list of cells.
pub open spec fn cell_values(cells: Seq<Cell>) -> Seq<CellValue> {
    cells.map_values(|c: Cell| c@)
}

/// The values in a list of columns.
pub open spec fn column_values(columns: Seq<Vec<Cell>>) -> Seq<Seq<CellValue>> {
    columns.map_values(|c: Vec<Cell>| cell_values(c@))
}

/// The numbers in a list of lists.
pub open spec fn index_values(columns: Seq<Vec<i64>>) -> Seq<Seq<i64>> {
    columns.map_values(|c: Vec<i64>| c@)
}

/// The symbols in a list of lists.
pub open spec fn symbol_values(symbols: Seq<Vec<QvdSymbol>>) -> Seq<Seq<QvdSymbol>> {
    symbols.map_values(|c: Vec<QvdSymbol>| c@)
}

/// The positions in a list.
pub open spec fn position_values(positions: Seq<Option<usize>>) -> Seq<Option<int>> {
    positions.map_values(
        |p: Option<usize>|
            match p {
                Some(i) => Some(i as int),
                None => None::<int>,
            },
    )
}

impl View for Pull {
    type V = PullValue;

    open spec fn view(&self) -> PullValue {
        match self {
            Pull::Rows(n) => PullValue::Rows(*n as int),
            Pull::Cells { columns } => PullValue::Cells(column_values(columns@)),
            Pull::Done => PullValue::Done,
        }
    }
}

impl View for Action {
    type V = ActionValue;

    open spec fn view(&self) -> ActionValue {
        match self {
            Action::Open(path) => ActionValue::Open(path@),
            Action::Load(positions) => ActionValue::Load(position_values(positions@)),
            Action::Read(n) => ActionValue::Read(*n as int),
            Action::Emit(pull) => ActionValue::Emit(pull@),
        }
    }
}

impl View for Event {
    type V = EventValue;

    open spec fn view(&self) -> EventValue {
        match self {
            Event::Pull => EventValue::Pull,
            Event::Opened { names } => EventValue::Opened(texts(names@)),
            Event::Loaded { symbols } => EventValue::Loaded(symbol_values(symbols@)),
            Event::Chunk { next } => match next {
                Some((columns, rows)) => if *rows > 0 {
                    EventValue::Chunk(index_values(columns@), *rows as int)
                } else {
                    EventValue::End
                },
                None => EventValue::End,
            },
        }
    }
}

/// The position of the first field of the given name.
pub open spec fn position_of(names: Seq<Seq<char>>, name: Seq<char>) -> Option<int>
    decreases names.len(),
{
    if names.len() == 0 {
        None
    } else if names[0] == name {
        Some(0)
    } else {
        match position_of(names.drop_first(), name) {
            Some(i) => Some(i + 1),
            None => None,
        }
    }
}

/// The symbols of a field, converted for a column.
pub open spec fn dictionary(kind: Kind, symbols: Seq<QvdSymbol>) -> Seq<CellValue> {
    symbols.map_values(|s: QvdSymbol| converted(kind, QvdValue::Symbol(s)))
}

/// The value that a symbol index stands for; an index that is not in the symbol
/// table stands for `NULL`.
pub open spec fn looked_up(dict: Seq<CellValue>, index: i64) -> CellValue {
    if 0 <= index < dict.len() {
        dict[index as int]
    } else {
        CellValue::Null
    }
}

/// Where the columns of a scan stand among the fields of a file.
pub open spec fn resolved(s: ScanValue, names: Seq<Seq<char>>) -> Seq<Option<int>> {
    Seq::new(s.names.len(), |j: int| position_of(names, s.names[j]))
}

/// The symbols of the columns of a scan, converted.
pub open spec fn dictionaries(s: ScanValue, symbols: Seq<Seq<QvdSymbol>>) -> Seq<Seq<CellValue>> {
    Seq::new(s.names.len(), |j: int| dictionary(s.kinds[j], symbols[j]))
}

/// One column of a block of rows: the values that its indices stand for, or `NULL`
/// throughout where the file lacks the field.
pub open spec fn chunk_column(
    position: Option<int>,
    dict: Seq<CellValue>,
    indices: Seq<i64>,
    rows: int,
) -> Seq<CellValue> {
    match position {
        Some(_) => indices.map_values(|x: i64| looked_up(dict, x)),
        None => Seq::new(rows as nat, |r: int| CellValue::Null),
    }
}

/// The columns of a block of rows.
pub open spec fn chunk_columns(
    positions: Seq<Option<int>>,
    dicts: Seq<Seq<CellValue>>,
    columns: Seq<Seq<i64>>,
    rows: int,
) -> Seq<Seq<CellValue>> {
    Seq::new(
        positions.len(),
        |j: int| chunk_column(positions[j], dicts[j], columns[j], rows),
    )
}

/// How many rows a scan without columns counts next.
pub open spec fn next_count(s: ScanValue) -> int {
    if s.num_rows - s.counted < VECTOR_SIZE {
        s.num_rows - s.counted
    } else {
        VECTOR_SIZE as int
    }
}

/// What a scan does when the next batch is wanted.
///
/// A scan without columns counts rows and opens no file. Any other scan reads on in
/// the open file, or opens the next one. Of a file it loads the fields of its columns
/// and no others.
pub open spec fn asked(s: ScanValue) -> (ScanValue, ActionValue) {
    if s.kinds.len() == 0 {
        if next_count(s) == 0 {
            (s, ActionValue::Emit(PullValue::Done))
        } else {
            (
                ScanValue { counted: s.counted + next_count(s), ..s },
                ActionValue::Emit(PullValue::Rows(next_count(s))),
            )
        }
    } else {
        match s.open {
            Some(open) => if open.dicts is Some {
                (s, ActionValue::Read(VECTOR_SIZE as int))
            } else {
                (s, ActionValue::Load(open.positions))
            },
            None => if s.file < s.paths.len() {
                (s, ActionValue::Open(s.paths[s.file]))
            } else {
                (s, ActionValue::Emit(PullValue::Done))
            },
        }
    }
}

/// What a scan does next, and what becomes of its state.
pub open spec fn next(s: ScanValue, event: EventValue) -> (ScanValue, ActionValue) {
    match event {
        EventValue::Pull => asked(s),
        EventValue::Opened(names) => asked(
            ScanValue {
                open: Some(OpenValue { positions: resolved(s, names), dicts: None }),
                ..s
            },
        ),
        EventValue::Loaded(symbols) => asked(
            ScanValue {
                open: Some(
                    OpenValue {
                        positions: (s.open->0).positions,
                        dicts: Some(dictionaries(s, symbols)),
                    },
                ),
                ..s
            },
        ),
        EventValue::Chunk(columns, rows) => (
            s,
            ActionValue::Emit(
                PullValue::Cells(
                    chunk_columns(
                        (s.open->0).positions,
                        (s.open->0).dicts->0,
                        columns,
                        rows,
                    ),
                ),
            ),
        ),
        EventValue::End => asked(ScanValue { open: None, file: s.file + 1, ..s }),
    }
}

/// What a file holds for the fields at the given positions; nothing where there is none.
pub open spec fn picked<T>(all: Seq<Seq<T>>, positions: Seq<Option<int>>) -> Seq<Seq<T>> {
    positions.map_values(
        |p: Option<int>|
            match p {
                Some(i) => all[i],
                None => Seq::empty(),
            },
    )
}

/// Whether the symbols of the open file are loaded.
pub open spec fn is_loaded(s: ScanValue) -> bool {
    s.open matches Some(open) && open.dicts is Some
}

/// Whether an event can follow: a file is opened only where one was asked for, its
/// symbols are loaded once, and symbols and indices come for every column.
pub open spec fn accepts(s: ScanValue, event: EventValue) -> bool {
    match event {
        EventValue::Pull => true,
        EventValue::Opened(names) => s.kinds.len() > 0 && s.open is None && s.file < s.paths.len(),
        EventValue::Loaded(symbols) => {
            &&& s.open is Some
            &&& !is_loaded(s)
            &&& symbols.len() == s.names.len()
        },
        EventValue::Chunk(columns, rows) => is_loaded(s) && columns.len() == s.names.len(),
        EventValue::End => is_loaded(s),
    }
}

/// The columns that a projection selects.
pub open spec fn selected<T>(all: Seq<T>, indices: Seq<usize>) -> Seq<T> {
    indices.map_values(|i: usize| all[i as int])
}

/// The sum of row counts.
pub open spec fn total(records: Seq<usize>) -> int
    decreases records.len(),
{
    if records.len() == 0 {
        0
    } else {
        total(records.drop_last()) + records.last()
    }
}

impl OpenFile {
    closed spec fn value(self) -> OpenValue {
        OpenValue {
            positions: position_values(self.positions@),
            dicts: match self.dicts {
                Some(dicts) => Some(column_values(dicts@)),
                None => None,
            },
        }
    }
}

impl View for QvdScan {
    type V = ScanValue;

    closed spec fn view(&self) -> ScanValue {
        ScanValue {
            paths: texts(self.paths@),
            names: texts(self.needed_names@),
            kinds: self.needed_kinds@,
            num_rows: self.num_rows as int,
            file: self.file_idx as int,
            open: match self.file {
                Some(f) => Some(f.value()),
                None => None,
            },
            counted: self.countstar_emitted as int,
        }
    }
}

impl QvdScan {
    /// Whether the parts of a scan fit together.
    pub closed spec fn wf(&self) -> bool {
        &&& self.needed_names@.len() == self.needed_kinds@.len()
        &&& self.countstar_emitted <= self.num_rows
        &&& self.file_idx <= self.paths@.len()
        &&& self.file matches Some(f) ==> {
            &&& self.needed_kinds@.len() > 0
            &&& self.file_idx < self.paths@.len()
            &&& f.positions@.len() == self.needed_names@.len()
            &&& f.dicts matches Some(dicts) ==> dicts@.len() == self.needed_names@.len()
        }
    }

    /// What a well-formed scan promises of its state.
    pub proof fn lemma_wf(&self)
        requires
            self.wf(),
        ensures
            self@.names.len() == self@.kinds.len(),
            0 <= self@.counted <= self@.num_rows,
            0 <= self@.file <= self@.paths.len(),
            self@.open matches Some(f) ==> self@.kinds.len() > 0 && self@.file < self@.paths.len()
                && f.positions.len() == self@.names.len() && (f.dicts matches Some(dicts)
                ==> dicts.len() == self@.names.len()),
    {
    }

    /// Prepares a scan of the columns at `indices` of a schema, over the given files,
    /// which hold the given numbers of rows.
    pub fn new(
        paths: &Vec<String>,
        names: &Vec<String>,
        kinds: &Vec<Kind>,
        indices: &Vec<usize>,
        records: &Vec<usize>,
    ) -> (r: QvdScan)
        requires
            forall|j: int|
                0 <= j < indices@.len() ==> #[trigger] indices@[j] < names@.len() && indices@[j]
                    < kinds@.len(),
            total(records@) <= usize::MAX,
        ensures
            r.wf(),
            r@ == (ScanValue {
                paths: texts(paths@),
                names: selected(texts(names@), indices@),
                kinds: selected(kinds@, indices@),
                num_rows: total(records@),
                file: 0,
                open: None,
                counted: 0,
            }),
    {
        let mut needed_names: Vec<String> = Vec::new();
        let mut needed_kinds: Vec<Kind> = Vec::new();
        let mut j: usize = 0;
        while j < indices.len()
            invariant
                j <= indices@.len(),
                needed_names@.len() == j,
                needed_kinds@.len() == j,
                forall|j: int|
                    0 <= j < indices@.len() ==> #[trigger] indices@[j] < names@.len() && indices@[j]
                        < kinds@.len(),
                forall|i: int|
                    0 <= i < j ==> (#[trigger] needed_names@[i])@ == names@[indices@[i] as int]@,
                forall|i: int|
                    0 <= i < j ==> #[trigger] needed_kinds@[i] == kinds@[indices@[i] as int],
            decreases indices@.len() - j,
        {
            let at: usize = indices[j];
            needed_names.push(names[at].clone());
            needed_kinds.push(kinds[at]);
            j = j + 1;
        }
        let mut all_paths: Vec<String> = Vec::new();
        let mut k: usize = 0;
        while k < paths.len()
            invariant
                k <= paths@.len(),
                all_paths@.len() == k,
                forall|i: int| 0 <= i < k ==> (#[trigger] all_paths@[i])@ == paths@[i]@,
            decreases paths@.len() - k,
        {
            all_paths.push(paths[k].clone());
            k = k + 1;
        }
        let mut num_rows: usize = 0;
        let mut n: usize = 0;
        while n < records.len()
            invariant
                n <= records@.len(),
                num_rows == total(records@.take(n as int)),
                total(records@) <= usize::MAX,
            decreases records@.len() - n,
        {
            proof {
                let t = records@.take(n + 1);
                assert(t.drop_last() =~= records@.take(n as int));
                assert(t.last() == records@[n as int]);
                lemma_total_grows(records@, n + 1);
            }
            num_rows = num_rows + records[n];
            n = n + 1;
        }
        assert(records@.take(n as int) =~= records@);
        let r = QvdScan {
            paths: all_paths,
            needed_names,
            needed_kinds,
            num_rows,
            file_idx: 0,
            file: None,
            countstar_emitted: 0,
        };
        assert(r@.paths =~= texts(paths@));
        assert(r@.names =~= selected(texts(names@), indices@));
        assert(r@.kinds =~= selected(kinds@, indices@));
        r
    }

    /// Takes one step: what the scan does on an event, and how its state changes.
    pub fn step(&mut self, event: Event) -> (r: Action)
        requires
            old(self).wf(),
            accepts(old(self)@, event@),
        ensures
            final(self).wf(),
            (final(self)@, r@) == next(old(self)@, event@),
    {
        match event {
            Event::Pull => self.ask(),
            Event::Opened { names } => {
                let positions: Vec<Option<usize>> = resolve(&self.needed_names, &names);
                let ghost before: ScanValue = self@;
                self.file = Some(OpenFile { positions, dicts: None });
                assert((self@.open->0).positions =~= resolved(before, texts(names@)));
                self.ask()
            },
            Event::Loaded { symbols } => {
                let ghost before: ScanValue = self@;
                let dicts: Vec<Vec<Cell>> = convert_all(&self.needed_kinds, &symbols);
                match self.file.take() {
                    Some(file) => {
                        let OpenFile { positions, dicts: _ } = file;
                        self.file = Some(OpenFile { positions, dicts: Some(dicts) });
                        assert((self@.open->0).dicts->0 =~= dictionaries(
                            before,
                            symbol_values(symbols@),
                        ));
                    },
                    None => {},
                }
                self.ask()
            },
            Event::Chunk { next } => match next {
                Some((columns, rows)) => if rows > 0 {
                    self.emit(&columns, rows)
                } else {
                    self.close()
                },
                None => self.close(),
            },
        }
    }

    /// Hands out a block of rows.
    fn emit(&self, columns: &Vec<Vec<i64>>, rows: usize) -> (r: Action)
        requires
            self.wf(),
            is_loaded(self@),
            columns@.len() == self@.names.len(),
            rows > 0,
        ensures
            r@ == next(self@, EventValue::Chunk(index_values(columns@), rows as int)).1,
    {
        match &self.file {
            Some(file) => match &file.dicts {
                Some(dicts) => Action::Emit(
                    Pull::Cells { columns: look_up_all(&file.positions, dicts, columns, rows) },
                ),
                None => Action::Emit(Pull::Done),
            },
            None => Action::Emit(Pull::Done),
        }
    }

    /// Leaves the file that has been read to its end.
    fn close(&mut self) -> (r: Action)
        requires
            old(self).wf(),
            accepts(old(self)@, EventValue::End),
        ensures
            final(self).wf(),
            (final(self)@, r@) == next(old(self)@, EventValue::End),
    {
        assert(self.file_idx < self.paths.len());
        self.file = None;
        self.file_idx = self.file_idx + 1;
        self.ask()
    }

    /// What is to be done for the next batch.
    fn ask(&mut self) -> (r: Action)
        requires
            old(self).wf(),
        ensures
            final(self).wf(),
            (final(self)@, r@) == asked(old(self)@),
    {
        if self.needed_kinds.len() == 0 {
            let left: usize = self.num_rows - self.countstar_emitted;
            let n: usize = if left < VECTOR_SIZE {
                left
            } else {
                VECTOR_SIZE
            };
            if n == 0 {
                return Action::Emit(Pull::Done);
            }
            self.countstar_emitted = self.countstar_emitted + n;
            return Action::Emit(Pull::Rows(n));
        }
        match &self.file {
            Some(file) => match &file.dicts {
                Some(_) => Action::Read(VECTOR_SIZE),
                None => Action::Load(copy_positions(&file.positions)),
            },
            None => if self.file_idx < self.paths.len() {
                Action::Open(self.paths[self.file_idx].clone())
            } else {
                Action::Emit(Pull::Done)
            },
        }
    }

    /// The kinds of the columns, in the order in which they are emitted.
    pub fn output_kinds(&self) -> (r: &Vec<Kind>)
        ensures
            r@ == self@.kinds,
    {
        &self.needed_kinds
    }
}

/// The position of the first field of the given name.
fn position(names: &Vec<String>, name: &String) -> (r: Option<usize>)
    ensures
        r matches Some(i) ==> i < names@.len() && position_of(texts(names@), name@) == Some(
            i as int,
        ),
        r is None ==> position_of(texts(names@), name@) is None,
{
    let ghost all: Seq<Seq<char>> = texts(names@);
    let mut i: usize = 0;
    proof {
        assert(all.skip(0) =~= all);
    }
    while i < names.len()
        invariant
            i <= names@.len(),
            all == texts(names@),
            position_of(all, name@) == match position_of(all.skip(i as int), name@) {
                Some(p) => Some(p + i),
                None => None,
            },
        decreases names@.len() - i,
    {
        assert(all.skip(i as int)[0] == names@[i as int]@);
        if names[i] == *name {
            return Some(i);
        }
        assert(all.skip(i as int).drop_first() =~= all.skip(i + 1));
        i = i + 1;
    }
    None
}

/// Converts the symbols of a field for a column.
fn convert_symbols(kind: Kind, symbols: &Vec<QvdSymbol>) -> (r: Vec<Cell>)
    ensures
        cell_values(r@) == dictionary(kind, symbols@),
{
    let mut r: Vec<Cell> = Vec::new();
    let mut i: usize = 0;
    while i < symbols.len()
        invariant
            i <= symbols@.len(),
            r@.len() == i,
            forall|k: int|
                0 <= k < i ==> (#[trigger] r@[k])@ == converted(
                    kind,
                    QvdValue::Symbol(symbols@[k]),
                ),
        decreases symbols@.len() - i,
    {
        let value: QvdValue = QvdValue::Symbol(symbols[i].copied());
        r.push(convert(kind, &value));
        i = i + 1;
    }
    assert(cell_values(r@) =~= dictionary(kind, symbols@));
    r
}

/// Finds columns among the fields of a file, by name.
fn resolve(needed_names: &Vec<String>, names: &Vec<String>) -> (r: Vec<Option<usize>>)
    ensures
        r@.len() == needed_names@.len(),
        position_values(r@) == Seq::new(
            needed_names@.len(),
            |j: int| position_of(texts(names@), texts(needed_names@)[j]),
        ),
{
    let mut r: Vec<Option<usize>> = Vec::new();
    let mut j: usize = 0;
    while j < needed_names.len()
        invariant
            j <= needed_names@.len(),
            r@.len() == j,
            forall|k: int|
                0 <= k < j ==> (match #[trigger] r@[k] {
                    Some(i) => Some(i as int),
                    None => None::<int>,
                }) == position_of(texts(names@), needed_names@[k]@),
        decreases needed_names@.len() - j,
    {
        r.push(position(names, &needed_names[j]));
        j = j + 1;
    }
    assert(position_values(r@) =~= Seq::new(
        needed_names@.len(),
        |j: int| position_of(texts(names@), texts(needed_names@)[j]),
    ));
    r
}

/// A copy of a list of positions.
fn copy_positions(positions: &Vec<Option<usize>>) -> (r: Vec<Option<usize>>)
    ensures
        r@ == positions@,
{
    let mut r: Vec<Option<usize>> = Vec::new();
    let mut j: usize = 0;
    while j < positions.len()
        invariant
            j <= positions@.len(),
            r@ == positions@.take(j as int),
        decreases positions@.len() - j,
    {
        r.push(positions[j]);
        j = j + 1;
    }
    assert(positions@.take(j as int) =~= positions@);
    r
}

/// Of the symbol indices of all fields of a file, those of the fields at the given
/// positions.
pub fn pick(columns: &Vec<Vec<i64>>, positions: &Vec<Option<usize>>) -> (r: Vec<Vec<i64>>)
    requires
        forall|j: int|
            0 <= j < positions@.len() ==> (#[trigger] positions@[j] matches Some(i) ==> i
                < columns@.len()),
    ensures
        index_values(r@) == picked(index_values(columns@), position_values(positions@)),
{
    let mut r: Vec<Vec<i64>> = Vec::new();
    let mut j: usize = 0;
    while j < positions.len()
        invariant
            j <= positions@.len(),
            r@.len() == j,
            forall|j: int|
                0 <= j < positions@.len() ==> (#[trigger] positions@[j] matches Some(i) ==> i
                    < columns@.len()),
            forall|k: int|
                0 <= k < j ==> (#[trigger] r@[k])@ == match positions@[k] {
                    Some(i) => columns@[i as int]@,
                    None => Seq::empty(),
                },
        decreases positions@.len() - j,
    {
        let column: Vec<i64> = match positions[j] {
            Some(i) => copy_indices(&columns[i]),
            None => Vec::new(),
        };
        r.push(column);
        j = j + 1;
    }
    assert(index_values(r@) =~= picked(index_values(columns@), position_values(positions@)));
    r
}

/// A copy of a list of symbol indices.
fn copy_indices(indices: &Vec<i64>) -> (r: Vec<i64>)
    ensures
        r@ == indices@,
{
    let mut r: Vec<i64> = Vec::new();
    let mut i: usize = 0;
    while i < indices.len()
        invariant
            i <= indices@.len(),
            r@ == indices@.take(i as int),
        decreases indices@.len() - i,
    {
        r.push(indices[i]);
        i = i + 1;
    }
    assert(indices@.take(i as int) =~= indices@);
    r
}

/// Converts the symbols of every column.
fn convert_all(kinds: &Vec<Kind>, symbols: &Vec<Vec<QvdSymbol>>) -> (r: Vec<Vec<Cell>>)
    requires
        symbols@.len() == kinds@.len(),
    ensures
        r@.len() == kinds@.len(),
        column_values(r@) == Seq::new(
            kinds@.len(),
            |j: int| dictionary(kinds@[j], symbol_values(symbols@)[j]),
        ),
{
    let mut r: Vec<Vec<Cell>> = Vec::new();
    let mut j: usize = 0;
    while j < kinds.len()
        invariant
            j <= kinds@.len(),
            symbols@.len() == kinds@.len(),
            r@.len() == j,
            forall|k: int|
                0 <= k < j ==> cell_values((#[trigger] r@[k])@) == dictionary(
                    kinds@[k],
                    symbols@[k]@,
                ),
        decreases kinds@.len() - j,
    {
        r.push(convert_symbols(kinds[j], &symbols[j]));
        j = j + 1;
    }
    assert(column_values(r@) =~= Seq::new(
        kinds@.len(),
        |j: int| dictionary(kinds@[j], symbol_values(symbols@)[j]),
    ));
    r
}

/// Looks the indices of one field up in the converted symbols.
fn look_up(dict: &Vec<Cell>, indices: &Vec<i64>) -> (r: Vec<Cell>)
    ensures
        cell_values(r@) == indices@.map_values(|x: i64| looked_up(cell_values(dict@), x)),
{
    let mut r: Vec<Cell> = Vec::new();
    let mut i: usize = 0;
    while i < indices.len()
        invariant
            i <= indices@.len(),
            r@.len() == i,
            forall|k: int|
                0 <= k < i ==> (#[trigger] r@[k])@ == looked_up(cell_values(dict@), indices@[k]),
        decreases indices@.len() - i,
    {
        let index: i64 = indices[i];
        if index < 0 || index as u64 >= dict.len() as u64 {
            r.push(Cell::Null);
        } else {
            r.push(dict[index as usize].copied());
        }
        i = i + 1;
    }
    assert(cell_values(r@) =~= indices@.map_values(|x: i64| looked_up(cell_values(dict@), x)));
    r
}

/// A column of nothing but `NULL`.
fn nulls(rows: usize) -> (r: Vec<Cell>)
    ensures
        cell_values(r@) == Seq::new(rows as nat, |i: int| CellValue::Null),
{
    let mut r: Vec<Cell> = Vec::new();
    let mut i: usize = 0;
    while i < rows
        invariant
            i <= rows,
            r@.len() == i,
            forall|k: int| 0 <= k < i ==> (#[trigger] r@[k])@ == CellValue::Null,
        decreases rows - i,
    {
        r.push(Cell::Null);
        i = i + 1;
    }
    assert(cell_values(r@) =~= Seq::new(rows as nat, |i: int| CellValue::Null));
    r
}

/// The columns of a block of rows.
fn look_up_all(
    positions: &Vec<Option<usize>>,
    dicts: &Vec<Vec<Cell>>,
    columns: &Vec<Vec<i64>>,
    rows: usize,
) -> (r: Vec<Vec<Cell>>)
    requires
        dicts@.len() == positions@.len(),
        columns@.len() == positions@.len(),
    ensures
        column_values(r@) == chunk_columns(
            position_values(positions@),
            column_values(dicts@),
            index_values(columns@),
            rows as int,
        ),
{
    let mut r: Vec<Vec<Cell>> = Vec::new();
    let mut j: usize = 0;
    while j < positions.len()
        invariant
            j <= positions@.len(),
            dicts@.len() == positions@.len(),
            columns@.len() == positions@.len(),
            r@.len() == j,
            forall|k: int|
                0 <= k < j ==> cell_values((#[trigger] r@[k])@) == chunk_column(
                    position_values(positions@)[k],
                    cell_values(dicts@[k]@),
                    columns@[k]@,
                    rows as int,
                ),
        decreases positions@.len() - j,
    {
        let column: Vec<Cell> = match positions[j] {
            Some(_) => look_up(&dicts[j], &columns[j]),
            None => nulls(rows),
        };
        r.push(column);
        j = j + 1;
    }
    assert(column_values(r@) =~= chunk_columns(
        position_values(positions@),
        column_values(dicts@),
        index_values(columns@),
        rows as int,
    ));
    r
}

/// A part of the row counts sums up to no more than all of them.
proof fn lemma_total_grows(records: Seq<usize>, n: int)
    requires
        0 <= n <= records.len(),
    ensures
        0 <= total(records.take(n)) <= total(records),
    decreases records.len(),
{
    if n < records.len() {
        lemma_total_grows(records.drop_last(), n);
        assert(records.drop_last().take(n) =~= records.take(n));
    } else {
        assert(records.take(n) =~= records);
        if records.len() > 0 {
            lemma_total_grows(records.drop_last(), n - 1);
        }
    }
}

/// The rows of files are added up: no files have no rows, one more file adds its rows, and
/// the rows of two lists of files are those of both.
pub proof fn lemma_rows_add_up(a: Seq<usize>, b: Seq<usize>, x: usize)
    ensures
        total(Seq::empty()) == 0,
        total(a.push(x)) == total(a) + x,
        total(a + b) == total(a) + total(b),
    decreases b.len(),
{
    assert(a.push(x).drop_last() =~= a);
    if b.len() == 0 {
        assert(a + b =~= a);
    } else {
        lemma_rows_add_up(a, b.drop_last(), x);
        assert((a + b).drop_last() =~= a + b.drop_last());
        assert((a + b).last() == b.last());
    }
}

/// A projection selects for every index what stands there, in the order of the indices.
pub proof fn lemma_projection_selects<T>(all: Seq<T>, indices: Seq<usize>)
    ensures
        selected(all, indices).len() == indices.len(),
        forall|j: int|
            0 <= j < indices.len() ==> #[trigger] selected(all, indices)[j]
                == all[indices[j] as int],
{
}

/// A symbol index stands for the converted symbol at its place in the table of its field;
/// one that is negative or beyond the table stands for `NULL`.
pub proof fn lemma_indices_stand_for_symbols(kind: Kind, symbols: Seq<QvdSymbol>, index: i64)
    ensures
        dictionary(kind, symbols).len() == symbols.len(),
        0 <= index < symbols.len() ==> looked_up(dictionary(kind, symbols), index) == converted(
            kind,
            QvdValue::Symbol(symbols[index as int]),
        ),
        index < 0 || index >= symbols.len() ==> looked_up(dictionary(kind, symbols), index)
            is Null,
{
}

/// What is picked for a column is what the file holds for its field, and nothing where the
/// file lacks it.
pub proof fn lemma_picks_fields<T>(all: Seq<Seq<T>>, positions: Seq<Option<int>>)
    ensures
        picked(all, positions).len() == positions.len(),
        forall|j: int|
            0 <= j < positions.len() ==> match positions[j] {
                Some(i) => #[trigger] picked(all, positions)[j] == all[i],
                None => picked(all, positions)[j].len() == 0,
            },
{
}

/// A scan reads at most 2048 rows at once, and counts at most 2048.
pub proof fn lemma_batches_are_bounded(s: ScanValue)
    ensures
        asked(s).1 matches ActionValue::Read(size) ==> size == 2048,
        asked(s).1 matches ActionValue::Emit(PullValue::Rows(n)) ==> n <= 2048 && n <= s.num_rows
            - s.counted && (n == 2048 || n == s.num_rows - s.counted),
{
}

/// The cells, indices, symbols and positions in lists are those that the lists hold.
pub proof fn lemma_views_of_lists(
    cells: Seq<Cell>,
    columns: Seq<Vec<Cell>>,
    indices: Seq<Vec<i64>>,
    symbols: Seq<Vec<QvdSymbol>>,
    positions: Seq<Option<usize>>,
)
    ensures
        cell_values(cells).len() == cells.len(),
        forall|i: int| 0 <= i < cells.len() ==> #[trigger] cell_values(cells)[i] == cells[i]@,
        column_values(columns).len() == columns.len(),
        forall|j: int|
            0 <= j < columns.len() ==> (#[trigger] column_values(columns)[j]).len()
                == columns[j]@.len(),
        forall|j: int, i: int|
            0 <= j < columns.len() && 0 <= i < columns[j]@.len() ==> #[trigger] column_values(
                columns,
            )[j][i] == columns[j]@[i]@,
        index_values(indices).len() == indices.len(),
        forall|j: int|
            0 <= j < indices.len() ==> #[trigger] index_values(indices)[j] == indices[j]@,
        symbol_values(symbols).len() == symbols.len(),
        forall|j: int|
            0 <= j < symbols.len() ==> #[trigger] symbol_values(symbols)[j] == symbols[j]@,
        position_values(positions).len() == positions.len(),
        forall|j: int|
            0 <= j < positions.len() ==> match positions[j] {
                Some(i) => #[trigger] position_values(positions)[j] == Some(i as int),
                None => position_values(positions)[j] is None,
            },
{
}

/// What a batch, an action and an event say is what is in them; a block of no rows is the
/// end of its file.
pub proof fn lemma_views_of_messages(pull: Pull, action: Action, event: Event)
    ensures
        match pull {
            Pull::Rows(n) => pull@ == PullValue::Rows(n as int),
            Pull::Cells { columns } => pull@ == PullValue::Cells(column_values(columns@)),
            Pull::Done => pull@ is Done,
        },
        match action {
            Action::Open(path) => action@ == ActionValue::Open(path@),
            Action::Load(positions) => action@ == ActionValue::Load(position_values(positions@)),
            Action::Read(n) => action@ == ActionValue::Read(n as int),
            Action::Emit(p) => action@ == ActionValue::Emit(p@),
        },
        match event {
            Event::Pull => event@ is Pull,
            Event::Opened { names } => event@ == EventValue::Opened(texts(names@)),
            Event::Loaded { symbols } => event@ == EventValue::Loaded(symbol_values(symbols@)),
            Event::Chunk { next: Some((columns, rows)) } => if rows == 0 {
                event@ is End
            } else {
                event@ == EventValue::Chunk(index_values(columns@), rows as int)
            },
            Event::Chunk { next: None } => event@ is End,
        },
{
}

/// A scan opens its files one after the other: whatever happens, the file that it asks for
/// is the one behind those that it has read, a file is left only at its end, and what is
/// scanned stays the same.
pub proof fn lemma_files_are_opened_in_order(s: ScanValue, event: EventValue)
    ensures
        next(s, event).1 matches ActionValue::Open(path) ==> path == s.paths[next(s, event).0.file]
            && next(s, event).0.file < s.paths.len(),
        next(s, event).0.file == if event is End {
            s.file + 1
        } else {
            s.file
        },
        next(s, event).0.paths == s.paths,
        next(s, event).0.names == s.names,
        next(s, event).0.kinds == s.kinds,
        next(s, event).0.num_rows == s.num_rows,
{
}

} // verus!
