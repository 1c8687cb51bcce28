//! Columnar trace storage: one typed vector per field.
use vstd::prelude::*;

use crate::diff_store::lemma_change_points_ordered;
use crate::entry::{byte_value, entries_view, word_value, FieldValue, FieldValueView, TraceEntry};
use crate::error::Error;
use crate::header::{HeaderView, TraceHeader, Trigger};
use crate::profile::{field_type, type_of_field, FieldType};
use crate::query::{
    bits_ok, condition_of, entry_get, lemma_parsed_shape, number_of, parse_condition, parse_number,
    Condition, ConditionShape,
};
use crate::text::{chars_of, str_eq};

verus! {

// ---------------------------------------------------------------------------
// Cells and columns
// ---------------------------------------------------------------------------

/// One stored value.
pub enum Cell {
    Num(u64),
    Flag(bool),
    Text(Seq<char>),
}

/// A value read as a number: flags are 1 or 0, texts 0.
pub open spec fn cell_num(c: Cell) -> u64 {
    match c {
        Cell::Num(n) => n,
        Cell::Flag(b) => if b {
            1
        } else {
            0
        },
        Cell::Text(_) => 0,
    }
}

/// A value read as a flag: numbers are set when non-zero, texts clear.
pub open spec fn cell_flag(c: Cell) -> bool {
    match c {
        Cell::Num(n) => n != 0,
        Cell::Flag(b) => b,
        Cell::Text(_) => false,
    }
}

/// The value stored when a number is pushed into a column of a type.
pub open spec fn cell_of_num(kind: FieldType, v: u64) -> Cell {
    match kind {
        FieldType::UInt64 => Cell::Num(v),
        FieldType::UInt16 => Cell::Num((v as u16) as u64),
        FieldType::UInt8 => Cell::Num((v as u8) as u64),
        FieldType::Bool => Cell::Flag(v != 0),
        FieldType::Str => Cell::Text(Seq::empty()),
    }
}

/// The value stored when a flag is pushed into a column of a type.
pub open spec fn cell_of_flag(kind: FieldType, v: bool) -> Cell {
    match kind {
        FieldType::Bool => Cell::Flag(v),
        FieldType::Str => Cell::Text(Seq::empty()),
        _ => Cell::Num(
            if v {
                1
            } else {
                0
            },
        ),
    }
}

/// The mathematical value of a column: its type and its values.
pub struct ColumnView {
    pub kind: FieldType,
    pub cells: Seq<Cell>,
}

/// A column with one more value.
pub open spec fn pushed(c: ColumnView, v: Cell) -> ColumnView {
    ColumnView { kind: c.kind, cells: c.cells.push(v) }
}

/// Whether reading numbers or flags at `row` stays within the column:
/// text columns are never indexed for those.
pub open spec fn col_readable(c: ColumnView, row: int) -> bool {
    c.kind == FieldType::Str || (0 <= row < c.cells.len())
}

/// A column's value at `row` read as a number (`ColumnData::get_numeric`).
pub open spec fn col_num(c: ColumnView, row: int) -> u64 {
    if c.kind == FieldType::Str {
        0
    } else {
        cell_num(c.cells[row])
    }
}

/// A column's value at `row` read as a flag (`ColumnData::get_bool`).
pub open spec fn col_flag(c: ColumnView, row: int) -> bool {
    if c.kind == FieldType::Str {
        false
    } else {
        cell_flag(c.cells[row])
    }
}

/// A column's value at `row` read as text (`ColumnData::get_str`).
pub open spec fn col_text(c: ColumnView, row: int) -> Seq<char> {
    if c.kind == FieldType::Str {
        match c.cells[row] {
            Cell::Text(t) => t,
            _ => Seq::empty(),
        }
    } else {
        Seq::empty()
    }
}

/// Whether every value of a column has the form its type stores.
pub open spec fn col_well_typed(c: ColumnView) -> bool {
    forall|i: int|
        0 <= i < c.cells.len() ==> match (c.kind, #[trigger] c.cells[i]) {
            (FieldType::UInt64, Cell::Num(_)) => true,
            (FieldType::UInt16, Cell::Num(n)) => n <= 0xffff,
            (FieldType::UInt8, Cell::Num(n)) => n <= 0xff,
            (FieldType::Bool, Cell::Flag(_)) => true,
            (FieldType::Str, Cell::Text(_)) => true,
            _ => false,
        }
}

/// A single typed column of trace data.
pub enum ColumnData {
    U64(Vec<u64>),
    U16(Vec<u16>),
    U8(Vec<u8>),
    Bool(Vec<bool>),
    Str(Vec<String>),
}

impl View for ColumnData {
    type V = ColumnView;

    open spec fn view(&self) -> ColumnView {
        match self {
            ColumnData::U64(v) => ColumnView {
                kind: FieldType::UInt64,
                cells: Seq::new(v@.len(), |i: int| Cell::Num(v@[i])),
            },
            ColumnData::U16(v) => ColumnView {
                kind: FieldType::UInt16,
                cells: Seq::new(v@.len(), |i: int| Cell::Num(v@[i] as u64)),
            },
            ColumnData::U8(v) => ColumnView {
                kind: FieldType::UInt8,
                cells: Seq::new(v@.len(), |i: int| Cell::Num(v@[i] as u64)),
            },
            ColumnData::Bool(v) => ColumnView {
                kind: FieldType::Bool,
                cells: Seq::new(v@.len(), |i: int| Cell::Flag(v@[i])),
            },
            ColumnData::Str(v) => ColumnView {
                kind: FieldType::Str,
                cells: Seq::new(v@.len(), |i: int| Cell::Text(v@[i]@)),
            },
        }
    }
}

impl ColumnData {
    fn with_capacity(ft: FieldType, cap: usize) -> (r: ColumnData)
        ensures
            r@.kind == ft,
            r@.cells.len() == 0,
    {
        match ft {
            FieldType::UInt64 => ColumnData::U64(Vec::with_capacity(cap)),
            FieldType::UInt16 => ColumnData::U16(Vec::with_capacity(cap)),
            FieldType::UInt8 => ColumnData::U8(Vec::with_capacity(cap)),
            FieldType::Bool => ColumnData::Bool(Vec::with_capacity(cap)),
            FieldType::Str => ColumnData::Str(Vec::with_capacity(cap)),
        }
    }

    /// The number of values in this column.
    pub fn len(&self) -> (r: usize)
        ensures
            r == self@.cells.len(),
    {
        match self {
            ColumnData::U64(v) => v.len(),
            ColumnData::U16(v) => v.len(),
            ColumnData::U8(v) => v.len(),
            ColumnData::Bool(v) => v.len(),
            ColumnData::Str(v) => v.len(),
        }
    }

    /// Every value of this column has the form its type stores.
    pub proof fn lemma_well_typed(&self)
        ensures
            col_well_typed(self@),
    {
    }

    /// Read a value as u64 regardless of stored width.
    pub fn get_numeric(&self, row: usize) -> (r: u64)
        requires
            col_readable(self@, row as int),
        ensures
            r == col_num(self@, row as int),
    {
        match self {
            ColumnData::U64(v) => v[row],
            ColumnData::U16(v) => v[row] as u64,
            ColumnData::U8(v) => v[row] as u64,
            ColumnData::Bool(v) => if v[row] {
                1
            } else {
                0
            },
            ColumnData::Str(_) => 0,
        }
    }

    /// Read a value as a flag.
    pub fn get_bool(&self, row: usize) -> (r: bool)
        requires
            col_readable(self@, row as int),
        ensures
            r == col_flag(self@, row as int),
    {
        match self {
            ColumnData::Bool(v) => v[row],
            ColumnData::Str(_) => false,
            ColumnData::U64(v) => v[row] != 0,
            ColumnData::U16(v) => v[row] != 0,
            ColumnData::U8(v) => v[row] != 0,
        }
    }

    /// Read a value as text (empty for columns that are not text).
    pub fn get_str(&self, row: usize) -> (r: &str)
        requires
            self@.kind == FieldType::Str ==> row < self@.cells.len(),
        ensures
            r@ == col_text(self@, row as int),
    {
        match self {
            ColumnData::Str(v) => v[row].as_str(),
            _ => {
                proof {
                    reveal_strlit("");
                }
                ""
            },
        }
    }

    fn push_num(&mut self, val: u64)
        ensures
            final(self)@ == pushed(old(self)@, cell_of_num(old(self)@.kind, val)),
    {
        match self {
            ColumnData::U64(v) => {
                v.push(val);
            },
            ColumnData::U16(v) => {
                v.push(val as u16);
            },
            ColumnData::U8(v) => {
                v.push(val as u8);
            },
            ColumnData::Bool(v) => {
                v.push(val != 0);
            },
            ColumnData::Str(v) => {
                v.push(String::new());
            },
        }
        assert(self@.cells =~= old(self)@.cells.push(cell_of_num(old(self)@.kind, val)));
    }

    fn push_flag(&mut self, val: bool)
        ensures
            final(self)@ == pushed(old(self)@, cell_of_flag(old(self)@.kind, val)),
    {
        match self {
            ColumnData::Bool(v) => {
                v.push(val);
            },
            ColumnData::U8(v) => {
                v.push(if val {
                    1
                } else {
                    0
                });
            },
            ColumnData::U16(v) => {
                v.push(if val {
                    1
                } else {
                    0
                });
            },
            ColumnData::U64(v) => {
                v.push(if val {
                    1
                } else {
                    0
                });
            },
            ColumnData::Str(v) => {
                v.push(String::new());
            },
        }
        assert(self@.cells =~= old(self)@.cells.push(cell_of_flag(old(self)@.kind, val)));
    }

    fn push_text(&mut self, val: &str)
        ensures
            final(self)@ == (if old(self)@.kind == FieldType::Str {
                pushed(old(self)@, Cell::Text(val@))
            } else {
                old(self)@
            }),
    {
        match self {
            ColumnData::Str(v) => {
                v.push(val.to_string());
                assert(self@.cells =~= old(self)@.cells.push(Cell::Text(val@)));
            },
            _ => {},
        }
    }
}


// ---------------------------------------------------------------------------
// The table model
// ---------------------------------------------------------------------------

/// The index of the last field named `name`: the index a map from field
/// names to indices holds when built in field order.
pub open spec fn last_named(names: Seq<Seq<char>>, name: Seq<char>) -> Option<int>
    decreases names.len(),
{
    if names.len() == 0 {
        None
    } else if names.last() == name {
        Some(names.len() - 1)
    } else {
        last_named(names.drop_last(), name)
    }
}

/// The mathematical value of a [`ColumnStore`]: the header, one column
/// per field, and the number of completed rows.
pub struct TableView {
    pub header: HeaderView,
    pub columns: Seq<ColumnView>,
    pub rows: nat,
}

impl TableView {
    /// The column of the field named `name`.
    pub open spec fn col_of(self, name: Seq<char>) -> Option<int> {
        last_named(self.header.fields, name)
    }

    /// The value at (`c`, `r`) read as a number.
    pub open spec fn num(self, c: int, r: int) -> u64 {
        col_num(self.columns[c], r)
    }

    /// The value of field `name` at row `r` read as a number.
    pub open spec fn numeric_named(self, name: Seq<char>, r: int) -> Option<u64> {
        match self.col_of(name) {
            Some(c) => Some(self.num(c, r)),
            None => None,
        }
    }

    /// The value of field `name` at row `r` truncated to 8 bits.
    pub open spec fn u8_named(self, name: Seq<char>, r: int) -> Option<u8> {
        match self.numeric_named(name, r) {
            Some(v) => Some(v as u8),
            None => None,
        }
    }

    /// The value of field `name` at row `r` truncated to 16 bits.
    pub open spec fn u16_named(self, name: Seq<char>, r: int) -> Option<u16> {
        match self.numeric_named(name, r) {
            Some(v) => Some(v as u16),
            None => None,
        }
    }

    /// The value of field `name` at row `r` read as a flag.
    pub open spec fn bool_named(self, name: Seq<char>, r: int) -> Option<bool> {
        match self.col_of(name) {
            Some(c) => Some(col_flag(self.columns[c], r)),
            None => None,
        }
    }

    /// Whether reading numbers or flags at row `r` stays within every column.
    pub open spec fn readable_row(self, r: int) -> bool {
        forall|c: int| 0 <= c < self.columns.len() ==> col_readable(#[trigger] self.columns[c], r)
    }

    /// Whether every column that is not text holds a value for each
    /// completed row.
    pub open spec fn full(self) -> bool {
        forall|c: int|
            0 <= c < self.columns.len() ==> (#[trigger] self.columns[c]).kind == FieldType::Str
                || self.columns[c].cells.len() >= self.rows
    }

    /// The store's invariant: one column per field, each of the type the
    /// field's name has.
    pub open spec fn wf(self) -> bool {
        &&& self.columns.len() == self.header.fields.len()
        &&& forall|c: int|
            0 <= c < self.columns.len() ==> (#[trigger] self.columns[c]).kind == type_of_field(
                self.header.fields[c],
            )
    }

    /// The table with one more value in column `c`.
    pub open spec fn with_cell(self, c: int, v: Cell) -> TableView {
        TableView {
            header: self.header,
            columns: self.columns.update(c, pushed(self.columns[c], v)),
            rows: self.rows,
        }
    }
}

/// Columnar trace storage. One contiguous `Vec` per field.
pub struct ColumnStore {
    header: TraceHeader,
    columns: Vec<ColumnData>,
    len: usize,
}

/// The views of a list of columns.
pub open spec fn columns_view(cs: Seq<ColumnData>) -> Seq<ColumnView> {
    Seq::new(cs.len(), |i: int| cs[i]@)
}

impl ColumnStore {
    /// The mathematical value of this store.
    pub closed spec fn table(&self) -> TableView {
        TableView { header: self.header@, columns: columns_view(self.columns@), rows: self.len as nat }
    }

    /// The number of rows fits in a `usize`.
    pub proof fn lemma_rows_fit(&self)
        ensures
            self.table().rows <= usize::MAX,
    {
    }

    /// The store's invariant (see [`TableView::wf`]).
    pub open spec fn wf(&self) -> bool {
        self.table().wf()
    }

    /// Create an empty store with the given header, pre-allocating for
    /// `capacity` rows.
    pub fn with_capacity(header: TraceHeader, capacity: usize) -> (r: ColumnStore)
        ensures
            r.wf(),
            r.table().header == header@,
            r.table().rows == 0,
            forall|c: int| 0 <= c < r.table().columns.len() ==> (#[trigger] r.table().columns[c]).cells.len() == 0,
    {
        let mut columns: Vec<ColumnData> = Vec::new();
        let mut i: usize = 0;
        while i < header.fields.len()
            invariant
                0 <= i <= header.fields@.len(),
                columns@.len() == i,
                forall|c: int|
                    0 <= c < i ==> (#[trigger] columns@[c])@.kind == type_of_field(header.fields@[c]@)
                        && columns@[c]@.cells.len() == 0,
            decreases header.fields@.len() - i,
        {
            let ft = field_type(header.fields[i].as_str());
            columns.push(ColumnData::with_capacity(ft, capacity));
            i += 1;
        }
        ColumnStore { header, columns, len: 0 }
    }

    /// Create an empty store.
    pub fn new(header: TraceHeader) -> (r: ColumnStore)
        ensures
            r.wf(),
            r.table().header == header@,
            r.table().rows == 0,
            forall|c: int| 0 <= c < r.table().columns.len() ==> (#[trigger] r.table().columns[c]).cells.len() == 0,
    {
        Self::with_capacity(header, 0)
    }

    // --- Appending ---

    /// Push a u64 value to a column by index (converted to the column's type).
    pub fn push_u64(&mut self, col: usize, val: u64)
        requires
            col < old(self).table().columns.len(),
        ensures
            final(self).table() == old(self).table().with_cell(
                col as int,
                cell_of_num(old(self).table().columns[col as int].kind, val),
            ),
            old(self).wf() ==> final(self).wf(),
    {
        let ghost t0 = self.table();
        self.columns[col].push_num(val);
        assert(self.table().columns =~= t0.columns.update(
            col as int,
            pushed(t0.columns[col as int], cell_of_num(t0.columns[col as int].kind, val)),
        ));
    }

    /// Push a u16 value to a column by index (converted to the column's type).
    pub fn push_u16(&mut self, col: usize, val: u16)
        requires
            col < old(self).table().columns.len(),
        ensures
            final(self).table() == old(self).table().with_cell(
                col as int,
                cell_of_num(old(self).table().columns[col as int].kind, val as u64),
            ),
            old(self).wf() ==> final(self).wf(),
    {
        self.push_u64(col, val as u64);
    }

    /// Push a u8 value to a column by index (converted to the column's type).
    pub fn push_u8(&mut self, col: usize, val: u8)
        requires
            col < old(self).table().columns.len(),
        ensures
            final(self).table() == old(self).table().with_cell(
                col as int,
                cell_of_num(old(self).table().columns[col as int].kind, val as u64),
            ),
            old(self).wf() ==> final(self).wf(),
    {
        self.push_u64(col, val as u64);
    }

    /// Push a bool value to a column by index (converted to the column's type).
    pub fn push_bool(&mut self, col: usize, val: bool)
        requires
            col < old(self).table().columns.len(),
        ensures
            final(self).table() == old(self).table().with_cell(
                col as int,
                cell_of_flag(old(self).table().columns[col as int].kind, val),
            ),
            old(self).wf() ==> final(self).wf(),
    {
        let ghost t0 = self.table();
        self.columns[col].push_flag(val);
        assert(self.table().columns =~= t0.columns.update(
            col as int,
            pushed(t0.columns[col as int], cell_of_flag(t0.columns[col as int].kind, val)),
        ));
    }

    /// Push a string value to a column by index; only text columns take it.
    pub fn push_str(&mut self, col: usize, val: &str)
        requires
            col < old(self).table().columns.len(),
        ensures
            final(self).table() == (if old(self).table().columns[col as int].kind == FieldType::Str {
                old(self).table().with_cell(col as int, Cell::Text(val@))
            } else {
                old(self).table()
            }),
            old(self).wf() ==> final(self).wf(),
    {
        let ghost t0 = self.table();
        self.columns[col].push_text(val);
        proof {
            if t0.columns[col as int].kind == FieldType::Str {
                assert(self.table().columns =~= t0.columns.update(
                    col as int,
                    pushed(t0.columns[col as int], Cell::Text(val@)),
                ));
            } else {
                assert(self.table().columns =~= t0.columns);
            }
        }
    }

    /// Mark a row as complete. Call after pushing all columns for a row.
    pub fn finish_row(&mut self)
        requires
            old(self).table().rows < usize::MAX,
        ensures
            final(self).table() == (TableView { rows: old(self).table().rows + 1, ..old(self).table() }),
            old(self).wf() ==> final(self).wf(),
    {
        self.len = self.len + 1;
    }

    // --- Access ---

    /// The trace header.
    pub fn header(&self) -> (r: &TraceHeader)
        ensures
            r@ == self.table().header,
    {
        &self.header
    }

    /// The number of completed rows.
    pub fn entry_count(&self) -> (r: usize)
        ensures
            r == self.table().rows,
    {
        self.len
    }

    /// Get the column index for a field name (the last field of that name).
    pub fn field_col(&self, name: &str) -> (r: Option<usize>)
        ensures
            match r {
                Some(c) => self.table().col_of(name@) == Some(c as int),
                None => self.table().col_of(name@) is None,
            },
    {
        let fields = &self.header.fields;
        let ghost names = self.table().header.fields;
        assert(names == crate::header::string_texts(fields@));
        let mut i: usize = fields.len();
        assert(names.take(i as int) =~= names);
        while i > 0
            invariant
                0 <= i <= fields@.len(),
                names == crate::header::string_texts(fields@),
                names == self.table().header.fields,
                last_named(names, name@) == last_named(names.take(i as int), name@),
            decreases i,
        {
            assert(names.take(i as int).drop_last() =~= names.take(i - 1));
            assert(names.take(i as int).last() == fields@[i - 1]@);
            if str_eq(fields[i - 1].as_str(), name) {
                return Some(i - 1);
            }
            i -= 1;
        }
        None
    }

    /// Get a column by index.
    pub fn column(&self, col: usize) -> (r: &ColumnData)
        requires
            col < self.table().columns.len(),
        ensures
            r@ == self.table().columns[col as int],
    {
        &self.columns[col]
    }

    /// Get cycle count for a row (0 when there is no `cy` field).
    pub fn cy(&self, row: usize) -> (r: u64)
        requires
            self.wf(),
            self.table().readable_row(row as int),
        ensures
            r == match self.table().numeric_named("cy"@, row as int) {
                Some(v) => v,
                None => 0,
            },
    {
        match self.get_numeric_named("cy", row) {
            Some(v) => v,
            None => 0,
        }
    }

    fn get_numeric_at(&self, col: usize, row: usize) -> (r: u64)
        requires
            col < self.table().columns.len(),
            self.table().readable_row(row as int),
        ensures
            r == self.table().num(col as int, row as int),
    {
        assert(col_readable(self.table().columns[col as int], row as int));
        self.columns[col].get_numeric(row)
    }

    /// Get a numeric value by field name.
    pub fn get_numeric_named(&self, name: &str, row: usize) -> (r: Option<u64>)
        requires
            self.wf(),
            self.table().readable_row(row as int),
        ensures
            r == self.table().numeric_named(name@, row as int),
    {
        match self.field_col(name) {
            Some(col) => {
                proof {
                    lemma_last_named_bound(self.table().header.fields, name@);
                }
                Some(self.get_numeric_at(col, row))
            },
            None => None,
        }
    }
}

/// The index `last_named` reports names a field of the list.
pub proof fn lemma_last_named_bound(names: Seq<Seq<char>>, name: Seq<char>)
    ensures
        last_named(names, name) matches Some(c) ==> 0 <= c < names.len() && names[c] == name,
    decreases names.len(),
{
    if names.len() > 0 && names.last() != name {
        lemma_last_named_bound(names.drop_last(), name);
    }
}


// ---------------------------------------------------------------------------
// Row selections and transforms (specification)
// ---------------------------------------------------------------------------

/// The first `i` in `[0, n)` with `p(i)`.
pub open spec fn first_where(n: int, p: spec_fn(int) -> bool) -> Option<int>
    decreases n,
{
    if n <= 0 {
        None
    } else {
        match first_where(n - 1, p) {
            Some(i) => Some(i),
            None => if p(n - 1) {
                Some(n - 1)
            } else {
                None
            },
        }
    }
}

/// The rows `a`, `a + 1`, ..., `b - 1`.
pub open spec fn row_range(a: int, b: int) -> Seq<int> {
    Seq::new((b - a) as nat, |k: int| a + k)
}

/// The values column `c` holds after copying the rows `sel` numerically.
pub open spec fn copied_cells(t: TableView, c: int, sel: Seq<int>, n: int) -> Seq<Cell> {
    Seq::new(n as nat, |k: int| cell_of_num(t.columns[c].kind, t.num(c, sel[k])))
}

/// A store built from the rows `sel` of `t`, each value pushed as a number
/// (text values become empty).
pub open spec fn copy_rows(t: TableView, sel: Seq<int>) -> TableView {
    TableView {
        header: t.header,
        columns: Seq::new(
            t.columns.len(),
            |c: int| ColumnView { kind: t.columns[c].kind, cells: copied_cells(t, c, sel, sel.len() as int) },
        ),
        rows: sel.len(),
    }
}

/// The rows where the value of column `c` differs from the row before,
/// with row 0, among the first `n` rows.
pub open spec fn change_points(t: TableView, c: int, n: int) -> Seq<int>
    decreases n,
{
    if n <= 0 {
        Seq::empty()
    } else if n == 1 {
        seq![0]
    } else if t.num(c, n - 1) != t.num(c, n - 2) {
        change_points(t, c, n - 1).push(n - 1)
    } else {
        change_points(t, c, n - 1)
    }
}

/// `ColumnStore::collapse_to_instructions`: keep the first row of each run
/// of rows with the same PC.
pub open spec fn collapse_of(t: TableView) -> Result<TableView, Seq<char>> {
    match t.col_of("pc"@) {
        None => Err("no pc field for collapse"@),
        Some(pc) => Ok(copy_rows(t, change_points(t, pc, t.rows as int))),
    }
}

/// Along the rows before `n`, the values of column `c` at consecutive
/// change points differ, and every row from the last change point on has
/// its value.
proof fn lemma_change_points_runs(t: TableView, c: int, n: int)
    requires
        n >= 1,
    ensures
        change_points(t, c, n).len() >= 1,
        change_points(t, c, n)[0] == 0,
        forall|k: int|
            0 <= k < change_points(t, c, n).len() - 1 ==> t.num(c, #[trigger] change_points(t, c, n)[k + 1])
                != t.num(c, change_points(t, c, n)[k]),
        forall|i: int|
            change_points(t, c, n).last() <= i < n ==> #[trigger] t.num(c, i) == t.num(
                c,
                change_points(t, c, n).last(),
            ),
        0 <= change_points(t, c, n).last() < n,
    decreases n,
{
    if n > 1 {
        lemma_change_points_runs(t, c, n - 1);
        let prev = change_points(t, c, n - 1);
        let cur = change_points(t, c, n);
        if t.num(c, n - 1) != t.num(c, n - 2) {
            assert(cur == prev.push(n - 1));
            assert(t.num(c, n - 2) == t.num(c, prev.last()));
            assert forall|k: int| 0 <= k < cur.len() - 1 implies t.num(c, #[trigger] cur[k + 1]) != t.num(c, cur[k]) by {
                if k < prev.len() - 1 {
                    assert(cur[k + 1] == prev[k + 1]);
                    assert(cur[k] == prev[k]);
                } else {
                    assert(cur[k] == prev.last());
                }
            }
        } else {
            assert(cur == prev);
            assert(t.num(c, n - 2) == t.num(c, prev.last()));
        }
    }
}

/// When consecutive rows always differ, every row is a change point.
proof fn lemma_all_change(t: TableView, c: int, n: int)
    requires
        0 <= n,
        forall|k: int| 0 < k < n ==> #[trigger] t.num(c, k) != t.num(c, k - 1),
    ensures
        change_points(t, c, n) == row_range(0, n),
    decreases n,
{
    if n > 1 {
        lemma_all_change(t, c, n - 1);
        assert(t.num(c, n - 1) != t.num(c, (n - 1) - 1));
        assert(change_points(t, c, n) == change_points(t, c, n - 1).push(n - 1));
        assert(row_range(0, n) =~= row_range(0, n - 1).push(n - 1));
    } else if n == 1 {
        assert(change_points(t, c, n) =~= row_range(0, n));
    } else {
        assert(change_points(t, c, n) =~= row_range(0, n));
    }
}

/// A number stored as a cell of a type reads back as itself when it has
/// the form that type stores.
proof fn lemma_cell_round(kind: FieldType, v: u64)
    ensures
        cell_of_num(kind, cell_num(cell_of_num(kind, v))) == cell_of_num(kind, v),
{
    match kind {
        FieldType::UInt16 => {
            assert(((((v as u16) as u64) as u16) as u64) == ((v as u16) as u64)) by (bit_vector);
        },
        FieldType::UInt8 => {
            assert(((((v as u8) as u64) as u8) as u64) == ((v as u8) as u64)) by (bit_vector);
        },
        _ => {},
    }
}

/// In a trace collapsed to instructions no two consecutive rows share a
/// PC, so collapsing it again changes nothing.
pub proof fn law_collapse_idempotent(t: TableView, pc: int)
    requires
        t.col_of("pc"@) == Some(pc),
        0 <= pc < t.columns.len(),
        col_well_typed(t.columns[pc]),
        t.columns[pc].kind == FieldType::Str || t.columns[pc].cells.len() >= t.rows,
    ensures
        collapse_of(t) matches Ok(t1) ==> collapse_of(t1) == Ok::<TableView, Seq<char>>(t1),
        collapse_of(t) matches Ok(t1) ==> forall|k: int| 0 < k < t1.rows ==> #[trigger] t1.num(pc, k) != t1.num(pc, k - 1),
{
    let cp = change_points(t, pc, t.rows as int);
    let t1 = copy_rows(t, cp);
    assert(collapse_of(t) == Ok::<TableView, Seq<char>>(t1));
    let m = cp.len() as int;
    assert(t1.col_of("pc"@) == Some(pc));
    lemma_change_points_ordered(t, pc, t.rows as int);
    let kind = t.columns[pc].kind;
    // Reading the PC of a collapsed row gives the PC of its source row.
    assert forall|k: int| 0 <= k < m implies #[trigger] t1.num(pc, k) == t.num(pc, cp[k]) by {
        let r = cp[k];
        assert(0 <= r < t.rows);
        if kind != FieldType::Str {
            let cell = t.columns[pc].cells[r];
            assert(col_well_typed(t.columns[pc]));
            assert(match (kind, cell) {
                (FieldType::UInt64, Cell::Num(_)) => true,
                (FieldType::UInt16, Cell::Num(n)) => n <= 0xffff,
                (FieldType::UInt8, Cell::Num(n)) => n <= 0xff,
                (FieldType::Bool, Cell::Flag(_)) => true,
                (FieldType::Str, Cell::Text(_)) => true,
                _ => false,
            });
            let v = t.num(pc, r);
            if kind == FieldType::UInt16 {
                assert(((v as u16) as u64) == v) by (bit_vector)
                    requires
                        v <= 0xffff,
                ;
            } else if kind == FieldType::UInt8 {
                assert(((v as u8) as u64) == v) by (bit_vector)
                    requires
                        v <= 0xff,
                ;
            }
        }
    }
    if m >= 1 {
        lemma_change_points_runs(t, pc, t.rows as int);
    }
    assert forall|k: int| 0 < k < m implies #[trigger] t1.num(pc, k) != t1.num(pc, k - 1) by {
        assert(t1.num(pc, k) == t.num(pc, cp[k]));
        assert(t1.num(pc, k - 1) == t.num(pc, cp[k - 1]));
        assert(t.num(pc, cp[(k - 1) + 1]) != t.num(pc, cp[k - 1]));
    }
    lemma_all_change(t1, pc, m);
    let t2 = copy_rows(t1, row_range(0, m));
    assert forall|c: int| 0 <= c < t1.columns.len() implies (#[trigger] t2.columns[c]) == t1.columns[c] by {
        assert forall|k: int| 0 <= k < m implies t2.columns[c].cells[k] == t1.columns[c].cells[k] by {
            let v = t.num(c, cp[k]);
            lemma_cell_round(t.columns[c].kind, v);
        }
        assert(t2.columns[c].cells =~= t1.columns[c].cells);
    }
    assert(t2.columns =~= t1.columns);
    assert(t2 == t1);
}

/// Whether the PC (truncated to 16 bits) at row `i` is `target`.
pub open spec fn pc_is(t: TableView, pc: int, target: u16) -> spec_fn(int) -> bool {
    |i: int| (t.num(pc, i) as u16) == target
}

/// `ColumnStore::skip_to_pc`: drop the rows before the first with PC `target`.
pub open spec fn skip_to_pc_of(t: TableView, target: u16) -> Result<TableView, Seq<char>> {
    match t.col_of("pc"@) {
        None => Err("no pc field"@),
        Some(pc) => match first_where(t.rows as int, pc_is(t, pc, target)) {
            None => Err("PC 0x"@ + crate::text::hex_text(target as nat, 4) + " not found"@),
            Some(start) => Ok(copy_rows(t, row_range(start, t.rows as int))),
        },
    }
}

/// Whether row `i` satisfies a sync test: a bitmask test `(v & val) != 0`
/// or an equality `v == val`.
pub open spec fn sync_test(t: TableView, c: int, is_mask: bool, val: u64) -> spec_fn(int) -> bool {
    |i: int|
        if is_mask {
            (t.num(c, i) & val) != 0
        } else {
            t.num(c, i) == val
        }
}

/// The value of a sync condition: hexadecimal after `0x`, else decimal.
pub open spec fn sync_value_of(value: Seq<char>) -> Option<nat> {
    if crate::text::has_prefix(value, "0x"@) {
        crate::text::parse_unsigned(value.skip(2), 16, u64::MAX as nat)
    } else {
        crate::text::parse_unsigned(value, 10, u64::MAX as nat)
    }
}

/// `ColumnStore::skip_until`: drop the rows before the first that matches
/// `field&mask` (a bit of the mask set) or `field=value`.
pub open spec fn skip_until_of(t: TableView, cond: Seq<char>) -> Result<TableView, Seq<char>> {
    let amp = crate::text::find_char(cond, '&');
    let eq = crate::text::find_char(cond, '=');
    if amp is None && eq is None {
        Err("invalid sync condition: "@ + cond)
    } else {
        let is_mask = amp is Some;
        let pos = if is_mask {
            amp.unwrap()
        } else {
            eq.unwrap()
        };
        let field = cond.take(pos);
        let value = cond.skip(pos + 1);
        match sync_value_of(value) {
            None => Err("invalid value: "@ + value),
            Some(val) => match t.col_of(field) {
                None => Err("field '"@ + field + "' not found"@),
                Some(c) => match first_where(t.rows as int, sync_test(t, c, is_mask, val as u64)) {
                    None => Err("sync condition '"@ + cond + "' never matched"@),
                    Some(start) => Ok(copy_rows(t, row_range(start, t.rows as int))),
                },
            },
        }
    }
}

/// Aligning two tables at their first common PC: if the first PCs differ,
/// look for the other table's first PC among the first 100 rows of each
/// (first in `a`, then in `b`) and skip both to it.
pub open spec fn align_pc_of(a: TableView, b: TableView) -> Result<(TableView, TableView), Seq<char>> {
    match (a.col_of("pc"@), b.col_of("pc"@)) {
        (Some(ca), Some(cb)) => if a.rows > 0 && b.rows > 0 {
            let pa = a.num(ca, 0) as u16;
            let pb = b.num(cb, 0) as u16;
            if pa == pb {
                Ok((a, b))
            } else {
                let target = if first_where(
                    if a.rows < 100 {
                        a.rows as int
                    } else {
                        100
                    },
                    pc_is(a, ca, pb),
                ) is Some {
                    Some(pb)
                } else if first_where(
                    if b.rows < 100 {
                        b.rows as int
                    } else {
                        100
                    },
                    pc_is(b, cb, pa),
                ) is Some {
                    Some(pa)
                } else {
                    None
                };
                match target {
                    None => Ok((a, b)),
                    Some(tp) => {
                        let a2 = if pa != tp {
                            skip_to_pc_of(a, tp)
                        } else {
                            Ok(a)
                        };
                        match a2 {
                            Err(m) => Err(m),
                            Ok(a2) => {
                                let b2 = if pb != tp {
                                    skip_to_pc_of(b, tp)
                                } else {
                                    Ok(b)
                                };
                                match b2 {
                                    Err(m) => Err(m),
                                    Ok(b2) => Ok((a2, b2)),
                                }
                            },
                        }
                    },
                }
            }
        } else {
            Ok((a, b))
        },
        _ => Ok((a, b)),
    }
}

/// `ColumnStore::prepare_for_diff_with_sync`: collapse a T-cycle trace to
/// instructions when the other is not T-cycle, then align by the sync
/// mode (`"pc"` by default, `"none"`, or a sync condition).
pub open spec fn prepare_of(a: TableView, b: TableView, sync: Option<Seq<char>>) -> Result<(TableView, TableView), Seq<char>> {
    let at = a.header.trigger == Trigger::Tcycle;
    let bt = b.header.trigger == Trigger::Tcycle;
    let a1 = if at && !bt {
        collapse_of(a)
    } else {
        Ok(a)
    };
    match a1 {
        Err(m) => Err(m),
        Ok(a1) => {
            let b1 = if bt && !at {
                collapse_of(b)
            } else {
                Ok(b)
            };
            match b1 {
                Err(m) => Err(m),
                Ok(b1) => {
                    let mode = match sync {
                        Some(s) => s,
                        None => "pc"@,
                    };
                    if mode == "none"@ {
                        Ok((a1, b1))
                    } else if mode == "pc"@ {
                        align_pc_of(a1, b1)
                    } else {
                        match skip_until_of(a1, mode) {
                            Err(m) => Err(m),
                            Ok(a2) => match skip_until_of(b1, mode) {
                                Err(m) => Err(m),
                                Ok(b2) => Ok((a2, b2)),
                            },
                        }
                    }
                },
            }
        },
    }
}

/// A table at instruction granularity for a comparison with `other`: a
/// T-cycle table collapsed to instructions when the other is not T-cycle.
pub open spec fn as_instructions_for(t: TableView, other: TableView) -> Result<TableView, Seq<char>> {
    if t.header.trigger == Trigger::Tcycle && other.header.trigger != Trigger::Tcycle {
        collapse_of(t)
    } else {
        Ok(t)
    }
}

/// Preparing two traces with a sync condition (neither `pc` nor `none`)
/// is collapsing whichever needs it to instructions, then skipping each to
/// the condition's first match; with `none` it is the collapsing alone.
pub proof fn law_prepare_with_condition(a: TableView, b: TableView, s: Seq<char>)
    ensures
        s != "pc"@ && s != "none"@ ==> prepare_of(a, b, Some(s)) == match (
            as_instructions_for(a, b),
            as_instructions_for(b, a),
        ) {
            (Err(m), _) => Err(m),
            (Ok(_), Err(m)) => Err(m),
            (Ok(a1), Ok(b1)) => match (skip_until_of(a1, s), skip_until_of(b1, s)) {
                (Err(m), _) => Err(m),
                (Ok(_), Err(m)) => Err(m),
                (Ok(a2), Ok(b2)) => Ok((a2, b2)),
            },
        },
        prepare_of(a, b, Some("none"@)) == match (as_instructions_for(a, b), as_instructions_for(b, a)) {
            (Err(m), _) => Err(m),
            (Ok(_), Err(m)) => Err(m),
            (Ok(a1), Ok(b1)) => Ok::<(TableView, TableView), Seq<char>>((a1, b1)),
        },
{
}

/// The first PC of a table (truncated to 16 bits).
pub open spec fn first_pc(t: TableView, c: int) -> u16 {
    t.num(c, 0) as u16
}

/// Whether PC `p` appears among the first 100 rows of a table.
pub open spec fn pc_early(t: TableView, c: int, p: u16) -> bool {
    first_where(if t.rows < 100 { t.rows as int } else { 100 }, pc_is(t, c, p)) is Some
}

/// Preparing two traces of the same granularity aligned by PC: equal
/// first PCs leave both as they are; otherwise the first trace is skipped
/// to the second's first PC when that appears early in it, else the second
/// to the first's when that appears early in the second, else neither.
pub proof fn law_prepare_by_pc(a: TableView, b: TableView, ca: int, cb: int)
    requires
        (a.header.trigger == Trigger::Tcycle) == (b.header.trigger == Trigger::Tcycle),
        a.col_of("pc"@) == Some(ca),
        b.col_of("pc"@) == Some(cb),
        a.rows > 0,
        b.rows > 0,
    ensures
        prepare_of(a, b, None) == prepare_of(a, b, Some("pc"@)),
        prepare_of(a, b, None) == if first_pc(a, ca) == first_pc(b, cb) {
            Ok((a, b))
        } else if pc_early(a, ca, first_pc(b, cb)) {
            match skip_to_pc_of(a, first_pc(b, cb)) {
                Err(m) => Err(m),
                Ok(a2) => Ok((a2, b)),
            }
        } else if pc_early(b, cb, first_pc(a, ca)) {
            match skip_to_pc_of(b, first_pc(a, ca)) {
                Err(m) => Err(m),
                Ok(b2) => Ok((a, b2)),
            }
        } else {
            Ok((a, b))
        },
{
    reveal_strlit("pc");
    reveal_strlit("none");
    assert("pc"@ != "none"@) by {
        assert("pc"@[0] != "none"@[0]);
    }
    assert(as_instructions_for(a, b) == Ok::<TableView, Seq<char>>(a));
    assert(prepare_of(a, b, None) == align_pc_of(a, b));
}

/// The rows where a frame starts: row 0, then each row whose `ly` (low
/// 8 bits) is below the previous row's, when that one was 144 or more.
pub open spec fn frame_starts(t: TableView, ly: int, n: int) -> Seq<u32>
    decreases n,
{
    if n <= 1 {
        seq![0u32]
    } else {
        let prev = t.num(ly, n - 2) as u8;
        let cur = t.num(ly, n - 1) as u8;
        if cur < prev && prev >= 144 {
            frame_starts(t, ly, n - 1).push((n - 1) as u32)
        } else {
            frame_starts(t, ly, n - 1)
        }
    }
}

/// `ColumnStore::frame_boundaries`: the entry index at which each frame
/// starts (none without an `ly` field or without entries).
pub open spec fn frame_boundaries_of(t: TableView) -> Seq<u32> {
    match t.col_of("ly"@) {
        None => Seq::empty(),
        Some(ly) => if t.rows == 0 {
            Seq::empty()
        } else {
            frame_starts(t, ly, t.rows as int)
        },
    }
}

/// Once a row is found, looking further finds the same row.
pub proof fn lemma_first_where_stable(n: int, m: int, p: spec_fn(int) -> bool)
    requires
        n <= m,
        first_where(n, p) is Some,
    ensures
        first_where(m, p) == first_where(n, p),
    decreases m - n,
{
    if m > n {
        lemma_first_where_stable(n, m - 1, p);
    }
}

/// The rows as integers.
pub open spec fn as_ints(s: Seq<usize>) -> Seq<int> {
    Seq::new(s.len(), |i: int| s[i] as int)
}

/// Whether the rows `sel` can all be read in `t`.
pub open spec fn rows_in(t: TableView, sel: Seq<int>) -> bool {
    forall|k: int| 0 <= k < sel.len() ==> 0 <= #[trigger] sel[k] < t.rows
}

/// In a full table every completed row can be read.
pub proof fn lemma_full_readable(t: TableView, r: int)
    requires
        t.full(),
        0 <= r < t.rows,
    ensures
        t.readable_row(r),
{
}

/// A copy of rows of a well-formed table is well-formed and full.
pub proof fn lemma_copy_rows_wf(t: TableView, sel: Seq<int>)
    requires
        t.wf(),
    ensures
        copy_rows(t, sel).wf(),
        copy_rows(t, sel).full(),
{
    let r = copy_rows(t, sel);
    assert forall|c: int| 0 <= c < r.columns.len() implies (#[trigger] r.columns[c]).kind == type_of_field(
        r.header.fields[c],
    ) by {
        assert(r.columns[c].kind == t.columns[c].kind);
    }
}

impl ColumnStore {
    /// A store holding the rows `rows` of this one, each value pushed as a
    /// number.
    fn copy_rows_exec(&self, rows: &Vec<usize>) -> (r: ColumnStore)
        requires
            self.wf(),
            self.table().full(),
            rows_in(self.table(), as_ints(rows@)),
        ensures
            r.table() == copy_rows(self.table(), as_ints(rows@)),
            r.wf(),
            r.table().full(),
    {
        let ghost t = self.table();
        let ghost sel = as_ints(rows@);
        let ncols = self.header.fields.len();
        let mut out = ColumnStore::with_capacity(self.header.duplicate(), rows.len());
        let mut k: usize = 0;
        while k < rows.len()
            invariant
                0 <= k <= rows@.len(),
                t == self.table(),
                sel == as_ints(rows@),
                self.wf(),
                t.full(),
                rows_in(t, sel),
                ncols == t.columns.len(),
                out.wf(),
                out.table().header == t.header,
                out.table().rows == k,
                out.table().columns.len() == ncols,
                forall|c: int|
                    0 <= c < ncols ==> (#[trigger] out.table().columns[c]).cells == copied_cells(
                        t,
                        c,
                        sel,
                        k as int,
                    ) && out.table().columns[c].kind == t.columns[c].kind,
            decreases rows@.len() - k,
        {
            let row = rows[k];
            assert(sel[k as int] == row as int);
            proof {
                lemma_full_readable(t, row as int);
            }
            let mut c: usize = 0;
            while c < ncols
                invariant
                    0 <= c <= ncols,
                    0 <= k < rows@.len(),
                    t == self.table(),
                    sel == as_ints(rows@),
                    self.wf(),
                    sel[k as int] == row as int,
                    t.readable_row(row as int),
                    ncols == t.columns.len(),
                    out.wf(),
                    out.table().header == t.header,
                    out.table().rows == k,
                    out.table().columns.len() == ncols,
                    forall|c2: int|
                        0 <= c2 < ncols ==> (#[trigger] out.table().columns[c2]).cells == copied_cells(
                            t,
                            c2,
                            sel,
                            if c2 < c {
                                k + 1
                            } else {
                                k as int
                            },
                        ) && out.table().columns[c2].kind == t.columns[c2].kind,
                decreases ncols - c,
            {
                let v = self.get_numeric_at(c, row);
                let ghost before = out.table();
                out.push_u64(c, v);
                assert(out.table().columns[c as int].cells =~= copied_cells(t, c as int, sel, k + 1));
                assert forall|c2: int| 0 <= c2 < ncols implies (#[trigger] out.table().columns[c2]).cells
                    == copied_cells(
                    t,
                    c2,
                    sel,
                    if c2 < c + 1 {
                        k + 1
                    } else {
                        k as int
                    },
                ) && out.table().columns[c2].kind == t.columns[c2].kind by {
                    if c2 != c {
                        assert(out.table().columns[c2] == before.columns[c2]);
                    }
                }
                c += 1;
            }
            out.finish_row();
            k += 1;
        }
        assert(out.table().columns =~= copy_rows(t, sel).columns);
        proof {
            lemma_copy_rows_wf(t, sel);
        }
        out
    }
}


/// The rows `a` up to (not including) `b`.
fn range_vec(a: usize, b: usize) -> (r: Vec<usize>)
    requires
        a <= b,
    ensures
        as_ints(r@) == row_range(a as int, b as int),
{
    let mut r: Vec<usize> = Vec::new();
    let mut i = a;
    while i < b
        invariant
            a <= i <= b,
            r@.len() == i - a,
            forall|k: int| 0 <= k < r@.len() ==> r@[k] == a + k,
        decreases b - i,
    {
        r.push(i);
        i += 1;
    }
    assert(as_ints(r@) =~= row_range(a as int, b as int));
    r
}

/// An error of the diff family with a fixed message.
fn diff_error(m: &str) -> (e: Error)
    ensures
        e == Error::Diff(e->Diff_0) && e->Diff_0@ == m@,
{
    Error::Diff(crate::text::string_of(&chars_of(m)))
}

/// What an operation that gives a store answers: the result's table, or
/// the diff error's message.
pub open spec fn store_result_is(r: Result<ColumnStore, Error>, spec: Result<TableView, Seq<char>>) -> bool {
    match r {
        Ok(s) => spec == Ok::<TableView, Seq<char>>(s.table()) && s.wf() && s.table().full(),
        Err(e) => e is Diff && spec == Err::<TableView, Seq<char>>(e->Diff_0@),
    }
}

impl ColumnStore {
    /// Collapse T-cycle entries to instruction boundaries: of each run of
    /// consecutive entries with the same PC, keep the first (the state when
    /// PC equals that address).
    #[verifier::loop_isolation(false)]
    pub fn collapse_to_instructions(&self) -> (r: Result<ColumnStore, Error>)
        requires
            self.wf(),
            self.table().full(),
        ensures
            store_result_is(r, collapse_of(self.table())),
    {
        let ghost t = self.table();
        let pc = match self.field_col("pc") {
            None => return Err(diff_error("no pc field for collapse")),
            Some(c) => c,
        };
        proof {
            lemma_last_named_bound(t.header.fields, "pc"@);
        }
        let count = self.len;
        let mut sel: Vec<usize> = Vec::new();
        if count > 0 {
            proof {
                lemma_full_readable(t, 0);
            }
            sel.push(0);
            assert(as_ints(sel@) =~= change_points(t, pc as int, 1));
            let mut prev = self.get_numeric_at(pc, 0);
            let mut i: usize = 1;
            while i < count
                invariant
                    1 <= i <= count,
                    count == t.rows,
                    prev == t.num(pc as int, i - 1),
                    as_ints(sel@) == change_points(t, pc as int, i as int),
                    rows_in(t, as_ints(sel@)),
                decreases count - i,
            {
                proof {
                    lemma_full_readable(t, i as int);
                }
                let cur = self.get_numeric_at(pc, i);
                if cur != prev {
                    sel.push(i);
                    assert(as_ints(sel@) =~= change_points(t, pc as int, i as int).push(i as int));
                }
                prev = cur;
                i += 1;
            }
        } else {
            assert(as_ints(sel@) =~= change_points(t, pc as int, 0));
        }
        Ok(self.copy_rows_exec(&sel))
    }

    /// Skip entries until the first entry with the given PC value.
    #[verifier::loop_isolation(false)]
    pub fn skip_to_pc(&self, target_pc: u16) -> (r: Result<ColumnStore, Error>)
        requires
            self.wf(),
            self.table().full(),
        ensures
            store_result_is(r, skip_to_pc_of(self.table(), target_pc)),
    {
        let ghost t = self.table();
        let pc = match self.field_col("pc") {
            None => return Err(diff_error("no pc field")),
            Some(c) => c,
        };
        proof {
            lemma_last_named_bound(t.header.fields, "pc"@);
        }
        let count = self.len;
        let ghost p = pc_is(t, pc as int, target_pc);
        let mut i: usize = 0;
        while i < count
            invariant
                0 <= i <= count,
                count == t.rows,
                first_where(i as int, p) is None,
            decreases count - i,
        {
            proof {
                lemma_full_readable(t, i as int);
            }
            if self.get_numeric_at(pc, i) as u16 == target_pc {
                assert(first_where(i + 1, p) == Some(i as int));
                proof {
                    lemma_first_where_stable(i + 1, count as int, p);
                }
                let sel = range_vec(i, count);
                return Ok(self.copy_rows_exec(&sel));
            }
            i += 1;
        }
        let mut m = chars_of("PC 0x");
        crate::text::append_chars(&mut m, &crate::text::hex_exec(target_pc as u64, 4));
        crate::text::append_str(&mut m, " not found");
        Err(Error::Diff(crate::text::string_of(&m)))
    }

    /// Skip entries until a field matches a condition: `field=value` (exact
    /// match) or `field&mask` (some bit of the mask set). Values are decimal,
    /// or hexadecimal with a `0x` prefix.
    #[verifier::loop_isolation(false)]
    pub fn skip_until(&self, condition: &str) -> (r: Result<ColumnStore, Error>)
        requires
            self.wf(),
            self.table().full(),
        ensures
            store_result_is(r, skip_until_of(self.table(), condition@)),
    {
        let ghost t = self.table();
        let cv = chars_of(condition);
        let amp = crate::text::find_char_exec(&cv, '&');
        let eq = crate::text::find_char_exec(&cv, '=');
        proof {
            crate::text::lemma_find_char_bound(cv@, '&');
            crate::text::lemma_find_char_bound(cv@, '=');
        }
        let (is_mask, pos) = match amp {
            Some(p) => (true, p),
            None => match eq {
                Some(p) => (false, p),
                None => {
                    let mut m = chars_of("invalid sync condition: ");
                    crate::text::append_chars(&mut m, &cv);
                    return Err(Error::Diff(crate::text::string_of(&m)));
                },
            },
        };
        let n = cv.len();
        let field = crate::text::slice_chars(&cv, 0, pos);
        let value = crate::text::slice_chars(&cv, pos + 1, n);
        assert(field@ =~= cv@.take(pos as int));
        assert(value@ =~= cv@.skip(pos + 1));
        let parsed = match crate::text::strip_prefix_chars(&value, &chars_of("0x")) {
            Some(hex) => {
                proof {
                    reveal_strlit("0x");
                }
                assert(hex@ =~= value@.skip(2));
                crate::text::parse_unsigned_exec(&hex, 16, u64::MAX)
            },
            None => crate::text::parse_unsigned_exec(&value, 10, u64::MAX),
        };
        let val = match parsed {
            None => {
                let mut m = chars_of("invalid value: ");
                crate::text::append_chars(&mut m, &value);
                return Err(Error::Diff(crate::text::string_of(&m)));
            },
            Some(v) => v,
        };
        let field_str = crate::text::string_of(&field);
        let col = match self.field_col(field_str.as_str()) {
            None => {
                let mut m = chars_of("field '");
                crate::text::append_chars(&mut m, &field);
                crate::text::append_str(&mut m, "' not found");
                return Err(Error::Diff(crate::text::string_of(&m)));
            },
            Some(c) => c,
        };
        proof {
            lemma_last_named_bound(t.header.fields, field@);
        }
        let count = self.len;
        let ghost p = sync_test(t, col as int, is_mask, val);
        let mut i: usize = 0;
        while i < count
            invariant
                0 <= i <= count,
                count == t.rows,
                first_where(i as int, p) is None,
            decreases count - i,
        {
            proof {
                lemma_full_readable(t, i as int);
            }
            let v = self.get_numeric_at(col, i);
            let hit = if is_mask {
                (v & val) != 0
            } else {
                v == val
            };
            if hit {
                assert(first_where(i + 1, p) == Some(i as int));
                proof {
                    lemma_first_where_stable(i + 1, count as int, p);
                }
                let sel = range_vec(i, count);
                return Ok(self.copy_rows_exec(&sel));
            }
            i += 1;
        }
        let mut m = chars_of("sync condition '");
        crate::text::append_chars(&mut m, &cv);
        crate::text::append_str(&mut m, "' never matched");
        Err(Error::Diff(crate::text::string_of(&m)))
    }
}


// ---------------------------------------------------------------------------
// Named reads
// ---------------------------------------------------------------------------

/// Reading at row `r - 1` is fine when reading at row `r` is.
pub proof fn lemma_readable_prev(t: TableView, r: int)
    requires
        t.readable_row(r),
        r > 0,
    ensures
        t.readable_row(r - 1),
{
    assert forall|c: int| 0 <= c < t.columns.len() implies col_readable(#[trigger] t.columns[c], r - 1) by {
        assert(col_readable(t.columns[c], r));
    }
}

impl ColumnStore {
    /// Get a u8 value by field name (the number truncated to 8 bits).
    pub fn get_u8_named(&self, name: &str, row: usize) -> (r: Option<u8>)
        requires
            self.wf(),
            self.table().readable_row(row as int),
        ensures
            r == self.table().u8_named(name@, row as int),
    {
        match self.get_numeric_named(name, row) {
            Some(v) => Some(#[verifier::truncate] (v as u8)),
            None => None,
        }
    }

    /// Get a u16 value by field name (the number truncated to 16 bits).
    pub fn get_u16_named(&self, name: &str, row: usize) -> (r: Option<u16>)
        requires
            self.wf(),
            self.table().readable_row(row as int),
        ensures
            r == self.table().u16_named(name@, row as int),
    {
        match self.get_numeric_named(name, row) {
            Some(v) => Some(#[verifier::truncate] (v as u16)),
            None => None,
        }
    }

    /// Get a bool value by field name.
    pub fn get_bool_named(&self, name: &str, row: usize) -> (r: Option<bool>)
        requires
            self.wf(),
            self.table().readable_row(row as int),
        ensures
            r == self.table().bool_named(name@, row as int),
    {
        match self.field_col(name) {
            Some(col) => {
                proof {
                    lemma_last_named_bound(self.table().header.fields, name@);
                }
                assert(col_readable(self.table().columns[col as int], row as int));
                Some(self.columns[col].get_bool(row))
            },
            None => None,
        }
    }

    /// Get a view of a row.
    pub fn row(&self, index: usize) -> (r: EntryView<'_>)
        ensures
            r.table() == self.table(),
            r.index() == index,
            r.wf() == self.wf(),
    {
        EntryView { store: self, index }
    }
}

/// A lightweight view of a single row of a [`ColumnStore`].
pub struct EntryView<'a> {
    store: &'a ColumnStore,
    index: usize,
}

impl<'a> EntryView<'a> {
    /// The table the row belongs to.
    pub closed spec fn table(&self) -> TableView {
        self.store.table()
    }

    /// The row's index.
    pub closed spec fn index(&self) -> int {
        self.index as int
    }

    /// Whether the store is well-formed.
    pub closed spec fn wf(&self) -> bool {
        self.store.wf()
    }

    /// Cycle count of the row (0 when there is no `cy` field).
    pub fn cy(&self) -> (r: u64)
        requires
            self.wf(),
            self.table().readable_row(self.index()),
        ensures
            r == match self.table().numeric_named("cy"@, self.index()) {
                Some(v) => v,
                None => 0,
            },
    {
        self.store.cy(self.index)
    }

    /// A field's value as a number.
    pub fn get_numeric(&self, name: &str) -> (r: Option<u64>)
        requires
            self.wf(),
            self.table().readable_row(self.index()),
        ensures
            r == self.table().numeric_named(name@, self.index()),
    {
        self.store.get_numeric_named(name, self.index)
    }

    /// A field's value truncated to 8 bits.
    pub fn get_u8(&self, name: &str) -> (r: Option<u8>)
        requires
            self.wf(),
            self.table().readable_row(self.index()),
        ensures
            r == self.table().u8_named(name@, self.index()),
    {
        self.store.get_u8_named(name, self.index)
    }

    /// A field's value truncated to 16 bits.
    pub fn get_u16(&self, name: &str) -> (r: Option<u16>)
        requires
            self.wf(),
            self.table().readable_row(self.index()),
        ensures
            r == self.table().u16_named(name@, self.index()),
    {
        self.store.get_u16_named(name, self.index)
    }

    /// A field's value as a flag.
    pub fn get_bool(&self, name: &str) -> (r: Option<bool>)
        requires
            self.wf(),
            self.table().readable_row(self.index()),
        ensures
            r == self.table().bool_named(name@, self.index()),
    {
        self.store.get_bool_named(name, self.index)
    }
}

impl ColumnStore {
    /// Detect frame boundaries by scanning `ly` for vblank to active
    /// transitions: the rows where each frame starts.
    pub fn frame_boundaries(&self) -> (r: Vec<u32>)
        requires
            self.wf(),
            self.table().full(),
        ensures
            r@ == frame_boundaries_of(self.table()),
    {
        let ghost t = self.table();
        let ly = match self.field_col("ly") {
            Some(c) => c,
            None => return Vec::new(),
        };
        proof {
            lemma_last_named_bound(t.header.fields, "ly"@);
        }
        let count = self.len;
        if count == 0 {
            return Vec::new();
        }
        let mut boundaries: Vec<u32> = Vec::new();
        boundaries.push(0);
        let mut i: usize = 1;
        assert(boundaries@ =~= frame_starts(t, ly as int, 1));
        while i < count
            invariant
                1 <= i,
                i <= count || i == 1,
                count == t.rows,
                t == self.table(),
                self.wf(),
                t.full(),
                ly < t.columns.len(),
                t.col_of("ly"@) == Some(ly as int),
                boundaries@ == frame_starts(t, ly as int, i as int),
            decreases count - i,
        {
            proof {
                lemma_full_readable(t, i as int);
                lemma_full_readable(t, i - 1);
            }
            let prev = #[verifier::truncate] (self.get_numeric_at(ly, i - 1) as u8);
            let cur = #[verifier::truncate] (self.get_numeric_at(ly, i) as u8);
            if cur < prev && prev >= 144 {
                boundaries.push(#[verifier::truncate] (i as u32));
            }
            i += 1;
        }
        boundaries
    }
}

// ---------------------------------------------------------------------------
// Query
// ---------------------------------------------------------------------------

/// `"true"` and `"false"` as flags.
pub open spec fn bool_text(s: Seq<char>) -> Option<bool> {
    if s == "true"@ {
        Some(true)
    } else if s == "false"@ {
        Some(false)
    } else {
        None
    }
}

fn parse_bool_str(s: &str) -> (r: Option<bool>)
    ensures
        r == bool_text(s@),
{
    if str_eq(s, "true") {
        Some(true)
    } else if str_eq(s, "false") {
        Some(false)
    } else {
        None
    }
}

/// Bit `bit` of `v`.
pub open spec fn bit_of(v: u8, bit: u8) -> bool {
    (v >> bit) & 1u8 == 1u8
}

/// Whether bit `bit` of field `field` went from `from` to `to` between the
/// previous row and row `row`.
pub open spec fn bit_transition_of(t: TableView, field: Seq<char>, bit: u8, from: bool, to: bool, row: int) -> bool {
    if row == 0 {
        false
    } else {
        match (t.u8_named(field, row), t.u8_named(field, row - 1)) {
            (Some(c), Some(p)) => bit_of(p, bit) == from && bit_of(c, bit) == to,
            _ => false,
        }
    }
}

/// The value of the low two STAT bits (the PPU mode) at a row.
pub open spec fn ppu_mode_at(t: TableView, row: int) -> Option<u8> {
    match t.u8_named("stat"@, row) {
        Some(s) => Some(s & 3u8),
        None => None,
    }
}

/// Whether a condition that is not compound holds at row `row`.
pub open spec fn eval_shape(t: TableView, s: ConditionShape, row: int) -> bool {
    match s {
        ConditionShape::FieldEquals(field, value) => match number_of(value) {
            Some(n) => t.numeric_named(field, row) == Some(n as u64),
            None => match bool_text(value) {
                Some(b) => t.bool_named(field, row) == Some(b),
                None => false,
            },
        },
        ConditionShape::FieldChanges(field) => row != 0 && match t.col_of(field) {
            Some(k) => t.num(k, row) != t.num(k, row - 1),
            None => false,
        },
        ConditionShape::FieldChangesTo(field, value) => match number_of(value) {
            Some(n) => t.numeric_named(field, row) == Some(n as u64) && (if row > 0 {
                t.numeric_named(field, row - 1)
            } else {
                None
            }) != Some(n as u64),
            None => false,
        },
        ConditionShape::FieldChangesFrom(field, value) => row != 0 && match number_of(value) {
            Some(n) => t.numeric_named(field, row - 1) == Some(n as u64) && t.numeric_named(field, row)
                != Some(n as u64),
            None => false,
        },
        ConditionShape::PpuEntersMode(mode) => row != 0 && ppu_mode_at(t, row) == Some(mode)
            && ppu_mode_at(t, row - 1) != Some(mode),
        ConditionShape::LcdTurnsOn => bit_transition_of(t, "lcdc"@, 7, false, true, row),
        ConditionShape::LcdTurnsOff => bit_transition_of(t, "lcdc"@, 7, true, false, row),
        ConditionShape::TimerOverflow => row != 0 && match (
            t.u8_named("tima"@, row),
            t.u8_named("tima"@, row - 1),
        ) {
            (Some(c), Some(p)) => c < p && p > 0x80,
            _ => false,
        },
        ConditionShape::InterruptFires(bit) => bit_transition_of(t, "if_"@, bit, false, true, row),
        ConditionShape::FlagSet(bit) => match t.u8_named("f"@, row) {
            Some(f) => (f >> bit) & 1u8 == 1u8,
            None => false,
        },
        ConditionShape::FlagClear(bit) => match t.u8_named("f"@, row) {
            Some(f) => (f >> bit) & 1u8 == 0u8,
            None => false,
        },
        ConditionShape::FlagBecomesSet(bit) => bit_transition_of(t, "f"@, bit, false, true, row),
        ConditionShape::FlagBecomesClear(bit) => bit_transition_of(t, "f"@, bit, true, false, row),
        ConditionShape::FieldBitMask(field, mask) => match t.numeric_named(field, row) {
            Some(v) => v & mask != 0,
            None => false,
        },
        ConditionShape::FieldBitMaskEquals(field, mask, value) => match t.numeric_named(field, row) {
            Some(v) => v & mask == value,
            None => false,
        },
        ConditionShape::All => false,
        ConditionShape::Any => false,
    }
}

/// Whether a condition holds at row `row` (`ColumnStore::eval_condition`).
pub open spec fn eval_of(t: TableView, c: Condition, row: int) -> bool
    decreases c, 1int,
{
    match c {
        Condition::All(cs) => all_hold(t, cs@, row),
        Condition::Any(cs) => any_holds(t, cs@, row),
        _ => eval_shape(t, c.shape(), row),
    }
}

/// Whether every condition holds at row `row`.
pub open spec fn all_hold(t: TableView, cs: Seq<Condition>, row: int) -> bool
    decreases cs, 0int,
{
    if cs.len() == 0 {
        true
    } else {
        all_hold(t, cs.drop_last(), row) && eval_of(t, cs.last(), row)
    }
}

/// Whether some condition holds at row `row`.
pub open spec fn any_holds(t: TableView, cs: Seq<Condition>, row: int) -> bool
    decreases cs, 0int,
{
    if cs.len() == 0 {
        false
    } else {
        any_holds(t, cs.drop_last(), row) || eval_of(t, cs.last(), row)
    }
}

/// Whether the bit number of a condition that is not compound names a bit
/// of a byte wherever its evaluation at row `row` shifts by it: a flag
/// test shifts when the row has `f`, a transition past row 0 when both
/// rows have the field.
pub open spec fn shape_shifts_ok(t: TableView, s: ConditionShape, row: int) -> bool {
    match s {
        ConditionShape::FlagSet(b) => t.u8_named("f"@, row) is Some ==> b < 8,
        ConditionShape::FlagClear(b) => t.u8_named("f"@, row) is Some ==> b < 8,
        ConditionShape::FlagBecomesSet(b) => transition_shifts(t, "f"@, row) ==> b < 8,
        ConditionShape::FlagBecomesClear(b) => transition_shifts(t, "f"@, row) ==> b < 8,
        ConditionShape::InterruptFires(b) => transition_shifts(t, "if_"@, row) ==> b < 8,
        _ => true,
    }
}

/// Whether a transition of `field` at row `row` shifts: past row 0, with
/// the field in both rows.
pub open spec fn transition_shifts(t: TableView, field: Seq<char>, row: int) -> bool {
    row != 0 && t.u8_named(field, row) is Some && t.u8_named(field, row - 1) is Some
}

/// Whether every shift the evaluation of a condition at row `row` runs is
/// by less than 8: the members of `All` are evaluated up to the first that
/// fails, those of `Any` up to the first that holds.
pub open spec fn shifts_ok(t: TableView, c: Condition, row: int) -> bool
    decreases c, 1int,
{
    match c {
        Condition::All(cs) => all_shifts_ok(t, cs@, row),
        Condition::Any(cs) => any_shifts_ok(t, cs@, row),
        _ => shape_shifts_ok(t, c.shape(), row),
    }
}

/// Whether the shifts of `All` over the conditions are by less than 8.
pub open spec fn all_shifts_ok(t: TableView, cs: Seq<Condition>, row: int) -> bool
    decreases cs, 0int,
{
    if cs.len() == 0 {
        true
    } else {
        all_shifts_ok(t, cs.drop_last(), row) && (all_hold(t, cs.drop_last(), row) ==> shifts_ok(t, cs.last(), row))
    }
}

/// Whether the shifts of `Any` over the conditions are by less than 8.
pub open spec fn any_shifts_ok(t: TableView, cs: Seq<Condition>, row: int) -> bool
    decreases cs, 0int,
{
    if cs.len() == 0 {
        true
    } else {
        any_shifts_ok(t, cs.drop_last(), row) && (!any_holds(t, cs.drop_last(), row) ==> shifts_ok(
            t,
            cs.last(),
            row,
        ))
    }
}

proof fn lemma_all_shifts_take(t: TableView, cs: Seq<Condition>, k: int, row: int)
    requires
        0 <= k <= cs.len(),
        all_shifts_ok(t, cs, row),
    ensures
        all_shifts_ok(t, cs.take(k), row),
    decreases cs.len(),
{
    if k == cs.len() {
        assert(cs.take(k) =~= cs);
    } else {
        lemma_all_shifts_take(t, cs.drop_last(), k, row);
        assert(cs.drop_last().take(k) =~= cs.take(k));
    }
}

proof fn lemma_any_shifts_take(t: TableView, cs: Seq<Condition>, k: int, row: int)
    requires
        0 <= k <= cs.len(),
        any_shifts_ok(t, cs, row),
    ensures
        any_shifts_ok(t, cs.take(k), row),
    decreases cs.len(),
{
    if k == cs.len() {
        assert(cs.take(k) =~= cs);
    } else {
        lemma_any_shifts_take(t, cs.drop_last(), k, row);
        assert(cs.drop_last().take(k) =~= cs.take(k));
    }
}

/// The rows in `[lo, hi)` that pass `p`, as 32-bit indices.
pub open spec fn rows_where(p: spec_fn(int) -> bool, lo: int, hi: int) -> Seq<u32>
    decreases hi - lo,
{
    if hi <= lo {
        Seq::empty()
    } else if p(hi - 1) {
        rows_where(p, lo, hi - 1).push((hi - 1) as u32)
    } else {
        rows_where(p, lo, hi - 1)
    }
}

/// The test of a condition that is not compound.
pub open spec fn shape_test(t: TableView, s: ConditionShape) -> spec_fn(int) -> bool {
    |i: int| eval_shape(t, s, i)
}

/// The test of a condition.
pub open spec fn condition_test(t: TableView, c: Condition) -> spec_fn(int) -> bool {
    |i: int| eval_of(t, c, i)
}

/// The smaller of two integers.
pub open spec fn min_of(a: int, b: int) -> int {
    if a < b {
        a
    } else {
        b
    }
}

/// What `ColumnStore::query_range` answers: the parse error, or the rows
/// of `[min(start, rows), min(end, rows))` where the condition holds.
pub open spec fn query_range_of(t: TableView, s: Seq<char>, start: int, end: int) -> Result<Seq<u32>, Seq<char>> {
    match condition_of(s) {
        Err(m) => Err(m),
        Ok(shape) => Ok(
            rows_where(shape_test(t, shape), min_of(start, t.rows as int), min_of(end, t.rows as int)),
        ),
    }
}

impl ColumnStore {
    fn bit_transition(&self, field: &str, bit: u8, from: bool, to: bool, row: usize) -> (r: bool)
        requires
            self.wf(),
            self.table().readable_row(row as int),
            transition_shifts(self.table(), field@, row as int) ==> bit < 8,
        ensures
            r == bit_transition_of(self.table(), field@, bit, from, to, row as int),
    {
        if row == 0 {
            return false;
        }
        proof {
            lemma_readable_prev(self.table(), row as int);
        }
        let cur = self.get_u8_named(field, row);
        let prev = self.get_u8_named(field, row - 1);
        match (cur, prev) {
            (Some(c), Some(p)) => {
                let cur_bit = (c >> bit) & 1 == 1;
                let prv_bit = (p >> bit) & 1 == 1;
                prv_bit == from && cur_bit == to
            },
            _ => false,
        }
    }

    /// Evaluate a condition at a row.
    pub fn eval_condition(&self, cond: &Condition, row: usize) -> (r: bool)
        requires
            self.wf(),
            self.table().readable_row(row as int),
            shifts_ok(self.table(), *cond, row as int),
        ensures
            r == eval_of(self.table(), *cond, row as int),
        decreases cond, 1int,
    {
        let ghost t = self.table();
        if row > 0 {
            proof {
                lemma_readable_prev(t, row as int);
            }
        }
        match cond {
            Condition::FieldEquals { field, value } => {
                if let Some(target) = parse_number(value.as_str()) {
                    self.get_numeric_named(field.as_str(), row) == Some(target)
                } else if let Some(b) = parse_bool_str(value.as_str()) {
                    self.get_bool_named(field.as_str(), row) == Some(b)
                } else {
                    false
                }
            },
            Condition::FieldChanges { field } => {
                if row == 0 {
                    return false;
                }
                match self.field_col(field.as_str()) {
                    Some(col) => {
                        proof {
                            lemma_last_named_bound(t.header.fields, field@);
                        }
                        self.get_numeric_at(col, row) != self.get_numeric_at(col, row - 1)
                    },
                    None => false,
                }
            },
            Condition::FieldChangesTo { field, value } => {
                if let Some(target) = parse_number(value.as_str()) {
                    let cur = self.get_numeric_named(field.as_str(), row);
                    let prev = if row > 0 {
                        self.get_numeric_named(field.as_str(), row - 1)
                    } else {
                        None
                    };
                    cur == Some(target) && prev != Some(target)
                } else {
                    false
                }
            },
            Condition::FieldChangesFrom { field, value } => {
                if row == 0 {
                    return false;
                }
                if let Some(target) = parse_number(value.as_str()) {
                    let cur = self.get_numeric_named(field.as_str(), row);
                    let prev = self.get_numeric_named(field.as_str(), row - 1);
                    prev == Some(target) && cur != Some(target)
                } else {
                    false
                }
            },
            Condition::PpuEntersMode(mode) => {
                if row == 0 {
                    return false;
                }
                let cur = match self.get_u8_named("stat", row) {
                    Some(s) => Some(s & 3),
                    None => None,
                };
                let prev = match self.get_u8_named("stat", row - 1) {
                    Some(s) => Some(s & 3),
                    None => None,
                };
                cur == Some(*mode) && prev != Some(*mode)
            },
            Condition::LcdTurnsOn => self.bit_transition("lcdc", 7, false, true, row),
            Condition::LcdTurnsOff => self.bit_transition("lcdc", 7, true, false, row),
            Condition::TimerOverflow => {
                if row == 0 {
                    return false;
                }
                let cur = self.get_u8_named("tima", row);
                let prev = self.get_u8_named("tima", row - 1);
                match (cur, prev) {
                    (Some(c), Some(p)) => c < p && p > 0x80,
                    _ => false,
                }
            },
            Condition::InterruptFires(bit) => self.bit_transition("if_", *bit, false, true, row),
            Condition::FlagSet(bit) => match self.get_u8_named("f", row) {
                Some(f) => (f >> *bit) & 1 == 1,
                None => false,
            },
            Condition::FlagClear(bit) => match self.get_u8_named("f", row) {
                Some(f) => (f >> *bit) & 1 == 0,
                None => false,
            },
            Condition::FlagBecomesSet(bit) => self.bit_transition("f", *bit, false, true, row),
            Condition::FlagBecomesClear(bit) => self.bit_transition("f", *bit, true, false, row),
            Condition::FieldBitMask { field, mask } => match self.get_numeric_named(field.as_str(), row) {
                Some(v) => (v & *mask) != 0,
                None => false,
            },
            Condition::FieldBitMaskEquals { field, mask, value } => match self.get_numeric_named(
                field.as_str(),
                row,
            ) {
                Some(v) => (v & *mask) == *value,
                None => false,
            },
            Condition::All(cs) => self.eval_all(cs, row),
            Condition::Any(cs) => self.eval_any(cs, row),
        }
    }

    fn eval_all(&self, cs: &Vec<Condition>, row: usize) -> (r: bool)
        requires
            self.wf(),
            self.table().readable_row(row as int),
            all_shifts_ok(self.table(), cs@, row as int),
        ensures
            r == all_hold(self.table(), cs@, row as int),
        decreases cs, 0int,
    {
        let ghost t = self.table();
        let mut i: usize = 0;
        while i < cs.len()
            invariant
                0 <= i <= cs@.len(),
                t == self.table(),
                self.wf(),
                t.readable_row(row as int),
                all_shifts_ok(t, cs@, row as int),
                all_hold(t, cs@.take(i as int), row as int),
            decreases cs@.len() - i,
        {
            proof {
                assert(decreases_to!(*cs => cs@));
                assert(decreases_to!(cs@ => cs@[i as int]));
                assert(cs@.take(i + 1).drop_last() =~= cs@.take(i as int));
                lemma_all_shifts_take(t, cs@, i + 1, row as int);
                assert(cs@.take(i + 1).last() == cs@[i as int]);
            }
            if !self.eval_condition(&cs[i], row) {
                proof {
                    lemma_all_hold_prefix(t, cs@, i + 1, row as int);
                }
                return false;
            }
            i += 1;
        }
        assert(cs@.take(i as int) =~= cs@);
        true
    }

    fn eval_any(&self, cs: &Vec<Condition>, row: usize) -> (r: bool)
        requires
            self.wf(),
            self.table().readable_row(row as int),
            any_shifts_ok(self.table(), cs@, row as int),
        ensures
            r == any_holds(self.table(), cs@, row as int),
        decreases cs, 0int,
    {
        let ghost t = self.table();
        let mut i: usize = 0;
        while i < cs.len()
            invariant
                0 <= i <= cs@.len(),
                t == self.table(),
                self.wf(),
                t.readable_row(row as int),
                any_shifts_ok(t, cs@, row as int),
                !any_holds(t, cs@.take(i as int), row as int),
            decreases cs@.len() - i,
        {
            proof {
                assert(decreases_to!(*cs => cs@));
                assert(decreases_to!(cs@ => cs@[i as int]));
                assert(cs@.take(i + 1).drop_last() =~= cs@.take(i as int));
                lemma_any_shifts_take(t, cs@, i + 1, row as int);
                assert(cs@.take(i + 1).last() == cs@[i as int]);
            }
            if self.eval_condition(&cs[i], row) {
                proof {
                    lemma_any_holds_prefix(t, cs@, i + 1, row as int);
                }
                return true;
            }
            i += 1;
        }
        assert(cs@.take(i as int) =~= cs@);
        false
    }
}

/// A condition of a prefix that fails makes the whole list fail.
proof fn lemma_all_hold_prefix(t: TableView, cs: Seq<Condition>, k: int, row: int)
    requires
        0 <= k <= cs.len(),
        !all_hold(t, cs.take(k), row),
    ensures
        !all_hold(t, cs, row),
    decreases cs.len() - k,
{
    if k < cs.len() {
        assert(cs.take(k + 1).drop_last() =~= cs.take(k));
        lemma_all_hold_prefix(t, cs, k + 1, row);
    } else {
        assert(cs.take(k) =~= cs);
    }
}

/// A condition of a prefix that holds makes the whole list hold.
proof fn lemma_any_holds_prefix(t: TableView, cs: Seq<Condition>, k: int, row: int)
    requires
        0 <= k <= cs.len(),
        any_holds(t, cs.take(k), row),
    ensures
        any_holds(t, cs, row),
    decreases cs.len() - k,
{
    if k < cs.len() {
        assert(cs.take(k + 1).drop_last() =~= cs.take(k));
        lemma_any_holds_prefix(t, cs, k + 1, row);
    } else {
        assert(cs.take(k) =~= cs);
    }
}


proof fn lemma_rows_where_split(p: spec_fn(int) -> bool, lo: int, mid: int, hi: int)
    requires
        lo <= mid <= hi,
    ensures
        rows_where(p, lo, hi) == rows_where(p, lo, mid) + rows_where(p, mid, hi),
    decreases hi - mid,
{
    if hi == mid {
        assert(rows_where(p, mid, hi) =~= Seq::<u32>::empty());
        assert(rows_where(p, lo, mid) + rows_where(p, mid, hi) =~= rows_where(p, lo, mid));
    } else {
        lemma_rows_where_split(p, lo, mid, hi - 1);
        if p(hi - 1) {
            assert(rows_where(p, lo, mid) + rows_where(p, mid, hi) =~= (rows_where(p, lo, mid) + rows_where(
                p,
                mid,
                hi - 1,
            )).push((hi - 1) as u32));
        }
    }
}

/// A row enters PPU mode `m` exactly when it is not the first row, the
/// mode in its STAT value (bits 0-1, the value modulo 4) is `m`, and the
/// mode in the STAT value of the row before is not: bits 2-7 of STAT play
/// no part.
pub proof fn law_ppu_enters_mode(t: TableView, m: u8, row: int)
    ensures
        eval_of(t, Condition::PpuEntersMode(m), row) <==> (row != 0 && (t.u8_named("stat"@, row) matches Some(s)
            && s % 4 == m) && !(t.u8_named("stat"@, row - 1) matches Some(q) && q % 4 == m)),
{
    if let Some(s) = t.u8_named("stat"@, row) {
        assert(s & 3u8 == s % 4) by (bit_vector);
    }
    if let Some(q) = t.u8_named("stat"@, row - 1) {
        assert(q & 3u8 == q % 4) by (bit_vector);
    }
}

/// The LCD turns on at a row exactly when it is not the first row, and
/// LCDC bit 7 (a value of at least 0x80) is set there and clear in the row
/// before; it turns off when the bit goes the other way.
pub proof fn law_lcd_turns(t: TableView, row: int)
    ensures
        eval_of(t, Condition::LcdTurnsOn, row) <==> (row != 0 && (t.u8_named("lcdc"@, row) matches Some(c) && c
            >= 0x80) && (t.u8_named("lcdc"@, row - 1) matches Some(q) && q < 0x80)),
        eval_of(t, Condition::LcdTurnsOff, row) <==> (row != 0 && (t.u8_named("lcdc"@, row) matches Some(c) && c
            < 0x80) && (t.u8_named("lcdc"@, row - 1) matches Some(q) && q >= 0x80)),
{
    if let Some(c) = t.u8_named("lcdc"@, row) {
        assert(((c >> 7u8) & 1u8 == 1u8) == (c >= 0x80)) by (bit_vector);
    }
    if let Some(q) = t.u8_named("lcdc"@, row - 1) {
        assert(((q >> 7u8) & 1u8 == 1u8) == (q >= 0x80)) by (bit_vector);
    }
}

/// Querying a range split in two parts answers the rows of the first part
/// followed by those of the second (and a malformed condition fails alike).
pub proof fn law_query_range_split(t: TableView, s: Seq<char>, a: int, b: int, c: int)
    requires
        a <= b <= c,
    ensures
        query_range_of(t, s, a, b) is Err ==> query_range_of(t, s, a, c) == query_range_of(t, s, a, b)
            && query_range_of(t, s, b, c) == query_range_of(t, s, a, b),
        query_range_of(t, s, a, b) matches Ok(x) ==> query_range_of(t, s, b, c) matches Ok(y)
            && query_range_of(t, s, a, c) == Ok::<Seq<u32>, Seq<char>>(x + y),
{
    if let Ok(shape) = condition_of(s) {
        let n = t.rows as int;
        lemma_rows_where_split(shape_test(t, shape), min_of(a, n), min_of(b, n), min_of(c, n));
    }
}

impl ColumnStore {
    /// Evaluate a condition within a range of rows (clamped to the rows
    /// there are) and return the matching indices.
    pub fn query_range(&self, condition_str: &str, start: usize, end: usize) -> (r: Result<Vec<u32>, String>)
        requires
            self.wf(),
            self.table().full(),
        ensures
            match r {
                Ok(v) => query_range_of(self.table(), condition_str@, start as int, end as int) == Ok::<
                    Seq<u32>,
                    Seq<char>,
                >(v@),
                Err(m) => query_range_of(self.table(), condition_str@, start as int, end as int) == Err::<
                    Seq<u32>,
                    Seq<char>,
                >(m@),
            },
    {
        let ghost t = self.table();
        let condition = match parse_condition(condition_str) {
            Ok(c) => c,
            Err(m) => return Err(m),
        };
        proof {
            lemma_parsed_shape(condition_str@);
        }
        let ghost p = shape_test(t, condition.shape());
        let count = self.len;
        let lo = if start < count {
            start
        } else {
            count
        };
        let hi = if end < count {
            end
        } else {
            count
        };
        let mut indices: Vec<u32> = Vec::new();
        let mut i = lo;
        while i < hi
            invariant
                lo <= i,
                i <= hi || i == lo,
                hi <= count,
                count == t.rows,
                t == self.table(),
                self.wf(),
                t.full(),
                bits_ok(condition),
                !(condition.shape() is All) && !(condition.shape() is Any),
                p == shape_test(t, condition.shape()),
                indices@ == rows_where(p, lo as int, i as int),
            decreases hi - i,
        {
            proof {
                lemma_full_readable(t, i as int);
            }
            if self.eval_condition(&condition, i) {
                indices.push(#[verifier::truncate] (i as u32));
            }
            i += 1;
        }
        Ok(indices)
    }

    /// Evaluate a condition against all rows and return matching indices.
    pub fn query(&self, condition_str: &str) -> (r: Result<Vec<u32>, String>)
        requires
            self.wf(),
            self.table().full(),
        ensures
            match r {
                Ok(v) => query_range_of(self.table(), condition_str@, 0, self.table().rows as int) == Ok::<
                    Seq<u32>,
                    Seq<char>,
                >(v@),
                Err(m) => query_range_of(self.table(), condition_str@, 0, self.table().rows as int)
                    == Err::<Seq<u32>, Seq<char>>(m@),
            },
    {
        self.query_range(condition_str, 0, self.len)
    }

    /// Evaluate a parsed condition against all rows.
    pub fn query_condition(&self, condition: &Condition) -> (r: Vec<u32>)
        requires
            self.wf(),
            self.table().full(),
            forall|i: int| 0 <= i < self.table().rows ==> #[trigger] shifts_ok(self.table(), *condition, i),
        ensures
            r@ == rows_where(condition_test(self.table(), *condition), 0, self.table().rows as int),
    {
        let ghost t = self.table();
        let ghost p = condition_test(t, *condition);
        let mut indices: Vec<u32> = Vec::new();
        let mut i: usize = 0;
        while i < self.len
            invariant
                i <= self.len,
                t == self.table(),
                self.len == t.rows,
                self.wf(),
                t.full(),
                forall|j: int| 0 <= j < t.rows ==> #[trigger] shifts_ok(t, *condition, j),
                p == condition_test(t, *condition),
                indices@ == rows_where(p, 0, i as int),
            decreases self.len - i,
        {
            proof {
                lemma_full_readable(t, i as int);
            }
            if self.eval_condition(condition, i) {
                indices.push(#[verifier::truncate] (i as u32));
            }
            i += 1;
        }
        indices
    }
}

// ---------------------------------------------------------------------------
// Preparing two traces for comparison
// ---------------------------------------------------------------------------

/// What an operation that gives two stores answers: their tables, or the
/// diff error's message.
pub open spec fn pair_result_is(
    r: Result<(ColumnStore, ColumnStore), Error>,
    spec: Result<(TableView, TableView), Seq<char>>,
) -> bool {
    match r {
        Ok(p) => spec == Ok::<(TableView, TableView), Seq<char>>((p.0.table(), p.1.table()))
            && p.0.wf() && p.1.wf() && p.0.table().full() && p.1.table().full(),
        Err(e) => e is Diff && spec == Err::<(TableView, TableView), Seq<char>>(e->Diff_0@),
    }
}

/// An optional text as an optional character sequence.
pub open spec fn opt_text(o: Option<&str>) -> Option<Seq<char>> {
    match o {
        Some(s) => Some(s@),
        None => None,
    }
}

impl ColumnStore {
    /// Whether one of the first `limit` rows has PC (16 bits) `target`.
    fn pc_within(&self, col: usize, limit: usize, target: u16) -> (r: bool)
        requires
            self.wf(),
            self.table().full(),
            col < self.table().columns.len(),
            limit <= self.table().rows,
        ensures
            r == first_where(limit as int, pc_is(self.table(), col as int, target)) is Some,
    {
        let ghost t = self.table();
        let ghost p = pc_is(t, col as int, target);
        let mut i: usize = 0;
        while i < limit
            invariant
                i <= limit,
                limit <= t.rows,
                t == self.table(),
                self.wf(),
                t.full(),
                col < t.columns.len(),
                p == pc_is(t, col as int, target),
                first_where(i as int, p) is None,
            decreases limit - i,
        {
            proof {
                lemma_full_readable(t, i as int);
            }
            if #[verifier::truncate] (self.get_numeric_at(col, i) as u16) == target {
                assert(first_where(i + 1, p) == Some(i as int));
                proof {
                    lemma_first_where_stable(i + 1, limit as int, p);
                }
                return true;
            }
            i += 1;
        }
        false
    }

    /// Align two stores at their first common PC.
    fn align_pc(a: ColumnStore, b: ColumnStore) -> (r: Result<(ColumnStore, ColumnStore), Error>)
        requires
            a.wf(),
            b.wf(),
            a.table().full(),
            b.table().full(),
        ensures
            pair_result_is(r, align_pc_of(a.table(), b.table())),
    {
        let ghost ta = a.table();
        let ghost tb = b.table();
        let (ca, cb) = match (a.field_col("pc"), b.field_col("pc")) {
            (Some(ca), Some(cb)) => (ca, cb),
            _ => return Ok((a, b)),
        };
        proof {
            lemma_last_named_bound(ta.header.fields, "pc"@);
            lemma_last_named_bound(tb.header.fields, "pc"@);
        }
        if a.len == 0 || b.len == 0 {
            return Ok((a, b));
        }
        proof {
            lemma_full_readable(ta, 0);
            lemma_full_readable(tb, 0);
        }
        let pa = #[verifier::truncate] (a.get_numeric_at(ca, 0) as u16);
        let pb = #[verifier::truncate] (b.get_numeric_at(cb, 0) as u16);
        if pa == pb {
            return Ok((a, b));
        }
        let la = if a.len < 100 {
            a.len
        } else {
            100
        };
        let lb = if b.len < 100 {
            b.len
        } else {
            100
        };
        let target = if a.pc_within(ca, la, pb) {
            Some(pb)
        } else if b.pc_within(cb, lb, pa) {
            Some(pa)
        } else {
            None
        };
        let tp = match target {
            None => return Ok((a, b)),
            Some(tp) => tp,
        };
        let a2 = if pa != tp {
            match a.skip_to_pc(tp) {
                Ok(x) => x,
                Err(e) => return Err(e),
            }
        } else {
            a
        };
        let b2 = if pb != tp {
            match b.skip_to_pc(tp) {
                Ok(x) => x,
                Err(e) => return Err(e),
            }
        } else {
            b
        };
        Ok((a2, b2))
    }

    /// Prepare two stores for comparison with default PC alignment.
    pub fn prepare_for_diff(a: ColumnStore, b: ColumnStore) -> (r: Result<(ColumnStore, ColumnStore), Error>)
        requires
            a.wf(),
            b.wf(),
            a.table().full(),
            b.table().full(),
        ensures
            pair_result_is(r, prepare_of(a.table(), b.table(), None)),
    {
        Self::prepare_for_diff_with_sync(a, b, None)
    }

    /// Prepare two stores for comparison: collapse a T-cycle trace to
    /// instruction level when the other is not T-cycle, then align by the
    /// sync mode: `None` or `"pc"` aligns at the first common PC, `"none"`
    /// compares from the start, and a condition such as `"ly=0"` or
    /// `"lcdc&80"` aligns both at its first match.
    pub fn prepare_for_diff_with_sync(a: ColumnStore, b: ColumnStore, sync: Option<&str>) -> (r: Result<
        (ColumnStore, ColumnStore),
        Error,
    >)
        requires
            a.wf(),
            b.wf(),
            a.table().full(),
            b.table().full(),
        ensures
            pair_result_is(r, prepare_of(a.table(), b.table(), opt_text(sync))),
    {
        let at = matches!(a.header.trigger, Trigger::Tcycle);
        let bt = matches!(b.header.trigger, Trigger::Tcycle);
        let a1 = if at && !bt {
            match a.collapse_to_instructions() {
                Ok(x) => x,
                Err(e) => return Err(e),
            }
        } else {
            a
        };
        let b1 = if bt && !at {
            match b.collapse_to_instructions() {
                Ok(x) => x,
                Err(e) => return Err(e),
            }
        } else {
            b
        };
        let mode: &str = match sync {
            Some(s) => s,
            None => "pc",
        };
        if str_eq(mode, "none") {
            Ok((a1, b1))
        } else if str_eq(mode, "pc") {
            Self::align_pc(a1, b1)
        } else {
            let a2 = match a1.skip_until(mode) {
                Ok(x) => x,
                Err(e) => return Err(e),
            };
            let b2 = match b1.skip_until(mode) {
                Ok(x) => x,
                Err(e) => return Err(e),
            };
            Ok((a2, b2))
        }
    }
}


// ---------------------------------------------------------------------------
// Loading from trace entries
// ---------------------------------------------------------------------------

/// The value an entry's field gives a column of type `kind`: a flag, a
/// text (text columns only; others get nothing), or a number (0 for a
/// missing field or a value that is not a `u64`).
pub open spec fn entry_cell(kind: FieldType, v: Option<FieldValueView>) -> Option<Cell> {
    match v {
        Some(FieldValueView::Bool(b)) => Some(cell_of_flag(kind, b)),
        Some(FieldValueView::Text(t)) => if kind == FieldType::Str {
            Some(Cell::Text(t))
        } else {
            None
        },
        Some(FieldValueView::Number(n)) => Some(cell_of_num(kind, n)),
        _ => Some(cell_of_num(kind, 0)),
    }
}

/// The values a column of field `name` gets from the first `n` entries.
pub open spec fn loaded_cells(kind: FieldType, name: Seq<char>, es: Seq<Map<Seq<char>, FieldValueView>>, n: int) -> Seq<
    Cell,
>
    decreases n,
{
    if n <= 0 {
        Seq::empty()
    } else {
        let prev = loaded_cells(kind, name, es, n - 1);
        match entry_cell(kind, entry_get(es[n - 1], name)) {
            Some(c) => prev.push(c),
            None => prev,
        }
    }
}

/// The column of field `name` loaded from entries.
pub open spec fn loaded_column(name: Seq<char>, es: Seq<Map<Seq<char>, FieldValueView>>, n: int) -> ColumnView {
    ColumnView { kind: type_of_field(name), cells: loaded_cells(type_of_field(name), name, es, n) }
}

/// The table loaded from entries: one row per entry.
pub open spec fn loaded_table(h: HeaderView, es: Seq<Map<Seq<char>, FieldValueView>>) -> TableView {
    TableView {
        header: h,
        columns: Seq::new(h.fields.len(), |c: int| loaded_column(h.fields[c], es, es.len() as int)),
        rows: es.len(),
    }
}

/// Load a column store from trace entries (as read from a trace file):
/// each header field of each entry is pushed as a flag, a text, or a
/// number.
pub fn load_column_store(header: TraceHeader, entries: &Vec<TraceEntry>) -> (r: ColumnStore)
    requires
        entries@.len() < usize::MAX,
    ensures
        r.wf(),
        r.table() == loaded_table(header@, entries_view(entries@)),
{
    let ghost h = header@;
    let ghost es = entries_view(entries@);
    let names = crate::header::copy_strings(&header.fields);
    let mut store = ColumnStore::new(header);
    let nf = names.len();
    let mut k: usize = 0;
    assert forall|c: int| 0 <= c < nf implies (#[trigger] store.table().columns[c]) == loaded_column(
        h.fields[c],
        es,
        0,
    ) by {
        assert(store.table().columns[c].cells =~= Seq::<Cell>::empty());
    }
    while k < entries.len()
        invariant
            k <= entries@.len(),
            entries@.len() < usize::MAX,
            es == entries_view(entries@),
            h.fields == crate::header::string_texts(names@),
            nf == names@.len(),
            store.wf(),
            store.table().header == h,
            store.table().rows == k,
            store.table().columns.len() == nf,
            forall|c: int|
                0 <= c < nf ==> (#[trigger] store.table().columns[c]) == loaded_column(h.fields[c], es, k as int),
        decreases entries@.len() - k,
    {
        let entry = &entries[k];
        let mut col: usize = 0;
        while col < nf
            invariant
                col <= nf,
                k < entries@.len(),
                entries@.len() < usize::MAX,
                es == entries_view(entries@),
                entry@ == es[k as int],
                h.fields == crate::header::string_texts(names@),
                nf == names@.len(),
                store.wf(),
                store.table().header == h,
                store.table().rows == k,
                store.table().columns.len() == nf,
                forall|c: int|
                    0 <= c < nf ==> (#[trigger] store.table().columns[c]) == loaded_column(
                        h.fields[c],
                        es,
                        if c < col {
                            k + 1
                        } else {
                            k as int
                        },
                    ),
            decreases nf - col,
        {
            let name = names[col].as_str();
            assert(name@ == h.fields[col as int]);
            let ghost before = store.table();
            assert(before.columns[col as int].kind == type_of_field(name@));
            match entry.get(name) {
                Some(FieldValue::Bool(b)) => store.push_bool(col, *b),
                Some(FieldValue::Text(t)) => store.push_str(col, t.as_str()),
                Some(FieldValue::Number(n)) => store.push_u64(col, *n),
                _ => store.push_u64(col, 0),
            }
            assert forall|c: int| 0 <= c < nf implies (#[trigger] store.table().columns[c]) == loaded_column(
                h.fields[c],
                es,
                if c < col + 1 {
                    k + 1
                } else {
                    k as int
                },
            ) by {
                if c == col {
                    assert(store.table().columns[c] =~= loaded_column(h.fields[c], es, k + 1));
                } else {
                    assert(store.table().columns[c] == before.columns[c]);
                }
            }
            col += 1;
        }
        store.finish_row();
        k += 1;
    }
    assert(store.table().columns =~= loaded_table(h, es).columns);
    store
}


// ---------------------------------------------------------------------------
// Loading and reading back
// ---------------------------------------------------------------------------

/// The key under which `to_entry` puts a column's value: `cy` for the
/// `u64` column, the field's name otherwise.
pub open spec fn entry_key(kind: FieldType, name: Seq<char>) -> Seq<char> {
    if kind == FieldType::UInt64 {
        "cy"@
    } else {
        name
    }
}

/// Whether a value has the form that a field of type `kind` stores, within
/// the field's width.
pub open spec fn fits_type(kind: FieldType, v: FieldValueView) -> bool {
    match (kind, v) {
        (FieldType::UInt64, FieldValueView::Number(_)) => true,
        (FieldType::UInt16, FieldValueView::Number(n)) => n <= 0xffff,
        (FieldType::UInt8, FieldValueView::Number(n)) => n <= 0xff,
        (FieldType::Bool, FieldValueView::Bool(_)) => true,
        (FieldType::Str, FieldValueView::Text(_)) => true,
        _ => false,
    }
}

/// Whether entry `e` gives field `name` a value that fits the field's type.
pub open spec fn gives_fitting(e: Map<Seq<char>, FieldValueView>, name: Seq<char>) -> bool {
    e.contains_key(name) && fits_type(type_of_field(name), e[name])
}

/// The value `to_entry` reads back from a column at a row.
pub open spec fn read_back(c: ColumnView, row: int) -> FieldValueView {
    match c.kind {
        FieldType::Bool => FieldValueView::Bool(cell_flag(c.cells[row])),
        FieldType::Str => FieldValueView::Text(col_text(c, row)),
        FieldType::UInt64 => FieldValueView::Number(cell_num(c.cells[row])),
        FieldType::UInt16 => word_value(cell_num(c.cells[row]) as u16),
        FieldType::UInt8 => byte_value(cell_num(c.cells[row]) as u8),
    }
}

/// A value in the form an entry stores for a field of type `kind`: 8- and
/// 16-bit numbers as their hex text (`set_u8`, `set_u16`), others as they
/// are.
pub open spec fn stored_form(kind: FieldType, v: FieldValueView) -> FieldValueView {
    match (kind, v) {
        (FieldType::UInt8, FieldValueView::Number(n)) => byte_value(n as u8),
        (FieldType::UInt16, FieldValueView::Number(n)) => word_value(n as u16),
        _ => v,
    }
}

/// Loading entries that all give field `name` a fitting value stores one
/// value per entry, which reads back as the entry's value.
proof fn lemma_loaded_cells_fit(name: Seq<char>, es: Seq<Map<Seq<char>, FieldValueView>>, n: int)
    requires
        0 <= n <= es.len(),
        forall|i: int| 0 <= i < n ==> gives_fitting(#[trigger] es[i], name),
    ensures
        loaded_cells(type_of_field(name), name, es, n).len() == n,
        forall|i: int|
            0 <= i < n ==> read_back(
                ColumnView { kind: type_of_field(name), cells: loaded_cells(type_of_field(name), name, es, n) },
                i,
            ) == stored_form(type_of_field(name), (#[trigger] es[i])[name]),
    decreases n,
{
    let kind = type_of_field(name);
    if n > 0 {
        lemma_loaded_cells_fit(name, es, n - 1);
        let prev = loaded_cells(kind, name, es, n - 1);
        let cells = loaded_cells(kind, name, es, n);
        assert(gives_fitting(es[n - 1], name));
        let v = es[n - 1][name];
        assert(entry_get(es[n - 1], name) == Some(v));
        match v {
            FieldValueView::Number(x) => {
                if kind == FieldType::UInt8 {
                    assert((x as u8) as u64 == x);
                } else if kind == FieldType::UInt16 {
                    assert((x as u16) as u64 == x);
                }
            },
            _ => {},
        }
        assert(cells =~= prev.push(cells[n - 1]));
        assert forall|i: int| 0 <= i < n implies read_back(ColumnView { kind, cells }, i) == stored_form(
            kind,
            (#[trigger] es[i])[name],
        ) by {
            if i < n - 1 {
                assert(cells[i] == prev[i]);
                assert(read_back(ColumnView { kind, cells: prev }, i) == stored_form(kind, es[i][name]));
            }
        }
    }
}

/// Reading the first `k` columns at a row gives each of them its value
/// under its key, when no two of them share a key.
proof fn lemma_entry_of_row_keys(t: TableView, row: int, k: int)
    requires
        0 <= k <= t.columns.len(),
        k <= t.header.fields.len(),
        forall|a: int, b: int|
            0 <= a < b < k ==> entry_key(t.columns[a].kind, t.header.fields[a]) != entry_key(
                t.columns[b].kind,
                t.header.fields[b],
            ),
    ensures
        forall|c: int|
            0 <= c < k ==> #[trigger] entry_of_row(t, row, k).contains_key(
                entry_key(t.columns[c].kind, t.header.fields[c]),
            ) && entry_of_row(t, row, k)[entry_key(t.columns[c].kind, t.header.fields[c])] == read_back(
                t.columns[c],
                row,
            ),
    decreases k,
{
    if k > 0 {
        lemma_entry_of_row_keys(t, row, k - 1);
        let last = t.columns[k - 1];
        let m = entry_of_row(t, row, k);
        let key = entry_key(last.kind, t.header.fields[k - 1]);
        assert(m == entry_of_row(t, row, k - 1).insert(key, read_back(last, row)));
        assert forall|c: int| 0 <= c < k implies #[trigger] m.contains_key(
            entry_key(t.columns[c].kind, t.header.fields[c]),
        ) && m[entry_key(t.columns[c].kind, t.header.fields[c])] == read_back(t.columns[c], row) by {
            if c < k - 1 {
                assert(entry_key(t.columns[c].kind, t.header.fields[c]) != key);
                assert(entry_of_row(t, row, k - 1).contains_key(entry_key(t.columns[c].kind, t.header.fields[c])));
            }
        }
    }
}

/// Loading entries into a store and reading a row back gives the entry's
/// values: every header field keeps its value (the `u64` column's under
/// `cy`; 8- and 16-bit numbers in the hex form entries store them in),
/// when each entry gives each header field a value that fits the field's
/// type and no two fields are read back under the same key.
pub proof fn law_store_round_trip(h: HeaderView, es: Seq<Map<Seq<char>, FieldValueView>>, row: int, c: int)
    requires
        0 <= row < es.len(),
        0 <= c < h.fields.len(),
        forall|i: int, f: int|
            0 <= i < es.len() && 0 <= f < h.fields.len() ==> gives_fitting(#[trigger] es[i], #[trigger] h.fields[f]),
        forall|a: int, b: int|
            0 <= a < b < h.fields.len() ==> entry_key(type_of_field(h.fields[a]), h.fields[a]) != entry_key(
                type_of_field(h.fields[b]),
                h.fields[b],
            ),
    ensures
        entry_of_row(loaded_table(h, es), row, h.fields.len() as int).contains_key(
            entry_key(type_of_field(h.fields[c]), h.fields[c]),
        ),
        entry_of_row(loaded_table(h, es), row, h.fields.len() as int)[entry_key(
            type_of_field(h.fields[c]),
            h.fields[c],
        )] == stored_form(type_of_field(h.fields[c]), es[row][h.fields[c]]),
{
    let t = loaded_table(h, es);
    let n = h.fields.len() as int;
    assert forall|a: int, b: int| 0 <= a < b < n implies entry_key(t.columns[a].kind, t.header.fields[a]) != entry_key(
        t.columns[b].kind,
        t.header.fields[b],
    ) by {
        assert(t.columns[a].kind == type_of_field(h.fields[a]));
        assert(t.columns[b].kind == type_of_field(h.fields[b]));
    }
    lemma_entry_of_row_keys(t, row, n);
    assert(t.columns[c].kind == type_of_field(h.fields[c]));
    assert(entry_of_row(t, row, n).contains_key(entry_key(t.columns[c].kind, t.header.fields[c])));
    let name = h.fields[c];
    assert forall|i: int| 0 <= i < es.len() implies gives_fitting(#[trigger] es[i], name) by {
        assert(gives_fitting(es[i], h.fields[c]));
    }
    lemma_loaded_cells_fit(name, es, es.len() as int);
    assert(t.columns[c] == loaded_column(name, es, es.len() as int));
    assert(read_back(t.columns[c], row) == stored_form(type_of_field(name), es[row][name]));
}

// ---------------------------------------------------------------------------
// Complete stores and entry conversion
// ---------------------------------------------------------------------------

/// Whether every column of a table holds a value for each completed row.
pub open spec fn complete(t: TableView) -> bool {
    forall|c: int| 0 <= c < t.columns.len() ==> (#[trigger] t.columns[c]).cells.len() >= t.rows
}

/// The entry `to_entry` builds from the first `k` columns at `row`: the
/// `u64` column's value under `cy`, the others' under their field names.
pub open spec fn entry_of_row(t: TableView, row: int, k: int) -> Map<Seq<char>, FieldValueView>
    decreases k,
{
    if k <= 0 {
        Map::empty()
    } else {
        let prev = entry_of_row(t, row, k - 1);
        let c = t.columns[k - 1];
        let name = t.header.fields[k - 1];
        match c.kind {
            FieldType::UInt64 => prev.insert("cy"@, FieldValueView::Number(cell_num(c.cells[row]))),
            FieldType::Bool => prev.insert(name, FieldValueView::Bool(cell_flag(c.cells[row]))),
            FieldType::Str => prev.insert(name, FieldValueView::Text(col_text(c, row))),
            FieldType::UInt16 => prev.insert(name, word_value(cell_num(c.cells[row]) as u16)),
            _ => prev.insert(name, byte_value(cell_num(c.cells[row]) as u8)),
        }
    }
}

/// The number an entry gives field `name` in `from_entries`: a number that
/// fits in a `u64`, else 0.
pub open spec fn num_or_zero(e: Map<Seq<char>, FieldValueView>, name: Seq<char>) -> u64 {
    if e.contains_key(name) {
        match crate::entry::value_u64(e[name]) {
            Some(n) => n,
            None => 0,
        }
    } else {
        0
    }
}

/// The column of field `name` that `from_entries` builds from the first
/// `n` entries.
pub open spec fn number_column(name: Seq<char>, es: Seq<Map<Seq<char>, FieldValueView>>, n: int) -> ColumnView {
    ColumnView {
        kind: type_of_field(name),
        cells: Seq::new(n as nat, |i: int| cell_of_num(type_of_field(name), num_or_zero(es[i], name))),
    }
}

/// The table `from_entries` builds.
pub open spec fn number_table(h: HeaderView, es: Seq<Map<Seq<char>, FieldValueView>>) -> TableView {
    TableView {
        header: h,
        columns: Seq::new(h.fields.len(), |c: int| number_column(h.fields[c], es, es.len() as int)),
        rows: es.len(),
    }
}

/// The value a field's column gets from an entry read from JSON: a flag
/// as a flag, a number as a number, anything else (or nothing) as 0.
pub open spec fn parsed_cell(kind: FieldType, e: Map<Seq<char>, FieldValueView>, name: Seq<char>) -> Cell {
    match entry_get(e, name) {
        Some(FieldValueView::Bool(b)) => cell_of_flag(kind, b),
        Some(FieldValueView::Number(n)) => cell_of_num(kind, n),
        _ => cell_of_num(kind, 0),
    }
}

/// The column of field `name` that `from_parsed_entries` builds from the
/// first `n` entries.
pub open spec fn parsed_column(name: Seq<char>, es: Seq<Map<Seq<char>, FieldValueView>>, n: int) -> ColumnView {
    ColumnView {
        kind: type_of_field(name),
        cells: Seq::new(n as nat, |i: int| parsed_cell(type_of_field(name), es[i], name)),
    }
}

/// The table `from_parsed_entries` builds.
pub open spec fn parsed_table(h: HeaderView, es: Seq<Map<Seq<char>, FieldValueView>>) -> TableView {
    TableView {
        header: h,
        columns: Seq::new(h.fields.len(), |c: int| parsed_column(h.fields[c], es, es.len() as int)),
        rows: es.len(),
    }
}

impl ColumnStore {
    /// Whether every column holds a value for each completed row.
    pub fn is_complete(&self) -> (r: bool)
        ensures
            r == complete(self.table()),
    {
        let ghost t = self.table();
        let mut c: usize = 0;
        while c < self.columns.len()
            invariant
                c <= self.columns@.len(),
                t == self.table(),
                forall|k: int| 0 <= k < c ==> (#[trigger] t.columns[k]).cells.len() >= t.rows,
            decreases self.columns@.len() - c,
        {
            if self.columns[c].len() < self.len {
                assert(t.columns[c as int].cells.len() < t.rows);
                return false;
            }
            c += 1;
        }
        true
    }

    /// The entry of row `index`: each field's value under its name, but
    /// the `u64` column's under `cy`.
    pub fn to_entry(&self, index: usize) -> (r: TraceEntry)
        requires
            self.wf(),
            forall|c: int| 0 <= c < self.table().columns.len() ==> (#[trigger] self.table().columns[c]).cells.len() > index,
        ensures
            r@ == entry_of_row(self.table(), index as int, self.table().columns.len() as int),
    {
        let ghost t = self.table();
        let fields = &self.header.fields;
        assert(t.header.fields == crate::header::string_texts(fields@));
        let mut entry = TraceEntry::new();
        let mut col: usize = 0;
        while col < self.columns.len()
            invariant
                col <= self.columns@.len(),
                t == self.table(),
                t.wf(),
                t.header.fields == crate::header::string_texts(fields@),
                forall|c: int| 0 <= c < t.columns.len() ==> (#[trigger] t.columns[c]).cells.len() > index,
                entry@ == entry_of_row(t, index as int, col as int),
            decreases self.columns@.len() - col,
        {
            let name = fields[col].as_str();
            assert(name@ == t.header.fields[col as int]);
            assert(t.columns[col as int] == self.columns@[col as int]@);
            match &self.columns[col] {
                ColumnData::U64(v) => entry.set_cy(v[index]),
                ColumnData::U16(v) => entry.set_u16(name, v[index]),
                ColumnData::U8(v) => entry.set_u8(name, v[index]),
                ColumnData::Bool(v) => entry.set_bool(name, v[index]),
                ColumnData::Str(v) => entry.set_str(name, v[index].as_str()),
            }
            col += 1;
        }
        entry
    }

    /// A store of the entries' numbers: each field's value as a `u64`
    /// (0 when the entry has none, or not a number), stored in the field's
    /// column.
    pub fn from_entries(header: TraceHeader, entries: &Vec<TraceEntry>) -> (r: ColumnStore)
        requires
            entries@.len() < usize::MAX,
        ensures
            r.wf(),
            r.table() == number_table(header@, entries_view(entries@)),
    {
        let ghost h = header@;
        let ghost es = entries_view(entries@);
        let names = crate::header::copy_strings(&header.fields);
        let mut store = ColumnStore::with_capacity(header, entries.len());
        let nf = names.len();
        assert forall|c: int| 0 <= c < nf implies (#[trigger] store.table().columns[c]) == number_column(
            h.fields[c],
            es,
            0,
        ) by {
            assert(store.table().columns[c].cells =~= Seq::<Cell>::empty());
            assert(number_column(h.fields[c], es, 0).cells =~= Seq::<Cell>::empty());
        }
        let mut k: usize = 0;
        while k < entries.len()
            invariant
                k <= entries@.len(),
                entries@.len() < usize::MAX,
                es == entries_view(entries@),
                h.fields == crate::header::string_texts(names@),
                nf == names@.len(),
                store.wf(),
                store.table().header == h,
                store.table().rows == k,
                store.table().columns.len() == nf,
                forall|c: int| 0 <= c < nf ==> (#[trigger] store.table().columns[c]) == number_column(h.fields[c], es, k as int),
            decreases entries@.len() - k,
        {
            let entry = &entries[k];
            assert(entry@ == es[k as int]);
            let mut col: usize = 0;
            while col < nf
                invariant
                    col <= nf,
                    k < entries@.len(),
                    entries@.len() < usize::MAX,
                    es == entries_view(entries@),
                    entry@ == es[k as int],
                    h.fields == crate::header::string_texts(names@),
                    nf == names@.len(),
                    store.wf(),
                    store.table().header == h,
                    store.table().rows == k,
                    store.table().columns.len() == nf,
                    forall|c: int|
                        0 <= c < nf ==> (#[trigger] store.table().columns[c]) == number_column(
                            h.fields[c],
                            es,
                            if c < col {
                                k + 1
                            } else {
                                k as int
                            },
                        ),
                decreases nf - col,
            {
                let name = names[col].as_str();
                assert(name@ == h.fields[col as int]);
                let val = match entry.get(name) {
                    Some(FieldValue::Number(n)) => *n,
                    _ => 0,
                };
                assert(val == num_or_zero(es[k as int], h.fields[col as int]));
                let ghost before = store.table();
                store.push_u64(col, val);
                proof {
                    let kind = type_of_field(h.fields[col as int]);
                    assert(before.columns[col as int].kind == kind);
                    assert(store.table().columns[col as int].cells =~= number_column(
                        h.fields[col as int],
                        es,
                        k + 1,
                    ).cells);
                    assert forall|c: int|
                        0 <= c < nf implies (#[trigger] store.table().columns[c]) == number_column(
                        h.fields[c],
                        es,
                        if c < col + 1 {
                            k + 1
                        } else {
                            k as int
                        },
                    ) by {
                        if c != col {
                            assert(store.table().columns[c] == before.columns[c]);
                        }
                    }
                }
                col += 1;
            }
            store.finish_row();
            k += 1;
        }
        assert(store.table() =~= number_table(h, es)) by {
            assert(store.table().columns =~= number_table(h, es).columns);
        }
        store
    }

    /// A store of entries read from a trace's JSON lines: each field's
    /// flag pushed as a flag, its number (when it fits a `u64`) as a
    /// number, and anything else, or a missing field, as 0.
    pub fn from_parsed_entries(header: TraceHeader, entries: &Vec<TraceEntry>) -> (r: ColumnStore)
        requires
            entries@.len() < usize::MAX,
        ensures
            r.wf(),
            r.table() == parsed_table(header@, entries_view(entries@)),
            r.table().full(),
    {
        let ghost h = header@;
        let ghost es = entries_view(entries@);
        let names = crate::header::copy_strings(&header.fields);
        let mut store = ColumnStore::with_capacity(header, entries.len());
        let nf = names.len();
        assert forall|c: int| 0 <= c < nf implies (#[trigger] store.table().columns[c]) == parsed_column(
            h.fields[c],
            es,
            0,
        ) by {
            assert(store.table().columns[c].cells =~= Seq::<Cell>::empty());
            assert(parsed_column(h.fields[c], es, 0).cells =~= Seq::<Cell>::empty());
        }
        let mut k: usize = 0;
        while k < entries.len()
            invariant
                k <= entries@.len(),
                entries@.len() < usize::MAX,
                es == entries_view(entries@),
                h.fields == crate::header::string_texts(names@),
                nf == names@.len(),
                store.wf(),
                store.table().header == h,
                store.table().rows == k,
                store.table().columns.len() == nf,
                forall|c: int| 0 <= c < nf ==> (#[trigger] store.table().columns[c]) == parsed_column(h.fields[c], es, k as int),
            decreases entries@.len() - k,
        {
            let entry = &entries[k];
            assert(entry@ == es[k as int]);
            let mut col: usize = 0;
            while col < nf
                invariant
                    col <= nf,
                    k < entries@.len(),
                    entries@.len() < usize::MAX,
                    es == entries_view(entries@),
                    entry@ == es[k as int],
                    h.fields == crate::header::string_texts(names@),
                    nf == names@.len(),
                    store.wf(),
                    store.table().header == h,
                    store.table().rows == k,
                    store.table().columns.len() == nf,
                    forall|c: int|
                        0 <= c < nf ==> (#[trigger] store.table().columns[c]) == parsed_column(
                            h.fields[c],
                            es,
                            if c < col {
                                k + 1
                            } else {
                                k as int
                            },
                        ),
                decreases nf - col,
            {
                let name = names[col].as_str();
                assert(name@ == h.fields[col as int]);
                let ghost before = store.table();
                match entry.get(name) {
                    Some(FieldValue::Bool(b)) => store.push_bool(col, *b),
                    Some(FieldValue::Number(n)) => store.push_u64(col, *n),
                    _ => store.push_u64(col, 0),
                }
                proof {
                    let kind = type_of_field(h.fields[col as int]);
                    assert(before.columns[col as int].kind == kind);
                    assert(store.table().columns[col as int].cells =~= parsed_column(
                        h.fields[col as int],
                        es,
                        k + 1,
                    ).cells);
                    assert forall|c: int|
                        0 <= c < nf implies (#[trigger] store.table().columns[c]) == parsed_column(
                        h.fields[c],
                        es,
                        if c < col + 1 {
                            k + 1
                        } else {
                            k as int
                        },
                    ) by {
                        if c != col {
                            assert(store.table().columns[c] == before.columns[c]);
                        }
                    }
                }
                col += 1;
            }
            store.finish_row();
            k += 1;
        }
        assert(store.table() =~= parsed_table(h, es)) by {
            assert(store.table().columns =~= parsed_table(h, es).columns);
        }
        assert(store.table().full());
        store
    }
}

} // verus!
