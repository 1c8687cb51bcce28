//! A trace as a viewer sees it: a column store with an optional
//! instruction-level downsampling, the ROM for disassembly, and the bytes
//! it was loaded from. Rows, frames, pixel maps, summaries and diffs
//! against another trace are read through it.
use vstd::prelude::*;

use crate::column_store::{
    col_num, frame_boundaries_of, lemma_full_readable, lemma_last_named_bound, ColumnStore, TableView,
};
use crate::column_store::{col_flag, col_text, complete, query_range_of};
use crate::entry::{FieldValue, FieldValueView, TraceEntry};
use crate::framebuffer::{
    build_pixel_position_map, build_pixel_position_map_downsampled, build_reverse_pixel_map,
    build_reverse_pixel_map_downsampled, ds_end, ds_positions, ds_reverse_value, ds_row, frame_source_ok, min_int,
    partial_frame_pixels, pix_bytes, position_map_of, reconstruct_partial_frame, reconstruct_partial_frame_downsampled,
    reverse_map_of, rgba_of,
};
use crate::downsample::{ascending_below, DownsampledStore};
use crate::header::Trigger;
use crate::profile::{field_type, type_of_field, FieldType};
use crate::text::{chars_of, concat3, str_eq};

verus! {

/// The rows below `n` where the column `pc` changes: row 0, then each row
/// whose value differs from the row before.
pub open spec fn pc_changes(t: TableView, pc: int, n: int) -> Seq<usize>
    decreases n,
{
    if n <= 0 {
        Seq::empty()
    } else if n == 1 {
        seq![0usize]
    } else if t.num(pc, n - 1) != t.num(pc, n - 2) {
        pc_changes(t, pc, n - 1).push((n - 1) as usize)
    } else {
        pc_changes(t, pc, n - 1)
    }
}

/// The downsampling of a trace to one row per instruction: the rows where
/// `pc` changes; none when there is no `pc` field or no row.
pub open spec fn downsampling_of(t: TableView) -> Option<Seq<usize>> {
    match t.col_of("pc"@) {
        None => None,
        Some(pc) => if t.rows == 0 {
            None
        } else {
            Some(pc_changes(t, pc, t.rows as int))
        },
    }
}

proof fn lemma_pc_changes(t: TableView, pc: int, n: int)
    requires
        0 <= n,
        n <= usize::MAX,
    ensures
        ascending_below(pc_changes(t, pc, n), n),
        n > 0 ==> pc_changes(t, pc, n).len() > 0 && pc_changes(t, pc, n)[0] == 0,
        pc_changes(t, pc, n).len() <= n,
    decreases n,
{
    if n > 1 {
        lemma_pc_changes(t, pc, n - 1);
    }
}

/// A trace as a viewer reads it.
pub struct TraceStore {
    store: ColumnStore,
    rom: Option<Vec<u8>>,
    original_bytes: Option<Vec<u8>>,
    downsample_map: Option<Vec<usize>>,
}

/// The value of an optional byte vector.
pub open spec fn opt_bytes(v: Option<Vec<u8>>) -> Option<Seq<u8>> {
    match v {
        Some(b) => Some(b@),
        None => None,
    }
}

impl TraceStore {
    /// The table of the underlying store.
    pub closed spec fn table(&self) -> TableView {
        self.store.table()
    }

    /// The downsampling in effect, when one is.
    pub closed spec fn downsampling(&self) -> Option<Seq<usize>> {
        match self.downsample_map {
            Some(m) => Some(m@),
            None => None,
        }
    }

    /// The loaded ROM, when there is one.
    pub closed spec fn rom_view(&self) -> Option<Seq<u8>> {
        opt_bytes(self.rom)
    }

    /// The bytes the trace was loaded from, when kept.
    pub closed spec fn bytes_view(&self) -> Option<Seq<u8>> {
        opt_bytes(self.original_bytes)
    }

    /// The invariant: a well-formed, complete store, and a downsampling
    /// (when there is one) that is the store's.
    pub closed spec fn wf(&self) -> bool {
        &&& self.store.wf()
        &&& complete(self.store.table())
        &&& (self.downsample_map matches Some(m) ==> downsampling_of(self.store.table()) == Some(m@))
    }

    /// The number of rows the viewer shows: the downsampled rows when
    /// downsampled, else all.
    pub open spec fn shown_rows(&self) -> int {
        match self.downsampling() {
            Some(m) => m.len() as int,
            None => self.table().rows as int,
        }
    }

    /// The store row a shown row stands for.
    pub open spec fn store_row(&self, row: int) -> int {
        match self.downsampling() {
            Some(m) => if 0 <= row < m.len() {
                m[row] as int
            } else {
                row
            },
            None => row,
        }
    }

    /// A viewer of a store, not downsampled, without a ROM.
    pub fn new(store: ColumnStore, original_bytes: Option<Vec<u8>>) -> (r: TraceStore)
        requires
            store.wf(),
            complete(store.table()),
        ensures
            r.wf(),
            r.table() == store.table(),
            r.downsampling() is None,
            r.rom_view() is None,
            r.bytes_view() == opt_bytes(original_bytes),
    {
        TraceStore { store, rom: None, original_bytes, downsample_map: None }
    }

    /// The underlying store.
    pub fn store(&self) -> (r: &ColumnStore)
        ensures
            r.table() == self.table(),
    {
        &self.store
    }

    /// Downsample to one row per instruction: keep row 0 and each row
    /// whose `pc` differs from the row before. Without a `pc` field or a
    /// row, nothing is downsampled.
    pub fn enable_downsampling(&mut self)
        requires
            old(self).wf(),
        ensures
            final(self).wf(),
            final(self).table() == old(self).table(),
            final(self).downsampling() == downsampling_of(old(self).table()),
            final(self).rom_view() == old(self).rom_view(),
            final(self).bytes_view() == old(self).bytes_view(),
    {
        let ghost t = self.store.table();
        let mut map: Vec<usize> = Vec::new();
        match self.store.field_col("pc") {
            Some(pc) => {
                proof {
                    lemma_last_named_bound(t.header.fields, "pc"@);
                }
                let count = self.store.entry_count();
                proof {
                    lemma_pc_changes(t, pc as int, count as int);
                }
                if count > 0 {
                    map.push(0);
                    proof {
                        lemma_full_readable(t, 0);
                    }
                    assert(crate::column_store::col_readable(t.columns[pc as int], 0));
                    let mut prev_pc = self.store.column(pc).get_numeric(0);
                    let mut i: usize = 1;
                    assert(map@ =~= pc_changes(t, pc as int, 1));
                    while i < count
                        invariant
                            1 <= i <= count,
                            count == t.rows,
                            t == self.store.table(),
                            self.store.wf(),
                            complete(t),
                            pc < t.columns.len(),
                            prev_pc == t.num(pc as int, i - 1),
                            map@ == pc_changes(t, pc as int, i as int),
                        decreases count - i,
                    {
                        proof {
                            lemma_full_readable(t, i as int);
                        }
                        assert(crate::column_store::col_readable(t.columns[pc as int], i as int));
                        let cur_pc = self.store.column(pc).get_numeric(i);
                        if cur_pc != prev_pc {
                            map.push(i);
                            prev_pc = cur_pc;
                        }
                        i += 1;
                    }
                }
                assert(count > 0 ==> map@ == pc_changes(t, pc as int, count as int));
                assert(count == 0 ==> map@.len() == 0);
            },
            None => {},
        }
        if map.len() == 0 {
            self.downsample_map = None;
        } else {
            self.downsample_map = Some(map);
        }
    }

    /// Show every row again.
    pub fn disable_downsampling(&mut self)
        requires
            old(self).wf(),
        ensures
            final(self).wf(),
            final(self).table() == old(self).table(),
            final(self).downsampling() is None,
            final(self).rom_view() == old(self).rom_view(),
            final(self).bytes_view() == old(self).bytes_view(),
    {
        self.downsample_map = None;
    }

    /// Whether the viewer is downsampled.
    pub fn is_downsampled(&self) -> (r: bool)
        ensures
            r == self.downsampling() is Some,
    {
        self.downsample_map.is_some()
    }

    /// The store row a shown row stands for.
    pub fn map_row(&self, row: usize) -> (r: usize)
        ensures
            r == self.store_row(row as int),
    {
        match &self.downsample_map {
            Some(map) => if row < map.len() {
                map[row]
            } else {
                row
            },
            None => row,
        }
    }

    /// The number of rows shown.
    pub fn entry_count(&self) -> (r: usize)
        ensures
            r == self.shown_rows(),
    {
        match &self.downsample_map {
            Some(map) => map.len(),
            None => self.store.entry_count(),
        }
    }

    /// The number of frames of the trace.
    pub fn frame_count(&self) -> (r: usize)
        requires
            self.wf(),
        ensures
            r == frame_boundaries_of(self.table()).len(),
    {
        self.store.frame_boundaries().len()
    }

    /// The store rows `[start, end)` of frame `frame_index`: from its
    /// boundary to the next one, or to the end of the trace.
    pub fn frame_entry_range(&self, frame_index: usize) -> (r: Option<(usize, usize)>)
        requires
            self.wf(),
        ensures
            r == frame_range_of(self.table(), frame_index as int),
    {
        let boundaries = self.store.frame_boundaries();
        if frame_index >= boundaries.len() {
            return None;
        }
        let start = boundaries[frame_index] as usize;
        let end = if frame_index + 1 < boundaries.len() {
            boundaries[frame_index + 1] as usize
        } else {
            self.store.entry_count()
        };
        Some((start, end))
    }

    /// The header's field names but `pix`.
    pub fn field_names(&self) -> (r: Vec<String>)
        ensures
            crate::header::string_texts(r@) == without_pix(self.table().header.fields),
    {
        let fields = &self.store.header().fields;
        let ghost names = self.table().header.fields;
        assert(names == crate::header::string_texts(fields@));
        let mut out: Vec<String> = Vec::new();
        let mut i: usize = 0;
        while i < fields.len()
            invariant
                i <= fields@.len(),
                names == crate::header::string_texts(fields@),
                crate::header::string_texts(out@) == without_pix(names.take(i as int)),
            decreases fields@.len() - i,
        {
            let ghost before = out@;
            assert(names.take(i + 1).drop_last() =~= names.take(i as int));
            assert(names.take(i + 1).last() == fields@[i as int]@);
            if !str_eq(fields[i].as_str(), "pix") {
                out.push(fields[i].clone());
                assert(crate::header::string_texts(out@) =~= crate::header::string_texts(before).push(
                    fields@[i as int]@,
                ));
            }
            i += 1;
        }
        assert(names.take(fields@.len() as int) =~= names);
        out
    }

    /// Whether the trace has a `pix` field.
    pub fn has_pixels(&self) -> (r: bool)
        ensures
            r == self.table().col_of("pix"@) is Some,
    {
        self.store.field_col("pix").is_some()
    }

    /// Whether the trace has pixels per entry (a `pix` field in a trace
    /// taken every T-cycle), not whole-frame dumps.
    pub fn has_per_entry_pixels(&self) -> (r: bool)
        ensures
            r == (self.table().col_of("pix"@) is Some && self.table().header.trigger == Trigger::Tcycle),
    {
        if self.store.field_col("pix").is_none() {
            return false;
        }
        match self.store.header().trigger {
            Trigger::Tcycle => true,
            _ => false,
        }
    }

    /// Whether the trace records VRAM writes.
    pub fn has_vram_data(&self) -> (r: bool)
        ensures
            r == (self.table().col_of("vram_addr"@) is Some && self.table().col_of("vram_data"@) is Some),
    {
        self.store.field_col("vram_addr").is_some() && self.store.field_col("vram_data").is_some()
    }

    /// The bytes the trace was loaded from, when kept.
    pub fn original_bytes(&self) -> (r: Option<Vec<u8>>)
        ensures
            opt_bytes(r) == self.bytes_view(),
    {
        match &self.original_bytes {
            Some(b) => Some(b.clone()),
            None => None,
        }
    }

    /// Keep the ROM for disassembly.
    pub fn load_rom(&mut self, data: &[u8])
        requires
            old(self).wf(),
        ensures
            final(self).wf(),
            final(self).table() == old(self).table(),
            final(self).downsampling() == old(self).downsampling(),
            final(self).rom_view() == Some(data@),
            final(self).bytes_view() == old(self).bytes_view(),
    {
        let mut v: Vec<u8> = Vec::new();
        let mut i: usize = 0;
        while i < data.len()
            invariant
                i <= data@.len(),
                v@ == data@.take(i as int),
            decreases data@.len() - i,
        {
            v.push(data[i]);
            i += 1;
            assert(v@ =~= data@.take(i as int));
        }
        assert(data@.take(data@.len() as int) =~= data@);
        self.rom = Some(v);
    }

    /// Whether a ROM is loaded.
    pub fn has_rom(&self) -> (r: bool)
        ensures
            r == self.rom_view() is Some,
    {
        self.rom.is_some()
    }
}

/// A list of field names without `pix`.
pub open spec fn without_pix(names: Seq<Seq<char>>) -> Seq<Seq<char>>
    decreases names.len(),
{
    if names.len() == 0 {
        Seq::empty()
    } else if names.last() == "pix"@ {
        without_pix(names.drop_last())
    } else {
        without_pix(names.drop_last()).push(names.last())
    }
}

/// The store rows of frame `i`: from its boundary to the next, or to the
/// end of the trace; none past the last frame.
pub open spec fn frame_range_of(t: TableView, i: int) -> Option<(usize, usize)> {
    let b = frame_boundaries_of(t);
    if i < 0 || i >= b.len() {
        None
    } else if i + 1 < b.len() {
        Some((b[i] as usize, b[i + 1] as usize))
    } else {
        Some((b[i] as usize, t.rows as usize))
    }
}


// ---------------------------------------------------------------------------
// Rows and pixels
// ---------------------------------------------------------------------------

/// A `pix` value as one pixel: a single character `'0'` to `'3'` gives
/// its shade, anything else 255 (no pixel).
pub open spec fn pixel_of(b: Seq<u8>) -> u8 {
    if b.len() == 1 && 48 <= b[0] <= 51 {
        (b[0] - 48) as u8
    } else {
        255
    }
}

/// `pix_range`: the pixel of each store row `start + k` for `k < count`
/// (255 past the shown rows); none without a `pix` field.
pub open spec fn pix_range_of(t: TableView, shown: int, start: int, count: int) -> Option<Seq<u8>> {
    match t.col_of("pix"@) {
        None => None,
        Some(pix) => Some(
            Seq::new(
                count as nat,
                |k: int|
                    if start + k < min_int(start + count, shown) {
                        pixel_of(pix_bytes(t, pix, start + k))
                    } else {
                        255u8
                    },
            ),
        ),
    }
}

/// The value a viewer shows for column `c` at `row`: a flag for flag
/// fields, a shade for a one-character `'0'`-`'3'` text (other texts are
/// not shown), else the number.
pub open spec fn shown_value(t: TableView, c: int, row: int) -> Option<FieldValueView> {
    match type_of_field(t.header.fields[c]) {
        FieldType::Bool => Some(FieldValueView::Bool(col_flag(t.columns[c], row))),
        FieldType::Str => {
            let b = pix_bytes(t, c, row);
            if b.len() == 1 && 48 <= b[0] <= 51 {
                Some(FieldValueView::Number((b[0] - 48) as u64))
            } else {
                None
            }
        },
        _ => Some(FieldValueView::Number(col_num(t.columns[c], row))),
    }
}

/// The values shown for the first `k` fields of a store row, by name (a
/// later field of a name replacing an earlier one).
pub open spec fn shown_row_upto(t: TableView, row: int, k: int) -> Map<Seq<char>, FieldValueView>
    decreases k,
{
    if k <= 0 {
        Map::empty()
    } else {
        let prev = shown_row_upto(t, row, k - 1);
        match shown_value(t, k - 1, row) {
            Some(v) => prev.insert(t.header.fields[k - 1], v),
            None => prev,
        }
    }
}

/// The values shown for a store row.
pub open spec fn shown_row(t: TableView, row: int) -> Map<Seq<char>, FieldValueView> {
    shown_row_upto(t, row, t.header.fields.len() as int)
}

impl TraceStore {
    proof fn lemma_shown_rows(&self)
        requires
            self.wf(),
        ensures
            self.shown_rows() <= self.table().rows,
            forall|r: int| 0 <= r < self.shown_rows() ==> 0 <= #[trigger] self.store_row(r) < self.table().rows,
            self.table().full(),
            self.table().rows <= usize::MAX,
    {
        let t = self.table();
        self.store.lemma_rows_fit();
        if let Some(m) = self.downsampling() {
            match t.col_of("pc"@) {
                Some(pc) => {
                    lemma_pc_changes(t, pc, t.rows as int);
                },
                None => {},
            }
        }
        assert forall|c: int| 0 <= c < t.columns.len() implies (#[trigger] t.columns[c]).kind == FieldType::Str
            || t.columns[c].cells.len() >= t.rows by {}
    }

    /// The pixel shades of the store rows `start` to `start + count - 1`
    /// (255 for no pixel, and past the shown rows); none without a `pix`
    /// field.
    pub fn pix_range(&self, start: usize, count: usize) -> (r: Option<Vec<u8>>)
        requires
            self.wf(),
            start + count <= usize::MAX,
        ensures
            match r {
                Some(v) => pix_range_of(self.table(), self.shown_rows(), start as int, count as int) == Some(v@),
                None => pix_range_of(self.table(), self.shown_rows(), start as int, count as int) is None,
            },
    {
        let ghost t = self.table();
        let pix = match self.store.field_col("pix") {
            Some(c) => c,
            None => return None,
        };
        proof {
            lemma_last_named_bound(t.header.fields, "pix"@);
            self.lemma_shown_rows();
        }
        let shown = self.entry_count();
        let reach = start + count;
        let end = if reach < shown {
            reach
        } else {
            shown
        };
        let mut out: Vec<u8> = Vec::new();
        let mut k: usize = 0;
        while k < count
            invariant
                k <= count,
                start + count <= usize::MAX,
                end == min_int(start + count, shown as int),
                shown <= t.rows,
                t == self.table(),
                t == self.store.table(),
                complete(t),
                pix < t.columns.len(),
                t.col_of("pix"@) == Some(pix as int),
                out@.len() == k,
                forall|j: int|
                    0 <= j < k ==> #[trigger] out@[j] == (if start + j < end {
                        pixel_of(pix_bytes(t, pix as int, start + j))
                    } else {
                        255u8
                    }),
            decreases count - k,
        {
            let i = start + k;
            if i < end {
                assert(t.columns[pix as int].cells.len() >= t.rows);
                let b = self.store.column(pix).get_str(i).as_bytes();
                assert(b@ == pix_bytes(t, pix as int, i as int));
                if b.len() == 1 && 48 <= b[0] && b[0] <= 51 {
                    out.push(b[0] - 48);
                } else {
                    out.push(255);
                }
            } else {
                out.push(255);
            }
            k += 1;
        }
        let ghost want = pix_range_of(t, shown as int, start as int, count as int);
        assert(want matches Some(w) && w =~= out@);
        Some(out)
    }

    /// The values shown for a store row, by field name.
    fn row_to_map(&self, row: usize) -> (r: TraceEntry)
        requires
            self.wf(),
            row < self.table().rows,
        ensures
            r@ == shown_row(self.table(), row as int),
    {
        let ghost t = self.table();
        let fields = &self.store.header().fields;
        assert(t.header.fields == crate::header::string_texts(fields@));
        let mut m = TraceEntry::new();
        let mut c: usize = 0;
        while c < fields.len()
            invariant
                c <= fields@.len(),
                t == self.table(),
                t == self.store.table(),
                self.store.wf(),
                complete(t),
                row < t.rows,
                t.header.fields == crate::header::string_texts(fields@),
                m@ == shown_row_upto(t, row as int, c as int),
            decreases fields@.len() - c,
        {
            let name = fields[c].as_str();
            assert(name@ == t.header.fields[c as int]);
            assert(t.columns[c as int].cells.len() >= t.rows);
            assert(t.columns[c as int].kind == type_of_field(t.header.fields[c as int]));
            match field_type(name) {
                FieldType::Bool => {
                    let v = self.store.column(c).get_bool(row);
                    m.set(name, FieldValue::Bool(v));
                },
                FieldType::Str => {
                    let b = self.store.column(c).get_str(row).as_bytes();
                    assert(b@ == pix_bytes(t, c as int, row as int));
                    if b.len() == 1 && 48 <= b[0] && b[0] <= 51 {
                        m.set(name, FieldValue::Number((b[0] - 48) as u64));
                    }
                },
                _ => {
                    let v = self.store.column(c).get_numeric(row);
                    m.set(name, FieldValue::Number(v));
                },
            }
            c += 1;
        }
        m
    }

    /// The values shown for shown row `index`, by field name; none past
    /// the shown rows.
    pub fn entry(&self, index: usize) -> (r: Option<TraceEntry>)
        requires
            self.wf(),
        ensures
            match r {
                Some(e) => index < self.shown_rows() && e@ == shown_row(self.table(), self.store_row(index as int)),
                None => index >= self.shown_rows(),
            },
    {
        if index >= self.entry_count() {
            return None;
        }
        proof {
            self.lemma_shown_rows();
        }
        let row = self.map_row(index);
        Some(self.row_to_map(row))
    }

    /// The values shown for the shown rows `start` to
    /// `start + count - 1` (those there are).
    pub fn entries_range(&self, start: usize, count: usize) -> (r: Vec<TraceEntry>)
        requires
            self.wf(),
            start + count <= usize::MAX,
        ensures
            r@.len() == (if min_int(start + count, self.shown_rows()) > start {
                min_int(start + count, self.shown_rows()) - start
            } else {
                0
            }),
            forall|k: int|
                0 <= k < r@.len() ==> (#[trigger] r@[k])@ == shown_row(self.table(), self.store_row(start + k)),
    {
        proof {
            self.lemma_shown_rows();
        }
        let shown = self.entry_count();
        let reach = start + count;
        let end = if reach < shown {
            reach
        } else {
            shown
        };
        let mut out: Vec<TraceEntry> = Vec::new();
        let mut i = start;
        while i < end
            invariant
                start <= i,
                i <= end || i == start,
                end <= self.shown_rows(),
                self.wf(),
                self.shown_rows() <= self.table().rows,
                forall|r: int| 0 <= r < self.shown_rows() ==> 0 <= #[trigger] self.store_row(r) < self.table().rows,
                out@.len() == i - start,
                forall|k: int|
                    0 <= k < out@.len() ==> (#[trigger] out@[k])@ == shown_row(self.table(), self.store_row(start + k)),
            decreases end - i,
        {
            let row = self.map_row(i);
            assert(0 <= self.store_row(i as int) < self.table().rows);
            out.push(self.row_to_map(row));
            i += 1;
        }
        out
    }

    /// The store rows from `start` to `end` (within the shown rows) that
    /// meet a condition.
    pub fn query_range(&self, condition_str: &str, start: usize, end: usize) -> (r: Result<Vec<u32>, String>)
        requires
            self.wf(),
        ensures
            match r {
                Ok(v) => query_range_of(self.table(), condition_str@, start as int, end as int) == Ok::<
                    Seq<u32>,
                    Seq<char>,
                >(v@),
                Err(m) => query_range_of(self.table(), condition_str@, start as int, end as int) == Err::<
                    Seq<u32>,
                    Seq<char>,
                >(m@),
            },
    {
        proof {
            self.lemma_shown_rows();
        }
        self.store.query_range(condition_str, start, end)
    }

    /// The store rows below the number of shown rows that meet a condition.
    pub fn query(&self, condition_str: &str) -> (r: Result<Vec<u32>, String>)
        requires
            self.wf(),
        ensures
            match r {
                Ok(v) => query_range_of(self.table(), condition_str@, 0, self.shown_rows()) == Ok::<
                    Seq<u32>,
                    Seq<char>,
                >(v@),
                Err(m) => query_range_of(self.table(), condition_str@, 0, self.shown_rows()) == Err::<
                    Seq<u32>,
                    Seq<char>,
                >(m@),
            },
    {
        let n = self.entry_count();
        self.query_range(condition_str, 0, n)
    }
}


// ---------------------------------------------------------------------------
// Diffs against another trace
// ---------------------------------------------------------------------------

/// Whether field `name` reads differently at row `r` of two tables (a
/// missing field reads as none).
pub open spec fn field_differs(a: TableView, b: TableView, name: Seq<char>, r: int) -> bool {
    a.numeric_named(name, r) != b.numeric_named(name, r)
}

/// The rows below `n` where field `name` reads differently.
pub open spec fn differing_rows(a: TableView, b: TableView, name: Seq<char>, n: int) -> Seq<u32>
    decreases n,
{
    if n <= 0 {
        Seq::empty()
    } else if field_differs(a, b, name, n - 1) {
        differing_rows(a, b, name, n - 1).push((n - 1) as u32)
    } else {
        differing_rows(a, b, name, n - 1)
    }
}

/// Whether both tables have a field of this name.
pub open spec fn in_both(a: TableView, b: TableView, name: Seq<char>) -> bool {
    a.col_of(name) is Some && b.col_of(name) is Some
}

/// Whether one of the first `f` fields of `a`'s header that both tables
/// have reads differently at row `r`.
pub open spec fn row_differs_upto(a: TableView, b: TableView, r: int, f: int) -> bool {
    exists|k: int|
        0 <= k < f && k < a.header.fields.len() && in_both(a, b, a.header.fields[k]) && #[trigger] field_differs(
            a,
            b,
            a.header.fields[k],
            r,
        )
}

/// Whether a field both tables have reads differently at row `r`.
pub open spec fn row_differs(a: TableView, b: TableView, r: int) -> bool {
    row_differs_upto(a, b, r, a.header.fields.len() as int)
}

/// The rows below `n` where a field both tables have reads differently.
pub open spec fn all_differing_rows(a: TableView, b: TableView, n: int) -> Seq<u32>
    decreases n,
{
    if n <= 0 {
        Seq::empty()
    } else if row_differs(a, b, n - 1) {
        all_differing_rows(a, b, n - 1).push((n - 1) as u32)
    } else {
        all_differing_rows(a, b, n - 1)
    }
}

/// How many of the rows `s` to `s + n - 1` have field `name` reading
/// differently.
pub open spec fn count_field_diffs(a: TableView, b: TableView, name: Seq<char>, s: int, n: int) -> nat
    decreases n,
{
    if n <= 0 {
        0
    } else {
        count_field_diffs(a, b, name, s, n - 1) + if field_differs(a, b, name, s + n - 1) {
            1nat
        } else {
            0nat
        }
    }
}

/// How many of the rows `s` to `s + n - 1` differ in a field both have.
pub open spec fn count_row_diffs(a: TableView, b: TableView, s: int, n: int) -> nat
    decreases n,
{
    if n <= 0 {
        0
    } else {
        count_row_diffs(a, b, s, n - 1) + if row_differs(a, b, s + n - 1) {
            1nat
        } else {
            0nat
        }
    }
}

/// For the first `f` fields of `a`'s header that both tables have and
/// that differ somewhere in rows `s` to `s + n - 1`: the name and the
/// number of rows where it differs.
pub open spec fn field_diff_counts(a: TableView, b: TableView, s: int, n: int, f: int) -> Seq<(Seq<char>, nat)>
    decreases f,
{
    if f <= 0 {
        Seq::empty()
    } else {
        let prev = field_diff_counts(a, b, s, n, f - 1);
        let name = a.header.fields[f - 1];
        let c = count_field_diffs(a, b, name, s, n);
        if in_both(a, b, name) && c > 0 {
            prev.push((name, c))
        } else {
            prev
        }
    }
}

/// Per-field diff statistics over a range of rows.
pub struct DiffStats {
    /// Rows compared.
    pub total: usize,
    /// Rows where every field both traces have agrees.
    pub matching: usize,
    /// Rows where some field both traces have differs.
    pub differing: usize,
    /// Each field that differs somewhere, with the number of rows where it
    /// does, in header order.
    pub fields: Vec<(String, u64)>,
}

/// The names and counts of a list of per-field counts.
pub open spec fn counts_view(v: Seq<(String, u64)>) -> Seq<(Seq<char>, nat)> {
    Seq::new(v.len(), |i: int| (v[i].0@, v[i].1 as nat))
}

/// The row range `diff_stats_range` compares: `start` and `end` clamped
/// to the rows both traces show.
pub open spec fn stats_range(a_shown: int, b_shown: int, start: int, end: int) -> (int, int) {
    let max_len = min_int(a_shown, b_shown);
    let s = min_int(start, max_len);
    let e = min_int(end, max_len);
    (s, if e > s {
        e - s
    } else {
        0
    })
}

impl TraceStore {
    /// The rows below the number both traces show where field `field`
    /// reads differently.
    pub fn diff_field(&self, other: &TraceStore, field: &str) -> (r: Vec<u32>)
        requires
            self.wf(),
            other.wf(),
        ensures
            r@ == differing_rows(self.table(), other.table(), field@, min_int(self.shown_rows(), other.shown_rows())),
    {
        proof {
            self.lemma_shown_rows();
            other.lemma_shown_rows();
        }
        let na = self.entry_count();
        let nb = other.entry_count();
        let len = if na < nb {
            na
        } else {
            nb
        };
        let mut out: Vec<u32> = Vec::new();
        let mut i: usize = 0;
        while i < len
            invariant
                i <= len,
                len <= self.table().rows,
                len <= other.table().rows,
                self.wf(),
                other.wf(),
                self.table().full(),
                other.table().full(),
                out@ == differing_rows(self.table(), other.table(), field@, i as int),
            decreases len - i,
        {
            proof {
                lemma_full_readable(self.table(), i as int);
                lemma_full_readable(other.table(), i as int);
            }
            let a = self.store.get_numeric_named(field, i);
            let b = other.store.get_numeric_named(field, i);
            if !opt_u64_eq(a, b) {
                out.push(#[verifier::truncate] (i as u32));
            }
            i += 1;
        }
        out
    }

    /// Whether a field of this trace's header that both traces have reads
    /// differently at row `row`.
    fn row_differs_exec(&self, other: &TraceStore, row: usize) -> (r: bool)
        requires
            self.wf(),
            other.wf(),
            row < self.table().rows,
            row < other.table().rows,
        ensures
            r == row_differs(self.table(), other.table(), row as int),
    {
        let ghost a = self.table();
        let ghost b = other.table();
        proof {
            self.lemma_shown_rows();
            other.lemma_shown_rows();
            lemma_full_readable(a, row as int);
            lemma_full_readable(b, row as int);
        }
        let fields = &self.store.header().fields;
        assert(a.header.fields == crate::header::string_texts(fields@));
        let mut k: usize = 0;
        while k < fields.len()
            invariant
                k <= fields@.len(),
                a == self.table(),
                b == other.table(),
                self.store.wf(),
                other.store.wf(),
                a == self.store.table(),
                b == other.store.table(),
                a.readable_row(row as int),
                b.readable_row(row as int),
                a.header.fields == crate::header::string_texts(fields@),
                !row_differs_upto(a, b, row as int, k as int),
            decreases fields@.len() - k,
        {
            let name = fields[k].as_str();
            assert(name@ == a.header.fields[k as int]);
            let both = self.store.field_col(name).is_some() && other.store.field_col(name).is_some();
            if both && !opt_u64_eq(self.store.get_numeric_named(name, row), other.store.get_numeric_named(name, row)) {
                assert(field_differs(a, b, a.header.fields[k as int], row as int));
                return true;
            }
            proof {
                assert forall|j: int|
                    0 <= j < k + 1 && j < a.header.fields.len() && in_both(a, b, a.header.fields[j]) implies !#[trigger] field_differs(
                    a,
                    b,
                    a.header.fields[j],
                    row as int,
                ) by {
                    if j < k {
                        assert(!row_differs_upto(a, b, row as int, k as int));
                    }
                }
            }
            k += 1;
        }
        false
    }

    /// The rows below the number both traces show where some field of
    /// this trace's header that both have reads differently.
    pub fn diff_all(&self, other: &TraceStore) -> (r: Vec<u32>)
        requires
            self.wf(),
            other.wf(),
        ensures
            r@ == all_differing_rows(self.table(), other.table(), min_int(self.shown_rows(), other.shown_rows())),
    {
        proof {
            self.lemma_shown_rows();
            other.lemma_shown_rows();
        }
        let na = self.entry_count();
        let nb = other.entry_count();
        let len = if na < nb {
            na
        } else {
            nb
        };
        let mut out: Vec<u32> = Vec::new();
        let mut row: usize = 0;
        while row < len
            invariant
                row <= len,
                len <= self.table().rows,
                len <= other.table().rows,
                self.wf(),
                other.wf(),
                out@ == all_differing_rows(self.table(), other.table(), row as int),
            decreases len - row,
        {
            if self.row_differs_exec(other, row) {
                out.push(#[verifier::truncate] (row as u32));
            }
            row += 1;
        }
        out
    }

    /// Per-field diff statistics over the rows `start` to `end`, clamped
    /// to the rows both traces show.
    pub fn diff_stats_range(&self, other: &TraceStore, start: usize, end: usize) -> (r: DiffStats)
        requires
            self.wf(),
            other.wf(),
        ensures
            ({
                let a = self.table();
                let b = other.table();
                let (s, n) = stats_range(self.shown_rows(), other.shown_rows(), start as int, end as int);
                &&& r.total == n
                &&& r.differing == count_row_diffs(a, b, s, n)
                &&& r.matching == n - count_row_diffs(a, b, s, n)
                &&& counts_view(r.fields@) == field_diff_counts(a, b, s, n, a.header.fields.len() as int)
            }),
    {
        let ghost a = self.table();
        let ghost b = other.table();
        proof {
            self.lemma_shown_rows();
            other.lemma_shown_rows();
        }
        let na = self.entry_count();
        let nb = other.entry_count();
        let max_len = if na < nb {
            na
        } else {
            nb
        };
        let s = if start < max_len {
            start
        } else {
            max_len
        };
        let e = if end < max_len {
            end
        } else {
            max_len
        };
        let len = if e > s {
            e - s
        } else {
            0
        };
        let ghost range = stats_range(self.shown_rows(), other.shown_rows(), start as int, end as int);
        assert(range == (s as int, len as int));
        let fields = &self.store.header().fields;
        assert(a.header.fields == crate::header::string_texts(fields@));
        let mut counts: Vec<(String, u64)> = Vec::new();
        let mut flags: Vec<bool> = Vec::new();
        let mut i: usize = 0;
        while i < len
            invariant
                i <= len,
                flags@.len() == i,
                forall|j: int| 0 <= j < i ==> !#[trigger] flags@[j],
            decreases len - i,
        {
            flags.push(false);
            i += 1;
        }
        let mut f: usize = 0;
        while f < fields.len()
            invariant
                f <= fields@.len(),
                a == self.table(),
                b == other.table(),
                self.wf(),
                other.wf(),
                a == self.store.table(),
                b == other.store.table(),
                self.store.wf(),
                other.store.wf(),
                a.full(),
                b.full(),
                s + len <= a.rows,
                s + len <= b.rows,
                a.rows <= usize::MAX,
                a.header.fields == crate::header::string_texts(fields@),
                flags@.len() == len,
                forall|j: int| 0 <= j < len ==> #[trigger] flags@[j] == row_differs_upto(a, b, s + j, f as int),
                counts_view(counts@) == field_diff_counts(a, b, s as int, len as int, f as int),
            decreases fields@.len() - f,
        {
            let name = fields[f].as_str();
            assert(name@ == a.header.fields[f as int]);
            let both = self.store.field_col(name).is_some() && other.store.field_col(name).is_some();
            let ghost before = flags@;
            if both {
                let mut count: u64 = 0;
                let mut i: usize = 0;
                while i < len
                    invariant
                        i <= len,
                        a == self.store.table(),
                        b == other.store.table(),
                        self.store.wf(),
                        other.store.wf(),
                        a.full(),
                        b.full(),
                        s + len <= a.rows,
                        s + len <= b.rows,
                        a.rows <= usize::MAX,
                        name@ == a.header.fields[f as int],
                        in_both(a, b, name@),
                        f < a.header.fields.len(),
                        count == count_field_diffs(a, b, name@, s as int, i as int),
                        count <= i,
                        flags@.len() == len,
                        forall|j: int|
                            0 <= j < len ==> #[trigger] flags@[j] == (row_differs_upto(a, b, s + j, f as int) || (j
                                < i && field_differs(a, b, name@, s + j))),
                    decreases len - i,
                {
                    let row = s + i;
                    proof {
                        lemma_full_readable(a, row as int);
                        lemma_full_readable(b, row as int);
                    }
                    if !opt_u64_eq(self.store.get_numeric_named(name, row), other.store.get_numeric_named(name, row)) {
                        count += 1;
                        flags.set(i, true);
                    }
                    i += 1;
                }
                if count > 0 {
                    let ghost cb = counts@;
                    counts.push((fields[f].clone(), count));
                    assert(counts_view(counts@) =~= counts_view(cb).push((name@, count as nat)));
                }
            }
            proof {
                assert forall|j: int| 0 <= j < len implies #[trigger] flags@[j] == row_differs_upto(
                    a,
                    b,
                    s + j,
                    f + 1,
                ) by {
                    if row_differs_upto(a, b, s + j, f + 1) && !row_differs_upto(a, b, s + j, f as int) {
                        let k = choose|k: int|
                            0 <= k < f + 1 && k < a.header.fields.len() && in_both(a, b, a.header.fields[k])
                                && #[trigger] field_differs(a, b, a.header.fields[k], s + j);
                        assert(k == f);
                    }
                    if row_differs_upto(a, b, s + j, f as int) {
                        let k = choose|k: int|
                            0 <= k < f && k < a.header.fields.len() && in_both(a, b, a.header.fields[k])
                                && #[trigger] field_differs(a, b, a.header.fields[k], s + j);
                        assert(0 <= k < f + 1);
                    }
                    if !both {
                        assert(flags@[j] == before[j]);
                    }
                }
            }
            f += 1;
        }
        let mut differing: usize = 0;
        let mut i: usize = 0;
        while i < len
            invariant
                i <= len,
                flags@.len() == len,
                forall|j: int| 0 <= j < len ==> #[trigger] flags@[j] == row_differs(a, b, s + j),
                differing == count_row_diffs(a, b, s as int, i as int),
                differing <= i,
            decreases len - i,
        {
            if flags[i] {
                differing += 1;
            }
            i += 1;
        }
        DiffStats { total: len, matching: len - differing, differing, fields: counts }
    }
}

/// Whether two optional numbers are equal.
fn opt_u64_eq(a: Option<u64>, b: Option<u64>) -> (r: bool)
    ensures
        r == (a == b),
{
    match (a, b) {
        (Some(x), Some(y)) => x == y,
        (None, None) => true,
        _ => false,
    }
}


// ---------------------------------------------------------------------------
// Field summaries
// ---------------------------------------------------------------------------

/// The least value of column `c` over the rows `lo` to `hi - 1` (at least
/// one row).
pub open spec fn min_over(t: TableView, c: int, lo: int, hi: int) -> u64
    decreases hi - lo,
{
    if hi <= lo + 1 {
        t.num(c, lo)
    } else {
        let m = min_over(t, c, lo, hi - 1);
        let v = t.num(c, hi - 1);
        if v < m {
            v
        } else {
            m
        }
    }
}

/// The greatest value of column `c` over the rows `lo` to `hi - 1`.
pub open spec fn max_over(t: TableView, c: int, lo: int, hi: int) -> u64
    decreases hi - lo,
{
    if hi <= lo + 1 {
        t.num(c, lo)
    } else {
        let m = max_over(t, c, lo, hi - 1);
        let v = t.num(c, hi - 1);
        if v > m {
            v
        } else {
            m
        }
    }
}

/// The rows of bucket `b` of `buckets` over `range` rows from `start`.
pub open spec fn bucket_rows(start: int, range: int, buckets: int, b: int) -> (int, int) {
    (start + (b * range) / buckets, start + ((b + 1) * range) / buckets)
}

/// The least and greatest value of bucket `b`; an empty bucket gives the
/// value at its start (at most the last row), or 0 at row 0, twice.
pub open spec fn bucket_summary(t: TableView, c: int, start: int, range: int, buckets: int, b: int) -> (u64, u64) {
    let (lo, hi) = bucket_rows(start, range, buckets, b);
    if lo >= hi {
        let v = if lo > 0 {
            t.num(c, min_int(lo, t.rows - 1))
        } else {
            0u64
        };
        (v, v)
    } else {
        (min_over(t, c, lo, hi), max_over(t, c, lo, hi))
    }
}

/// The least and greatest value of each of the first `k` buckets, in turn.
pub open spec fn bucket_summaries(t: TableView, c: int, start: int, range: int, buckets: int, k: int) -> Seq<u64>
    decreases k,
{
    if k <= 0 {
        Seq::empty()
    } else {
        let p = bucket_summary(t, c, start, range, buckets, k - 1);
        bucket_summaries(t, c, start, range, buckets, k - 1).push(p.0).push(p.1)
    }
}

/// The rows a field summary covers: `start` and `end` clamped to the
/// store's rows.
pub open spec fn summary_span(t: TableView, start: int, end: int) -> (int, int) {
    let e = min_int(end, t.rows as int);
    let s = min_int(start, e);
    (s, e - s)
}

/// `field_summary`: for a chart, the least and greatest value of field
/// `field` in each of `buckets` equal slices of the rows `start` to `end`.
pub open spec fn field_summary_of(t: TableView, field: Seq<char>, start: int, end: int, buckets: int) -> Result<
    Seq<u64>,
    Seq<char>,
> {
    match t.col_of(field) {
        None => Err("unknown field: "@ + field),
        Some(c) => {
            let (s, range) = summary_span(t, start, end);
            if range == 0 || buckets == 0 {
                Ok(Seq::empty())
            } else {
                Ok(bucket_summaries(t, c, s, range, buckets, buckets))
            }
        },
    }
}

proof fn lemma_bucket_bounds(b: int, range: int, buckets: int)
    requires
        0 <= b < buckets,
        0 <= range,
    ensures
        0 <= (b * range) / buckets <= ((b + 1) * range) / buckets <= range,
        0 <= b * range <= (b + 1) * range <= buckets * range,
{
    assert(0 <= b * range) by (nonlinear_arith)
        requires
            0 <= b,
            0 <= range,
    ;
    assert(b * range <= (b + 1) * range) by (nonlinear_arith)
        requires
            0 <= range,
    ;
    assert((b + 1) * range <= buckets * range) by (nonlinear_arith)
        requires
            b + 1 <= buckets,
            0 <= range,
    ;
    vstd::arithmetic::div_mod::lemma_div_is_ordered(0, b * range, buckets);
    vstd::arithmetic::div_mod::lemma_div_is_ordered(b * range, (b + 1) * range, buckets);
    vstd::arithmetic::div_mod::lemma_div_is_ordered((b + 1) * range, buckets * range, buckets);
    assert(buckets * range == range * buckets) by (nonlinear_arith);
    vstd::arithmetic::div_mod::lemma_div_multiples_vanish(range, buckets);
}

impl TraceStore {
    /// For a chart: the least and greatest value of field `field` in each
    /// of `buckets` equal slices of the store rows `start` to `end`; an
    /// unknown field is an error.
    pub fn field_summary(&self, field: &str, start: usize, end: usize, buckets: usize) -> (r: Result<Vec<u64>, String>)
        requires
            self.wf(),
            buckets * summary_span(self.table(), start as int, end as int).1 <= usize::MAX,
        ensures
            match r {
                Ok(v) => field_summary_of(self.table(), field@, start as int, end as int, buckets as int) == Ok::<
                    Seq<u64>,
                    Seq<char>,
                >(v@),
                Err(m) => field_summary_of(self.table(), field@, start as int, end as int, buckets as int) == Err::<
                    Seq<u64>,
                    Seq<char>,
                >(m@),
            },
    {
        let ghost t = self.table();
        let col = match self.store.field_col(field) {
            Some(c) => c,
            None => {
                proof {
                    reveal_strlit("");
                }
                let m = concat3("unknown field: ", &chars_of(field), "");
                assert(m@ =~= "unknown field: "@ + field@);
                return Err(m);
            },
        };
        proof {
            self.lemma_shown_rows();
            lemma_last_named_bound(t.header.fields, field@);
        }
        let total = self.store.entry_count();
        let end = if end < total {
            end
        } else {
            total
        };
        let start = if start < end {
            start
        } else {
            end
        };
        let range = end - start;
        if range == 0 || buckets == 0 {
            return Ok(Vec::new());
        }
        let mut out: Vec<u64> = Vec::new();
        let mut b: usize = 0;
        while b < buckets
            invariant
                b <= buckets,
                t == self.store.table(),
                self.store.wf(),
                t.full(),
                col < t.columns.len(),
                total == t.rows,
                start + range <= total,
                range > 0,
                buckets * range <= usize::MAX,
                out@ == bucket_summaries(t, col as int, start as int, range as int, buckets as int, b as int),
            decreases buckets - b,
        {
            proof {
                lemma_bucket_bounds(b as int, range as int, buckets as int);
            }
            let b_start = start + (b * range) / buckets;
            let b_end = start + ((b + 1) * range) / buckets;
            if b_start >= b_end {
                let v = if b_start > 0 {
                    let at = if b_start < total - 1 {
                        b_start
                    } else {
                        total - 1
                    };
                    proof {
                        lemma_full_readable(t, at as int);
                    }
                    assert(crate::column_store::col_readable(t.columns[col as int], at as int));
                    self.store.column(col).get_numeric(at)
                } else {
                    0
                };
                out.push(v);
                out.push(v);
            } else {
                proof {
                    lemma_full_readable(t, b_start as int);
                }
                assert(crate::column_store::col_readable(t.columns[col as int], b_start as int));
                let mut min = self.store.column(col).get_numeric(b_start);
                let mut max = min;
                let mut i = b_start + 1;
                while i < b_end
                    invariant
                        b_start < i <= b_end,
                        b_end <= total,
                        t == self.store.table(),
                        t.full(),
                        col < t.columns.len(),
                        total == t.rows,
                        min == min_over(t, col as int, b_start as int, i as int),
                        max == max_over(t, col as int, b_start as int, i as int),
                    decreases b_end - i,
                {
                    proof {
                        lemma_full_readable(t, i as int);
                    }
                    assert(crate::column_store::col_readable(t.columns[col as int], i as int));
                    let v = self.store.column(col).get_numeric(i);
                    if v < min {
                        min = v;
                    }
                    if v > max {
                        max = v;
                    }
                    i += 1;
                }
                out.push(min);
                out.push(max);
            }
            b += 1;
        }
        Ok(out)
    }
}

// ---------------------------------------------------------------------------
// Frames under downsampling
// ---------------------------------------------------------------------------

/// The first position from `i` on of a downsampling whose row is at least
/// `b` (the length when none is).
pub open spec fn first_at_least(m: Seq<usize>, b: int, i: int) -> int
    decreases m.len() - i,
{
    if i < 0 || i >= m.len() {
        m.len() as int
    } else if m[i] >= b {
        i
    } else {
        first_at_least(m, b, i + 1)
    }
}

/// Frame boundaries as shown rows of a downsampling: each boundary moves to
/// the first shown row at or after it; a boundary past the last shown row
/// is dropped.
pub open spec fn boundaries_in(bs: Seq<u32>, m: Seq<usize>) -> Seq<u32>
    decreases bs.len(),
{
    if bs.len() == 0 {
        Seq::empty()
    } else {
        let prev = boundaries_in(bs.drop_last(), m);
        let i = first_at_least(m, bs.last() as int, 0);
        if i < m.len() {
            prev.push(i as u32)
        } else {
            prev
        }
    }
}

proof fn lemma_first_at_least(m: Seq<usize>, b: int, i: int, lo: int)
    requires
        0 <= i <= lo <= m.len(),
        forall|k: int| 0 <= k < lo ==> #[trigger] m[k] < b,
        lo < m.len() ==> m[lo] >= b,
    ensures
        first_at_least(m, b, i) == lo,
    decreases lo - i,
{
    if i < lo {
        lemma_first_at_least(m, b, i + 1, lo);
    }
}

/// The first position of an ascending downsampling whose row is at least
/// `b`, by binary search.
fn lower_bound(m: &Vec<usize>, b: usize) -> (r: usize)
    requires
        ascending_below(m@, usize::MAX as int + 1),
    ensures
        r == first_at_least(m@, b as int, 0),
{
    let mut lo: usize = 0;
    let mut hi: usize = m.len();
    while lo < hi
        invariant
            lo <= hi <= m@.len(),
            ascending_below(m@, usize::MAX as int + 1),
            forall|k: int| 0 <= k < lo ==> #[trigger] m@[k] < b,
            forall|k: int| hi <= k < m@.len() ==> #[trigger] m@[k] >= b,
        decreases hi - lo,
    {
        let mid = lo + (hi - lo) / 2;
        if m[mid] < b {
            assert forall|k: int| 0 <= k < mid + 1 implies #[trigger] m@[k] < b by {
                if k < mid {
                    assert(m@[k] < m@[mid as int]);
                }
            }
            lo = mid + 1;
        } else {
            assert forall|k: int| mid <= k < m@.len() implies #[trigger] m@[k] >= b by {
                if k > mid {
                    assert(m@[mid as int] < m@[k]);
                }
            }
            hi = mid;
        }
    }
    proof {
        lemma_first_at_least(m@, b as int, 0, lo as int);
    }
    lo
}

impl TraceStore {
    /// The rows where frames start, as shown rows: under downsampling each
    /// boundary moves to the first shown row at or after it.
    pub fn frame_boundaries(&self) -> (r: Vec<u32>)
        requires
            self.wf(),
        ensures
            r@ == match self.downsampling() {
                Some(m) => boundaries_in(frame_boundaries_of(self.table()), m),
                None => frame_boundaries_of(self.table()),
            },
    {
        proof {
            self.lemma_shown_rows();
        }
        let orig = self.store.frame_boundaries();
        match &self.downsample_map {
            Some(map) => {
                proof {
                    let t = self.table();
                    let pc = t.col_of("pc"@)->0;
                    lemma_pc_changes(t, pc, t.rows as int);
                }
                let mut out: Vec<u32> = Vec::new();
                let mut k: usize = 0;
                while k < orig.len()
                    invariant
                        k <= orig@.len(),
                        ascending_below(map@, usize::MAX as int + 1),
                        out@ == boundaries_in(orig@.take(k as int), map@),
                    decreases orig@.len() - k,
                {
                    assert(orig@.take(k + 1).drop_last() =~= orig@.take(k as int));
                    let i = lower_bound(map, orig[k] as usize);
                    if i < map.len() {
                        out.push(#[verifier::truncate] (i as u32));
                    }
                    k += 1;
                }
                assert(orig@.take(orig@.len() as int) =~= orig@);
                out
            },
            None => orig,
        }
    }
}


// ---------------------------------------------------------------------------
// Rendering
// ---------------------------------------------------------------------------

/// A pixel position packed for a viewer: `(x << 16) | y`, or `0xFFFFFFFF`
/// for no pixel.
pub open spec fn packed_position(p: (u16, u16)) -> u32 {
    if p.0 == 0xFFFF {
        0xFFFF_FFFFu32
    } else {
        ((p.0 as u32) << 16u32) | (p.1 as u32)
    }
}

/// A copy of a list of rows.
fn copy_rows(v: &Vec<usize>) -> (r: Vec<usize>)
    ensures
        r@ == v@,
{
    let mut r: Vec<usize> = Vec::new();
    let mut i: usize = 0;
    while i < v.len()
        invariant
            i <= v@.len(),
            r@ == v@.take(i as int),
        decreases v@.len() - i,
    {
        r.push(v[i]);
        i += 1;
        assert(r@ =~= v@.take(i as int));
    }
    assert(v@.take(v@.len() as int) =~= v@);
    r
}

impl TraceStore {
    /// The pixels of the frame built from rows `start` to `stop`: read as
    /// store rows, or, under downsampling, as shown rows (the range ending
    /// after every store row of `stop`).
    pub open spec fn frame_pixels(&self, start: int, stop: int) -> Seq<u8> {
        let t = self.table();
        match self.downsampling() {
            Some(m) => partial_frame_pixels(
                t,
                ds_row(m, start),
                if stop < m.len() {
                    ds_end(m, t.rows as int, stop + 1)
                } else {
                    t.rows as int
                },
            ),
            None => partial_frame_pixels(t, start, stop),
        }
    }

    /// The position map of rows `start` to `end`, read as
    /// [`frame_pixels`](Self::frame_pixels) reads them.
    pub open spec fn positions(&self, start: int, end: int) -> Seq<(u16, u16)> {
        let t = self.table();
        match self.downsampling() {
            Some(m) => {
                let rs = ds_row(m, start);
                let raw = position_map_of(t, rs, ds_end(m, t.rows as int, end));
                ds_positions(raw, m, rs, start, end, raw.len() as int)
            },
            None => position_map_of(t, start, end),
        }
    }

    /// The reverse pixel map of rows `start` to `end`, read as
    /// [`frame_pixels`](Self::frame_pixels) reads them.
    pub open spec fn reverse_positions(&self, start: int, end: int) -> Seq<u32> {
        let t = self.table();
        match self.downsampling() {
            Some(m) => {
                let raw = reverse_map_of(t, ds_row(m, start), ds_end(m, t.rows as int, end));
                Seq::new(raw.len(), |k: int| ds_reverse_value(m, raw[k]))
            },
            None => reverse_map_of(t, start, end),
        }
    }

    proof fn lemma_frame_source(&self, a: int, b: int)
        requires
            self.wf(),
        ensures
            frame_source_ok(&self.store, a, b),
            self.downsampling() matches Some(m) ==> ascending_below(m, self.table().rows as int),
    {
        self.lemma_shown_rows();
        let t = self.table();
        if let Some(pix) = t.col_of("pix"@) {
            lemma_last_named_bound(t.header.fields, "pix"@);
            assert(t.columns[pix].cells.len() >= t.rows);
        }
        if let Some(m) = self.downsampling() {
            let pc = t.col_of("pc"@)->0;
            lemma_pc_changes(t, pc, t.rows as int);
        }
    }

    /// The frame built from rows `start` to `stop`, as
    /// [`frame_pixels`](Self::frame_pixels) reads them.
    fn frame_between(&self, start: usize, stop: usize) -> (r: crate::framebuffer::Frame)
        requires
            self.wf(),
        ensures
            r.pixels@ == self.frame_pixels(start as int, stop as int),
    {
        match &self.downsample_map {
            Some(map) => {
                let ds = DownsampledStore::from_map(&self.store, copy_rows(map));
                proof {
                    self.lemma_frame_source(
                        ds_row(map@, start as int),
                        if stop < map@.len() {
                            ds_end(map@, self.table().rows as int, stop + 1)
                        } else {
                            self.table().rows as int
                        },
                    );
                }
                reconstruct_partial_frame_downsampled(&ds, start, stop)
            },
            None => {
                proof {
                    self.lemma_frame_source(start as int, stop as int);
                }
                reconstruct_partial_frame(&self.store, start, stop)
            },
        }
    }

    /// Frame `frame_index` as RGBA bytes; none past the last frame.
    pub fn render_frame(&self, frame_index: usize) -> (r: Option<Vec<u8>>)
        requires
            self.wf(),
        ensures
            match frame_range_of(self.table(), frame_index as int) {
                Some((s, e)) => r matches Some(v) && v@ == rgba_of(self.frame_pixels(s as int, e as int)),
                None => r is None,
            },
    {
        match self.frame_entry_range(frame_index) {
            Some((start, end)) => Some(self.frame_between(start, end).to_rgba()),
            None => None,
        }
    }

    /// Frame `frame_index` as pixel shades (0-3, 0xFF unrendered); none
    /// past the last frame.
    pub fn render_frame_raw(&self, frame_index: usize) -> (r: Option<Vec<u8>>)
        requires
            self.wf(),
        ensures
            match frame_range_of(self.table(), frame_index as int) {
                Some((s, e)) => r matches Some(v) && v@ == self.frame_pixels(s as int, e as int),
                None => r is None,
            },
    {
        match self.frame_entry_range(frame_index) {
            Some((start, end)) => Some(self.frame_between(start, end).pixels),
            None => None,
        }
    }

    /// Frame `frame_index` up to row `stop_entry`, as RGBA bytes; none past
    /// the last frame.
    pub fn render_partial_frame(&self, frame_index: usize, stop_entry: usize) -> (r: Option<Vec<u8>>)
        requires
            self.wf(),
        ensures
            match frame_range_of(self.table(), frame_index as int) {
                Some((s, e)) => r matches Some(v) && v@ == rgba_of(self.frame_pixels(s as int, stop_entry as int)),
                None => r is None,
            },
    {
        match self.frame_entry_range(frame_index) {
            Some((start, _end)) => Some(self.frame_between(start, stop_entry).to_rgba()),
            None => None,
        }
    }

    /// The pixel position of each entry of frame `frame_index`, packed;
    /// none past the last frame.
    pub fn build_pixel_position_map(&self, frame_index: usize) -> (r: Option<Vec<u32>>)
        requires
            self.wf(),
        ensures
            match frame_range_of(self.table(), frame_index as int) {
                Some((s, e)) => r matches Some(v) && v@ == Seq::new(
                    self.positions(s as int, e as int).len(),
                    |k: int| packed_position(self.positions(s as int, e as int)[k]),
                ),
                None => r is None,
            },
    {
        let (start, end) = match self.frame_entry_range(frame_index) {
            Some(r) => r,
            None => return None,
        };
        let map = match &self.downsample_map {
            Some(m) => {
                let ds = DownsampledStore::from_map(&self.store, copy_rows(m));
                proof {
                    self.lemma_frame_source(ds_row(m@, start as int), ds_end(m@, self.table().rows as int, end as int));
                }
                build_pixel_position_map_downsampled(&ds, start, end)
            },
            None => {
                proof {
                    self.lemma_frame_source(start as int, end as int);
                }
                build_pixel_position_map(&self.store, start, end)
            },
        };
        let ghost p = self.positions(start as int, end as int);
        assert(map@ == p);
        let mut out: Vec<u32> = Vec::new();
        let mut k: usize = 0;
        while k < map.len()
            invariant
                k <= map@.len(),
                map@ == p,
                out@ == Seq::new(k as nat, |j: int| packed_position(p[j])),
            decreases map@.len() - k,
        {
            let (x, y) = map[k];
            let v: u32 = if x == 0xFFFF {
                0xFFFF_FFFF
            } else {
                ((x as u32) << 16u32) | (y as u32)
            };
            out.push(v);
            k += 1;
            assert(out@ =~= Seq::new(k as nat, |j: int| packed_position(p[j])));
        }
        Some(out)
    }

    /// For each LCD position, the row of frame `frame_index` whose entry
    /// produced its pixel (`u32::MAX` for none); none past the last frame.
    pub fn build_reverse_pixel_map(&self, frame_index: usize) -> (r: Option<Vec<u32>>)
        requires
            self.wf(),
        ensures
            match frame_range_of(self.table(), frame_index as int) {
                Some((s, e)) => r matches Some(v) && v@ == self.reverse_positions(s as int, e as int),
                None => r is None,
            },
    {
        let (start, end) = match self.frame_entry_range(frame_index) {
            Some(r) => r,
            None => return None,
        };
        match &self.downsample_map {
            Some(m) => {
                let ds = DownsampledStore::from_map(&self.store, copy_rows(m));
                proof {
                    self.lemma_frame_source(ds_row(m@, start as int), ds_end(m@, self.table().rows as int, end as int));
                }
                Some(build_reverse_pixel_map_downsampled(&ds, start, end))
            },
            None => {
                proof {
                    self.lemma_frame_source(start as int, end as int);
                }
                Some(build_reverse_pixel_map(&self.store, start, end))
            },
        }
    }
}

} // verus!
