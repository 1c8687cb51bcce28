//! A writer that adapters fill field by field, by column index: set the
//! values of an entry, finish it, and mark frame boundaries between
//! entries. The column order is the header's field list.
use vstd::prelude::*;

use crate::entry::{entries_view, FieldValue, FieldValueView, TraceEntry};
use crate::header::{copy_strings, string_texts, TraceHeader};
use crate::profile::{field_type, type_of_field, FieldType};
use crate::text::str_eq;

verus! {

/// The number by which a field type is reported to callers:
/// 0 = u8, 1 = u16, 2 = u64, 3 = bool, 4 = str.
pub open spec fn type_code(t: FieldType) -> i32 {
    match t {
        FieldType::UInt8 => 0,
        FieldType::UInt16 => 1,
        FieldType::UInt64 => 2,
        FieldType::Bool => 3,
        FieldType::Str => 4,
    }
}

/// The first column named `name`, or -1 where none is.
pub open spec fn column_of(names: Seq<Seq<char>>, name: Seq<char>) -> int
    decreases names.len(),
{
    if names.len() == 0 {
        -1
    } else if column_of(names.drop_last(), name) >= 0 {
        column_of(names.drop_last(), name)
    } else if names.last() == name {
        names.len() - 1
    } else {
        -1
    }
}

/// The entry that the values set so far make: each column that holds a
/// value gives that value to its field, a later column of the same name
/// winning over an earlier one.
pub open spec fn entry_from(names: Seq<Seq<char>>, vals: Seq<Option<FieldValueView>>) -> Map<
    Seq<char>,
    FieldValueView,
>
    decreases vals.len(),
{
    if vals.len() == 0 {
        Map::empty()
    } else {
        let m = entry_from(names, vals.drop_last());
        match vals.last() {
            Some(v) => m.insert(names[vals.len() - 1], v),
            None => m,
        }
    }
}

/// The view of the pending values.
pub open spec fn pending_view(p: Seq<Option<FieldValue>>) -> Seq<Option<FieldValueView>> {
    Seq::new(
        p.len(),
        |i: int|
            match p[i] {
                Some(v) => Some(v@),
                None => None,
            },
    )
}

/// A writer that receives field values by column index.
pub struct GbtraceWriter {
    field_names: Vec<String>,
    field_types: Vec<FieldType>,
    pending: Vec<Option<FieldValue>>,
    entries: Vec<TraceEntry>,
    frame_starts: Vec<u64>,
}

impl GbtraceWriter {
    /// The field names, in column order.
    pub closed spec fn names(&self) -> Seq<Seq<char>> {
        string_texts(self.field_names@)
    }

    /// The native type of each column.
    pub closed spec fn types(&self) -> Seq<FieldType> {
        self.field_types@
    }

    /// The values set for the entry being written (`None` where unset).
    pub closed spec fn pending(&self) -> Seq<Option<FieldValueView>> {
        pending_view(self.pending@)
    }

    /// The entries finished so far.
    pub closed spec fn written(&self) -> Seq<Map<Seq<char>, FieldValueView>> {
        entries_view(self.entries@)
    }

    /// The entry index at which each marked frame starts.
    pub closed spec fn frames(&self) -> Seq<u64> {
        self.frame_starts@
    }

    /// The columns, their types and the pending values line up.
    pub closed spec fn wf(&self) -> bool {
        &&& self.field_types@.len() == self.field_names@.len()
        &&& self.pending@.len() == self.field_names@.len()
        &&& forall|i: int|
            0 <= i < self.field_types@.len() ==> #[trigger] self.field_types@[i] == type_of_field(
                self.field_names@[i]@,
            )
    }

    /// A writer for the header's fields, with nothing written yet.
    pub fn new(header: &TraceHeader) -> (r: GbtraceWriter)
        ensures
            r.wf(),
            r.names() == header@.fields,
            r.pending() == Seq::new(header@.fields.len(), |i: int| None::<FieldValueView>),
            r.written() == Seq::<Map<Seq<char>, FieldValueView>>::empty(),
            r.frames() == Seq::<u64>::empty(),
    {
        let field_names = copy_strings(&header.fields);
        let mut field_types: Vec<FieldType> = Vec::new();
        let mut pending: Vec<Option<FieldValue>> = Vec::new();
        let mut i: usize = 0;
        while i < field_names.len()
            invariant
                i <= field_names@.len(),
                field_types@.len() == i,
                pending@.len() == i,
                forall|k: int| 0 <= k < i ==> #[trigger] field_types@[k] == type_of_field(field_names@[k]@),
                forall|k: int| 0 <= k < i ==> #[trigger] pending@[k] is None,
            decreases field_names@.len() - i,
        {
            field_types.push(field_type(field_names[i].as_str()));
            pending.push(None);
            i += 1;
        }
        let r = GbtraceWriter {
            field_names,
            field_types,
            pending,
            entries: Vec::new(),
            frame_starts: Vec::new(),
        };
        assert(r.names() =~= header@.fields);
        assert(r.pending() =~= Seq::new(header@.fields.len(), |i: int| None::<FieldValueView>));
        assert(r.written() =~= Seq::<Map<Seq<char>, FieldValueView>>::empty());
        r
    }

    /// The number of fields.
    pub fn num_fields(&self) -> (r: usize)
        ensures
            r == self.names().len(),
    {
        self.field_names.len()
    }

    /// The column index of a field by name, or -1 if there is none.
    pub fn find_field(&self, name: &str) -> (r: i32)
        requires
            self.names().len() <= i32::MAX,
        ensures
            r == column_of(self.names(), name@),
    {
        let ghost names = self.names();
        let mut i: usize = 0;
        while i < self.field_names.len()
            invariant
                i <= self.field_names@.len(),
                names == string_texts(self.field_names@),
                names.len() <= i32::MAX,
                column_of(names.take(i as int), name@) == -1,
            decreases self.field_names@.len() - i,
        {
            assert(names.take(i + 1).drop_last() =~= names.take(i as int));
            if str_eq(self.field_names[i].as_str(), name) {
                proof {
                    lemma_column_of_prefix(names, i as int + 1, name@);
                }
                return i as i32;
            }
            i += 1;
        }
        assert(names.take(i as int) =~= names);
        -1i32
    }

    /// The type number of a column (see [`type_code`]), or -1 for an index
    /// past the last column.
    pub fn field_type(&self, field: usize) -> (r: i32)
        requires
            self.wf(),
        ensures
            r == (if field < self.names().len() { type_code(self.types()[field as int]) } else { -1i32 }),
    {
        if field >= self.field_types.len() {
            return -1;
        }
        match self.field_types[field] {
            FieldType::UInt8 => 0,
            FieldType::UInt16 => 1,
            FieldType::UInt64 => 2,
            FieldType::Bool => 3,
            FieldType::Str => 4,
        }
    }

    fn put(&mut self, field: usize, v: FieldValue)
        requires
            old(self).wf(),
            field < old(self).names().len(),
        ensures
            final(self).wf(),
            final(self).names() == old(self).names(),
            final(self).pending() == old(self).pending().update(field as int, Some(v@)),
            final(self).written() == old(self).written(),
            final(self).frames() == old(self).frames(),
    {
        self.pending.set(field, Some(v));
        assert(self.pending() =~= old(self).pending().update(field as int, Some(v@)));
    }

    /// Set a u8 field value.
    pub fn set_u8(&mut self, field: usize, value: u8)
        requires
            old(self).wf(),
            field < old(self).names().len(),
        ensures
            final(self).wf(),
            final(self).names() == old(self).names(),
            final(self).pending() == old(self).pending().update(
                field as int,
                Some(FieldValueView::Number(value as u64)),
            ),
            final(self).written() == old(self).written(),
            final(self).frames() == old(self).frames(),
    {
        self.put(field, FieldValue::Number(value as u64));
    }

    /// Set a u16 field value.
    pub fn set_u16(&mut self, field: usize, value: u16)
        requires
            old(self).wf(),
            field < old(self).names().len(),
        ensures
            final(self).wf(),
            final(self).names() == old(self).names(),
            final(self).pending() == old(self).pending().update(
                field as int,
                Some(FieldValueView::Number(value as u64)),
            ),
            final(self).written() == old(self).written(),
            final(self).frames() == old(self).frames(),
    {
        self.put(field, FieldValue::Number(value as u64));
    }

    /// Set a u64 field value.
    pub fn set_u64(&mut self, field: usize, value: u64)
        requires
            old(self).wf(),
            field < old(self).names().len(),
        ensures
            final(self).wf(),
            final(self).names() == old(self).names(),
            final(self).pending() == old(self).pending().update(field as int, Some(FieldValueView::Number(value))),
            final(self).written() == old(self).written(),
            final(self).frames() == old(self).frames(),
    {
        self.put(field, FieldValue::Number(value));
    }

    /// Set a bool field value.
    pub fn set_bool(&mut self, field: usize, value: bool)
        requires
            old(self).wf(),
            field < old(self).names().len(),
        ensures
            final(self).wf(),
            final(self).names() == old(self).names(),
            final(self).pending() == old(self).pending().update(field as int, Some(FieldValueView::Bool(value))),
            final(self).written() == old(self).written(),
            final(self).frames() == old(self).frames(),
    {
        self.put(field, FieldValue::Bool(value));
    }

    /// Give a nullable field the null value.
    pub fn set_null(&mut self, field: usize)
        requires
            old(self).wf(),
            field < old(self).names().len(),
        ensures
            final(self).wf(),
            final(self).names() == old(self).names(),
            final(self).pending() == old(self).pending().update(field as int, Some(FieldValueView::Null)),
            final(self).written() == old(self).written(),
            final(self).frames() == old(self).frames(),
    {
        self.put(field, FieldValue::Null);
    }

    /// Set a string field value.
    pub fn set_str(&mut self, field: usize, value: &str)
        requires
            old(self).wf(),
            field < old(self).names().len(),
        ensures
            final(self).wf(),
            final(self).names() == old(self).names(),
            final(self).pending() == old(self).pending().update(field as int, Some(FieldValueView::Text(value@))),
            final(self).written() == old(self).written(),
            final(self).frames() == old(self).frames(),
    {
        self.put(field, FieldValue::Text(crate::text::string_of(&crate::text::chars_of(value))));
    }

    /// Mark a frame boundary at the current entry position.
    pub fn mark_frame(&mut self)
        requires
            old(self).wf(),
            old(self).written().len() < u64::MAX,
        ensures
            final(self).wf(),
            final(self).names() == old(self).names(),
            final(self).pending() == old(self).pending(),
            final(self).written() == old(self).written(),
            final(self).frames() == old(self).frames().push(old(self).written().len() as u64),
    {
        let n = self.entries.len() as u64;
        self.frame_starts.push(n);
    }

    /// Finish the current entry: the values set since the last one make a
    /// new entry, and every column is unset again.
    pub fn finish_entry(&mut self)
        requires
            old(self).wf(),
        ensures
            final(self).wf(),
            final(self).names() == old(self).names(),
            final(self).pending() == Seq::new(old(self).names().len(), |i: int| None::<FieldValueView>),
            final(self).written() == old(self).written().push(entry_from(old(self).names(), old(self).pending())),
            final(self).frames() == old(self).frames(),
    {
        let ghost names = self.names();
        let ghost vals = self.pending();
        let mut e = TraceEntry::new();
        let mut i: usize = 0;
        while i < self.pending.len()
            invariant
                i <= self.pending@.len(),
                self.pending@.len() == self.field_names@.len(),
                names == string_texts(self.field_names@),
                vals == pending_view(self.pending@),
                e@ == entry_from(names, vals.take(i as int)),
            decreases self.pending@.len() - i,
        {
            assert(vals.take(i + 1).drop_last() =~= vals.take(i as int));
            match &self.pending[i] {
                Some(v) => {
                    e.set(self.field_names[i].as_str(), v.duplicate());
                },
                None => {},
            }
            i += 1;
        }
        assert(vals.take(i as int) =~= vals);
        let ghost before = self.entries@;
        self.entries.push(e);
        assert(entries_view(self.entries@) =~= entries_view(before).push(e@));
        let ghost filled = *self;
        let mut j: usize = 0;
        while j < self.pending.len()
            invariant
                j <= self.pending@.len(),
                self.wf(),
                self.field_names == filled.field_names,
                self.field_types == filled.field_types,
                self.entries == filled.entries,
                self.frame_starts == filled.frame_starts,
                forall|k: int| 0 <= k < j ==> #[trigger] self.pending@[k] is None,
            decreases self.pending@.len() - j,
        {
            self.pending.set(j, None);
            j += 1;
        }
        assert(self.pending() =~= Seq::new(names.len(), |i: int| None::<FieldValueView>));
    }

    /// Close the writer, handing back the entries written and the entry
    /// index at which each marked frame starts.
    pub fn finish(self) -> (r: (Vec<TraceEntry>, Vec<u64>))
        ensures
            entries_view(r.0@) == self.written(),
            r.1@ == self.frames(),
    {
        (self.entries, self.frame_starts)
    }
}

/// Where a column is first found in a prefix that ends with it, it is found
/// there in the whole list too.
proof fn lemma_column_of_prefix(names: Seq<Seq<char>>, n: int, name: Seq<char>)
    requires
        0 < n <= names.len(),
        names[n - 1] == name,
        column_of(names.take(n - 1), name) == -1,
    ensures
        column_of(names, name) == n - 1,
    decreases names.len() - n,
{
    assert(names.take(n).drop_last() =~= names.take(n - 1));
    if n == names.len() {
        assert(names.take(n) =~= names);
    } else {
        assert(names.drop_last().take(n - 1) =~= names.take(n - 1));
        assert(names.drop_last()[n - 1] == name);
        lemma_column_of_prefix(names.drop_last(), n, name);
    }
}

} // verus!
