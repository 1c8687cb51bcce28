//! How the command-line tool shows and reads small things: field values,
//! store rows, comma-separated lists, and the reference frame a trace is
//! trimmed to.
use vstd::prelude::*;

use crate::column_store::{cell_flag, cell_num, col_text, complete, ColumnStore, TableView};
use crate::entry::{FieldValue, FieldValueView, TraceEntry};
use crate::framebuffer::{lcd_pixels, Frame, LCD_HEIGHT, LCD_WIDTH};
use crate::profile::{field_type, type_of_field, FieldType};
use crate::text::{
    chars_of, find_char, find_char_exec, hex_exec, hex_text, lemma_find_char_bound, parse_unsigned,
    parse_unsigned_exec, slice_chars, string_of, strip_prefix, strip_prefix_chars, trim, trim_chars,
};

verus! {

// ---------------------------------------------------------------------------
// Lists
// ---------------------------------------------------------------------------

/// `str::split` on a character: the pieces between its occurrences, one
/// more than there are.
pub open spec fn split_on(s: Seq<char>, sep: char) -> Seq<Seq<char>>
    decreases s.len(),
{
    match find_char(s, sep) {
        None => seq![s],
        Some(i) => {
            proof {
                lemma_find_char_bound(s, sep);
            }
            if 0 <= i < s.len() {
                seq![s.take(i)] + split_on(s.skip(i + 1), sep)
            } else {
                seq![s]
            }
        },
    }
}

/// The pieces of `s` between occurrences of `sep`.
pub fn split_text(s: &str, sep: char) -> (r: Vec<Vec<char>>)
    ensures
        r@.len() == split_on(s@, sep).len(),
        forall|k: int| 0 <= k < r@.len() ==> (#[trigger] r@[k])@ == split_on(s@, sep)[k],
{
    let v = chars_of(s);
    let mut out: Vec<Vec<char>> = Vec::new();
    let mut rest = slice_chars(&v, 0, v.len());
    assert(v@.subrange(0, v@.len() as int) =~= s@);
    let ghost done: Seq<Seq<char>> = Seq::empty();
    loop
        invariant
            split_on(s@, sep) == done + split_on(rest@, sep),
            out@.len() == done.len(),
            forall|k: int| 0 <= k < out@.len() ==> (#[trigger] out@[k])@ == done[k],
        decreases rest@.len(),
    {
        proof {
            lemma_find_char_bound(rest@, sep);
        }
        match find_char_exec(&rest, sep) {
            Some(i) => {
                let piece = slice_chars(&rest, 0, i);
                let next = slice_chars(&rest, i + 1, rest.len());
                proof {
                    assert(piece@ =~= rest@.take(i as int));
                    assert(next@ =~= rest@.skip(i + 1));
                    assert(split_on(rest@, sep) == seq![piece@] + split_on(next@, sep));
                    assert(done + split_on(rest@, sep) =~= done.push(piece@) + split_on(next@, sep));
                    done = done.push(piece@);
                }
                out.push(piece);
                rest = next;
            },
            None => {
                proof {
                    assert(done + split_on(rest@, sep) =~= done.push(rest@));
                    done = done.push(rest@);
                }
                out.push(rest);
                assert(done =~= split_on(s@, sep));
                return out;
            },
        }
    }
}

/// The comma-separated names of a field list (`--fields a,b`): every
/// piece, empty ones too.
pub fn split_fields(s: &str) -> (r: Vec<String>)
    ensures
        crate::header::string_texts(r@) == split_on(s@, ','),
{
    let pieces = split_text(s, ',');
    let mut out: Vec<String> = Vec::new();
    let mut k: usize = 0;
    while k < pieces.len()
        invariant
            k <= pieces@.len(),
            pieces@.len() == split_on(s@, ',').len(),
            forall|j: int| 0 <= j < pieces@.len() ==> (#[trigger] pieces@[j])@ == split_on(s@, ',')[j],
            crate::header::string_texts(out@) == split_on(s@, ',').take(k as int),
        decreases pieces@.len() - k,
    {
        let ghost before = out@;
        let piece = string_of(&pieces[k]);
        assert(piece@ == split_on(s@, ',')[k as int]);
        out.push(piece);
        assert(crate::header::string_texts(out@) =~= crate::header::string_texts(before).push(piece@));
        assert(split_on(s@, ',').take(k + 1) =~= split_on(s@, ',').take(k as int).push(piece@));
        k += 1;
    }
    assert(split_on(s@, ',').take(k as int) =~= split_on(s@, ','));
    out
}

/// The numbers of a comma-separated list (`--frames 1,3`), each piece
/// trimmed; pieces that are not numbers are left out.
pub open spec fn frame_list(pieces: Seq<Seq<char>>) -> Seq<usize>
    decreases pieces.len(),
{
    if pieces.len() == 0 {
        Seq::empty()
    } else {
        let prev = frame_list(pieces.drop_last());
        match parse_unsigned(trim(pieces.last()), 10, usize::MAX as nat) {
            Some(n) => prev.push(n as usize),
            None => prev,
        }
    }
}

/// Parse a comma-separated list of frame numbers.
pub fn parse_frame_list(s: &str) -> (r: Vec<usize>)
    ensures
        r@ == frame_list(split_on(s@, ',')),
{
    let pieces = split_text(s, ',');
    let ghost ps = split_on(s@, ',');
    let mut out: Vec<usize> = Vec::new();
    let mut k: usize = 0;
    while k < pieces.len()
        invariant
            k <= pieces@.len(),
            pieces@.len() == ps.len(),
            forall|j: int| 0 <= j < pieces@.len() ==> (#[trigger] pieces@[j])@ == ps[j],
            out@ == frame_list(ps.take(k as int)),
        decreases pieces@.len() - k,
    {
        assert(ps.take(k + 1).drop_last() =~= ps.take(k as int));
        assert(ps.take(k + 1).last() == pieces@[k as int]@);
        let t = trim_chars(&pieces[k]);
        match parse_unsigned_exec(&t, 10, usize::MAX as u64) {
            Some(n) => {
                out.push(n as usize);
            },
            None => {},
        }
        k += 1;
    }
    assert(ps.take(k as int) =~= ps);
    out
}

// ---------------------------------------------------------------------------
// Values
// ---------------------------------------------------------------------------

/// What `str::to_lowercase` gives for a text.
pub uninterp spec fn lowercase_of(s: Seq<char>) -> Seq<char>;

/// `str::to_lowercase`: the text with each character lower-cased by the
/// Unicode rules of std. The contract names the result, a function of the
/// text alone, and says no more of it.
#[verifier::external_body]
fn to_lowercase(s: &str) -> (r: String)
    ensures
        r@ == lowercase_of(s@),
{
    s.to_lowercase()
}

/// How a value is shown: numbers in lower-case hex (two digits up to
/// 0xFF, four up to 0xFFFF, else as many as needed), a hex text without
/// its `0x` and lower-cased, other texts as they are, flags as
/// `true`/`false`, null as `null`.
pub open spec fn shown_text(v: FieldValueView) -> Seq<char> {
    match v {
        FieldValueView::Number(n) => if n <= 0xFF {
            hex_text(n as nat, 2)
        } else if n <= 0xFFFF {
            hex_text(n as nat, 4)
        } else {
            hex_text(n as nat, 0)
        },
        FieldValueView::OtherNumber(s) => s,
        FieldValueView::Text(s) => match strip_prefix(s, "0x"@) {
            Some(h) => lowercase_of(h),
            None => match strip_prefix(s, "0X"@) {
                Some(h) => lowercase_of(h),
                None => s,
            },
        },
        FieldValueView::Bool(b) => if b {
            "true"@
        } else {
            "false"@
        },
        FieldValueView::Null => "null"@,
        FieldValueView::Other(s) => s,
    }
}

/// Show a value.
pub fn display_val(v: &FieldValue) -> (r: String)
    ensures
        r@ == shown_text(v@),
{
    match v {
        FieldValue::Number(n) => {
            let w: usize = if *n <= 0xFF {
                2
            } else if *n <= 0xFFFF {
                4
            } else {
                0
            };
            string_of(&hex_exec(*n, w))
        },
        FieldValue::OtherNumber(s) => s.clone(),
        FieldValue::Text(s) => {
            let c = chars_of(s.as_str());
            match strip_prefix_chars(&c, &chars_of("0x")) {
                Some(h) => to_lowercase(string_of(&h).as_str()),
                None => match strip_prefix_chars(&c, &chars_of("0X")) {
                    Some(h) => to_lowercase(string_of(&h).as_str()),
                    None => s.clone(),
                },
            }
        },
        FieldValue::Bool(b) => {
            if *b {
                string_of(&chars_of("true"))
            } else {
                string_of(&chars_of("false"))
            }
        },
        FieldValue::Null => string_of(&chars_of("null")),
        FieldValue::Other(s) => s.clone(),
    }
}

// ---------------------------------------------------------------------------
// Store rows
// ---------------------------------------------------------------------------

/// The text of the first `k` fields of a store row, as the query command
/// prints it: ` name=value` for each, with numbers in hex (at least two
/// digits), flags as `true`/`false`, and texts as they are (left out
/// when empty).
pub open spec fn row_text(t: TableView, row: int, k: int) -> Seq<char>
    decreases k,
{
    if k <= 0 {
        Seq::empty()
    } else {
        let prev = row_text(t, row, k - 1);
        let name = t.header.fields[k - 1];
        let c = t.columns[k - 1];
        match type_of_field(name) {
            FieldType::Bool => prev + " "@ + name + "="@ + (if cell_flag(c.cells[row]) {
                "true"@
            } else {
                "false"@
            }),
            FieldType::Str => if col_text(c, row).len() == 0 {
                prev
            } else {
                prev + " "@ + name + "="@ + col_text(c, row)
            },
            _ => prev + " "@ + name + "="@ + hex_text(cell_num(c.cells[row]) as nat, 2),
        }
    }
}

/// The entry of a store row as the diff command builds it: flags and
/// texts (non-empty ones) under their names, the `u64` field under `cy`,
/// and the narrower numbers under their names.
pub open spec fn row_entry(t: TableView, row: int, k: int) -> Map<Seq<char>, FieldValueView>
    decreases k,
{
    if k <= 0 {
        Map::empty()
    } else {
        let prev = row_entry(t, row, k - 1);
        let name = t.header.fields[k - 1];
        let c = t.columns[k - 1];
        match type_of_field(name) {
            FieldType::Bool => prev.insert(name, FieldValueView::Bool(cell_flag(c.cells[row]))),
            FieldType::Str => if col_text(c, row).len() == 0 {
                prev
            } else {
                prev.insert(name, FieldValueView::Text(col_text(c, row)))
            },
            FieldType::UInt64 => prev.insert("cy"@, FieldValueView::Number(cell_num(c.cells[row]))),
            FieldType::UInt16 => prev.insert(name, crate::entry::word_value(cell_num(c.cells[row]) as u16)),
            FieldType::UInt8 => prev.insert(name, crate::entry::byte_value(cell_num(c.cells[row]) as u8)),
        }
    }
}

/// The text of a store row, as the query command prints it.
pub fn store_entry_text(store: &ColumnStore, row: usize) -> (r: String)
    requires
        store.wf(),
        complete(store.table()),
        row < store.table().rows,
    ensures
        r@ == row_text(store.table(), row as int, store.table().header.fields.len() as int),
{
    let ghost t = store.table();
    let fields = &store.header().fields;
    assert(t.header.fields == crate::header::string_texts(fields@));
    let mut out: Vec<char> = Vec::new();
    let mut k: usize = 0;
    while k < fields.len()
        invariant
            k <= fields@.len(),
            t == store.table(),
            store.wf(),
            complete(t),
            row < t.rows,
            t.header.fields == crate::header::string_texts(fields@),
            out@ == row_text(t, row as int, k as int),
        decreases fields@.len() - k,
    {
        let name = fields[k].as_str();
        assert(name@ == t.header.fields[k as int]);
        assert(t.columns[k as int].cells.len() >= t.rows);
        assert(t.columns[k as int].kind == type_of_field(name@));
        let col = store.column(k);
        match field_type(name) {
            FieldType::Bool => {
                let b = col.get_bool(row);
                crate::text::append_str(&mut out, " ");
                crate::text::append_str(&mut out, name);
                crate::text::append_str(&mut out, "=");
                if b {
                    crate::text::append_str(&mut out, "true");
                } else {
                    crate::text::append_str(&mut out, "false");
                }
            },
            FieldType::Str => {
                let v = col.get_str(row);
                let vc = chars_of(v);
                if vc.len() > 0 {
                    crate::text::append_str(&mut out, " ");
                    crate::text::append_str(&mut out, name);
                    crate::text::append_str(&mut out, "=");
                    crate::text::append_chars(&mut out, &vc);
                }
            },
            _ => {
                let n = col.get_numeric(row);
                crate::text::append_str(&mut out, " ");
                crate::text::append_str(&mut out, name);
                crate::text::append_str(&mut out, "=");
                crate::text::append_chars(&mut out, &hex_exec(n, 2));
            },
        }
        k += 1;
    }
    string_of(&out)
}

/// The entry of a store row, as the diff command builds it.
pub fn store_entry_at(store: &ColumnStore, row: usize) -> (r: TraceEntry)
    requires
        store.wf(),
        complete(store.table()),
        row < store.table().rows,
    ensures
        r@ == row_entry(store.table(), row as int, store.table().header.fields.len() as int),
{
    let ghost t = store.table();
    let fields = &store.header().fields;
    assert(t.header.fields == crate::header::string_texts(fields@));
    let mut entry = TraceEntry::new();
    let mut k: usize = 0;
    while k < fields.len()
        invariant
            k <= fields@.len(),
            t == store.table(),
            store.wf(),
            complete(t),
            row < t.rows,
            t.header.fields == crate::header::string_texts(fields@),
            entry@ == row_entry(t, row as int, k as int),
        decreases fields@.len() - k,
    {
        let name = fields[k].as_str();
        assert(name@ == t.header.fields[k as int]);
        assert(t.columns[k as int].cells.len() >= t.rows);
        assert(t.columns[k as int].kind == type_of_field(name@));
        let col = store.column(k);
        match field_type(name) {
            FieldType::Bool => entry.set_bool(name, col.get_bool(row)),
            FieldType::Str => {
                let v = col.get_str(row);
                if chars_of(v).len() > 0 {
                    entry.set_str(name, v);
                }
            },
            FieldType::UInt64 => entry.set_cy(col.get_numeric(row)),
            FieldType::UInt16 => entry.set_u16(name, #[verifier::truncate] (col.get_numeric(row) as u16)),
            FieldType::UInt8 => entry.set_u8(name, #[verifier::truncate] (col.get_numeric(row) as u8)),
        }
        k += 1;
    }
    entry
}

// ---------------------------------------------------------------------------
// Reference frames
// ---------------------------------------------------------------------------

/// The pixels of a reference frame file: each byte less `'0'` (wrapping),
/// at most 3; none unless it holds one byte per LCD pixel.
pub open spec fn reference_of(bytes: Seq<u8>) -> Option<Seq<u8>> {
    if bytes.len() != lcd_pixels() {
        None
    } else {
        Some(
            Seq::new(
                bytes.len(),
                |i: int| {
                    let d = ((bytes[i] - 48) % 256) as u8;
                    if d < 3 {
                        d
                    } else {
                        3u8
                    }
                },
            ),
        )
    }
}

/// Read a reference frame file.
pub fn reference_pixels(bytes: &[u8]) -> (r: Option<Vec<u8>>)
    ensures
        match r {
            Some(v) => reference_of(bytes@) == Some(v@),
            None => reference_of(bytes@) is None,
        },
{
    if bytes.len() != LCD_WIDTH * LCD_HEIGHT {
        return None;
    }
    let mut out: Vec<u8> = Vec::new();
    let mut i: usize = 0;
    while i < bytes.len()
        invariant
            i <= bytes@.len(),
            out@ == Seq::new(
                i as nat,
                |j: int| {
                    let d = ((bytes@[j] - 48) % 256) as u8;
                    if d < 3 {
                        d
                    } else {
                        3u8
                    }
                },
            ),
        decreases bytes@.len() - i,
    {
        let d = bytes[i].wrapping_sub(48);
        assert(d == ((bytes@[i as int] - 48) % 256) as u8);
        out.push(if d < 3 {
            d
        } else {
            3
        });
        i += 1;
        assert(out@ =~= Seq::new(
            i as nat,
            |j: int| {
                let d = ((bytes@[j] - 48) % 256) as u8;
                if d < 3 {
                    d
                } else {
                    3u8
                }
            },
        ));
    }
    Some(out)
}

/// The first frame of a list whose pixels equal a reference.
pub open spec fn first_matching(frames: Seq<Frame>, reference: Seq<u8>, i: int) -> Option<int>
    decreases frames.len() - i,
{
    if i < 0 || i >= frames.len() {
        None
    } else if frames[i].pixels@ == reference {
        Some(i)
    } else {
        first_matching(frames, reference, i + 1)
    }
}

/// Where trimming to a reference frame cuts a trace of `total` entries:
/// one entry past the end of the first frame that matches (at most the
/// whole trace), or the whole trace when none does; and that frame.
pub fn reference_cut(frames: &Vec<Frame>, reference: &Vec<u8>, total: usize) -> (r: (usize, Option<usize>))
    ensures
        match first_matching(frames@, reference@, 0) {
            Some(k) => r.1 == Some(k as usize) && r.0 == (if frames@[k].end_entry < total {
                frames@[k].end_entry + 1
            } else {
                total as int
            }),
            None => r.1 is None && r.0 == total,
        },
{
    let mut k: usize = 0;
    while k < frames.len()
        invariant
            k <= frames@.len(),
            first_matching(frames@, reference@, 0) == first_matching(frames@, reference@, k as int),
        decreases frames@.len() - k,
    {
        if crate::text::bytes_eq(&frames[k].pixels, reference) {
            let e = frames[k].end_entry;
            let cut = if e < total {
                e + 1
            } else {
                total
            };
            return (cut, Some(k));
        }
        k += 1;
    }
    (total, None)
}

/// The rows shown around a match at row `i`: up to `context` before it,
/// and up to `context` after it (within `total` rows).
pub fn context_rows(i: usize, context: usize, total: usize) -> (r: (usize, usize))
    requires
        i < total,
    ensures
        r.0 == (if i >= context {
            i - context
        } else {
            0
        }),
        r.1 == (if i + context + 1 < total {
            i + context + 1
        } else {
            total as int
        }),
{
    let start = if i >= context {
        i - context
    } else {
        0
    };
    let end = if context < total - i - 1 {
        i + context + 1
    } else {
        total
    };
    (start, end)
}

} // verus!
