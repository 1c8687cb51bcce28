//! Loading a trace store from a trace file's raw bytes: gzip data
//! (recognised by its magic bytes) is decompressed first, the text is read
//! line by line, the first line is the JSON header and each later line a
//! JSON entry.
use std::io::Read;
use vstd::prelude::*;
use vstd::slice::slice_to_vec;
use vstd::utf8::{decode_utf8, encode_utf8_decode_utf8, encode_utf8_valid_utf8, valid_utf8};

use crate::column_store::{parsed_table, ColumnStore};
use crate::entry::{entries_view, FieldValue, FieldValueView, TraceEntry};
use crate::error::Error;
use crate::header::{boot_rom_of_text, names_field, string_texts, validation_of, BootRom, HeaderView, TraceHeader, Trigger};
use crate::reader::{lemma_line_end_bounds, line_end, read_line};
use crate::text::{chars_of, str_eq, string_of, text_from_utf8, trim, trim_chars};

verus! {

// ---------------------------------------------------------------------------
// JSON lines and gzip
// ---------------------------------------------------------------------------

/// What a line of JSON is: not JSON (with the parser's message), JSON but
/// not an object, or an object with its members.
pub enum JsonLine {
    Invalid(String),
    NotObject,
    Object(Vec<(String, FieldValue)>),
}

/// The value of a [`JsonLine`].
pub enum JsonLineView {
    Invalid(Seq<char>),
    NotObject,
    Object(Seq<(Seq<char>, FieldValueView)>),
}

/// Members as texts and values.
pub open spec fn pairs_view(v: Seq<(String, FieldValue)>) -> Seq<(Seq<char>, FieldValueView)> {
    Seq::new(v.len(), |i: int| (v[i].0@, v[i].1@))
}

impl View for JsonLine {
    type V = JsonLineView;

    open spec fn view(&self) -> JsonLineView {
        match self {
            JsonLine::Invalid(m) => JsonLineView::Invalid(m@),
            JsonLine::NotObject => JsonLineView::NotObject,
            JsonLine::Object(v) => JsonLineView::Object(pairs_view(v@)),
        }
    }
}

/// What `serde_json` reads from a line.
pub uninterp spec fn json_line_of(line: Seq<char>) -> JsonLineView;

/// `serde_json::from_str::<serde_json::Value>`: the line's JSON value. An
/// error gives its message; an object gives its members, each value as a
/// [`FieldValue`] (a number by its `u64` when it has one, else by its
/// text; an array or object by its JSON text). The contract names the
/// result, a function of the line alone, and says no more of it.
#[verifier::external_body]
fn parse_json_line(line: &str) -> (r: JsonLine)
    ensures
        r@ == json_line_of(line@),
{
    match serde_json::from_str::<serde_json::Value>(line) {
        Err(e) => JsonLine::Invalid(e.to_string()),
        Ok(serde_json::Value::Object(m)) => JsonLine::Object(m.into_iter().map(|(k, v)| (k, match v {
            serde_json::Value::Null => FieldValue::Null,
            serde_json::Value::Bool(b) => FieldValue::Bool(b),
            serde_json::Value::Number(n) => match n.as_u64() {
                Some(u) => FieldValue::Number(u),
                None => FieldValue::OtherNumber(n.to_string()),
            },
            serde_json::Value::String(s) => FieldValue::Text(s),
            other => FieldValue::Other(other.to_string()),
        })).collect()),
        Ok(_) => JsonLine::NotObject,
    }
}

/// What `serde_json` reads from a text as a list of strings.
pub uninterp spec fn json_strings_of(text: Seq<char>) -> Option<Seq<Seq<char>>>;

/// `serde_json::from_str::<Vec<String>>`: the strings of a JSON array of
/// strings, or nothing when the text is not one. The contract names the
/// result, a function of the text alone.
#[verifier::external_body]
fn parse_json_strings(text: &str) -> (r: Option<Vec<String>>)
    ensures
        match r {
            Some(v) => json_strings_of(text@) == Some(string_texts(v@)),
            None => json_strings_of(text@) is None,
        },
{
    serde_json::from_str::<Vec<String>>(text).ok()
}

/// What gzip decompression gives for some bytes.
pub uninterp spec fn gunzip_of(data: Seq<u8>) -> Option<Seq<u8>>;

/// `flate2::read::GzDecoder` read to its end: the decompressed bytes, or
/// nothing when the data is not valid gzip. The contract names the
/// result, a function of the data alone.
#[verifier::external_body]
fn gunzip(data: &[u8]) -> (r: Option<Vec<u8>>)
    ensures
        match r {
            Some(v) => gunzip_of(data@) == Some(v@),
            None => gunzip_of(data@) is None,
        },
{
    let mut out = Vec::new();
    match flate2::read::GzDecoder::new(data).read_to_end(&mut out) {
        Ok(_) => Some(out),
        Err(_) => None,
    }
}

// ---------------------------------------------------------------------------
// Headers and entries from JSON members
// ---------------------------------------------------------------------------

/// The map of members, a later member of the same name winning.
pub open spec fn pairs_to_map(ps: Seq<(Seq<char>, FieldValueView)>) -> Map<Seq<char>, FieldValueView>
    decreases ps.len(),
{
    if ps.len() == 0 {
        Map::empty()
    } else {
        pairs_to_map(ps.drop_last()).insert(ps.last().0, ps.last().1)
    }
}

/// The entry of an object's members.
fn entry_of_pairs(ps: &Vec<(String, FieldValue)>) -> (r: TraceEntry)
    ensures
        r@ == pairs_to_map(pairs_view(ps@)),
{
    let ghost pv = pairs_view(ps@);
    let mut e = TraceEntry::new();
    let mut i: usize = 0;
    while i < ps.len()
        invariant
            i <= ps@.len(),
            pv == pairs_view(ps@),
            e@ == pairs_to_map(pv.take(i as int)),
        decreases ps@.len() - i,
    {
        assert(pv.take(i + 1).drop_last() =~= pv.take(i as int));
        e.set(ps[i].0.as_str(), ps[i].1.duplicate());
        i += 1;
    }
    assert(pv.take(i as int) =~= pv);
    e
}

/// A member's text.
pub open spec fn text_field(m: Map<Seq<char>, FieldValueView>, k: Seq<char>) -> Option<Seq<char>> {
    if m.contains_key(k) {
        match m[k] {
            FieldValueView::Text(t) => Some(t),
            _ => None,
        }
    } else {
        None
    }
}

/// A member's flag.
pub open spec fn flag_field(m: Map<Seq<char>, FieldValueView>, k: Seq<char>) -> Option<bool> {
    if m.contains_key(k) {
        match m[k] {
            FieldValueView::Bool(b) => Some(b),
            _ => None,
        }
    } else {
        None
    }
}

/// A member's list of strings.
pub open spec fn list_field(m: Map<Seq<char>, FieldValueView>, k: Seq<char>) -> Option<Seq<Seq<char>>> {
    if m.contains_key(k) {
        match m[k] {
            FieldValueView::Other(t) => json_strings_of(t),
            _ => None,
        }
    } else {
        None
    }
}

/// The trigger a text names (in lower case).
pub open spec fn trigger_of_text(t: Seq<char>) -> Option<Trigger> {
    if t == "instruction"@ {
        Some(Trigger::Instruction)
    } else if t == "tcycle"@ {
        Some(Trigger::Tcycle)
    } else if t == "scanline"@ {
        Some(Trigger::Scanline)
    } else if t == "frame"@ {
        Some(Trigger::Frame)
    } else if t == "custom"@ {
        Some(Trigger::Custom)
    } else {
        None
    }
}

/// The notes: none when the member is missing.
pub open spec fn notes_field(m: Map<Seq<char>, FieldValueView>) -> Option<Seq<char>> {
    if m.contains_key("notes"@) {
        text_field(m, "notes"@)
    } else {
        Some(Seq::empty())
    }
}

/// The trigger member.
pub open spec fn trigger_field(m: Map<Seq<char>, FieldValueView>) -> Option<Trigger> {
    match text_field(m, "trigger"@) {
        Some(t) => trigger_of_text(t),
        None => None,
    }
}

/// The header a header line's members give: every member present with
/// the right kind of value (`notes` may be missing), or none.
pub open spec fn header_of(m: Map<Seq<char>, FieldValueView>) -> Option<HeaderView> {
    match (
        flag_field(m, "_header"@),
        text_field(m, "format_version"@),
        text_field(m, "emulator"@),
        text_field(m, "emulator_version"@),
        text_field(m, "rom_sha256"@),
        text_field(m, "model"@),
        text_field(m, "boot_rom"@),
        text_field(m, "profile"@),
        list_field(m, "fields"@),
        trigger_field(m),
        notes_field(m),
    ) {
        (Some(h), Some(fv), Some(em), Some(ev), Some(rs), Some(md), Some(br), Some(pf), Some(fs), Some(tr), Some(nt)) => Some(
            HeaderView {
                header_flag: h,
                format_version: fv,
                emulator: em,
                emulator_version: ev,
                rom_sha256: rs,
                model: md,
                boot_rom: boot_rom_of_text(br),
                profile: pf,
                fields: fs,
                trigger: tr,
                notes: nt,
            },
        ),
        _ => None,
    }
}

/// The trigger of a header read from a header line is the one whose
/// lower-case name the line's `trigger` member holds as text:
/// "instruction", "tcycle", "scanline", "frame" or "custom".
pub proof fn law_header_trigger_names(m: Map<Seq<char>, FieldValueView>)
    requires
        header_of(m) is Some,
    ensures
        m.contains_key("trigger"@),
        (header_of(m)->0.trigger == Trigger::Instruction) <==> m["trigger"@] == FieldValueView::Text(
            "instruction"@,
        ),
        (header_of(m)->0.trigger == Trigger::Tcycle) <==> m["trigger"@] == FieldValueView::Text("tcycle"@),
        (header_of(m)->0.trigger == Trigger::Scanline) <==> m["trigger"@] == FieldValueView::Text("scanline"@),
        (header_of(m)->0.trigger == Trigger::Frame) <==> m["trigger"@] == FieldValueView::Text("frame"@),
        (header_of(m)->0.trigger == Trigger::Custom) <==> m["trigger"@] == FieldValueView::Text("custom"@),
{
    reveal_strlit("instruction");
    reveal_strlit("tcycle");
    reveal_strlit("scanline");
    reveal_strlit("frame");
    reveal_strlit("custom");
    reveal_strlit("trigger");
    let t = text_field(m, "trigger"@)->0;
    let tr = header_of(m)->0.trigger;
    assert(trigger_field(m) == Some(tr));
    assert(m["trigger"@] == FieldValueView::Text(t));
    assert(trigger_of_text(t) == Some(tr));
    assert(FieldValueView::Text(t) == FieldValueView::Text("tcycle"@) <==> t == "tcycle"@);
    assert(FieldValueView::Text(t) == FieldValueView::Text("scanline"@) <==> t == "scanline"@);
    assert(FieldValueView::Text(t) == FieldValueView::Text("instruction"@) <==> t == "instruction"@);
    assert(FieldValueView::Text(t) == FieldValueView::Text("frame"@) <==> t == "frame"@);
    assert(FieldValueView::Text(t) == FieldValueView::Text("custom"@) <==> t == "custom"@);
    assert("instruction"@.len() != "tcycle"@.len());
    assert("frame"@.len() != "tcycle"@.len());
    assert("custom"@[0] != "tcycle"@[0]);
    assert("custom"@.len() != "scanline"@.len());
    assert("frame"@.len() != "scanline"@.len());
    assert("instruction"@.len() != "scanline"@.len());
}

fn get_text(e: &TraceEntry, k: &str) -> (r: Option<String>)
    ensures
        match r {
            Some(t) => text_field(e@, k@) == Some(t@),
            None => text_field(e@, k@) is None,
        },
{
    match e.get(k) {
        Some(FieldValue::Text(t)) => Some(t.clone()),
        _ => None,
    }
}

fn get_flag(e: &TraceEntry, k: &str) -> (r: Option<bool>)
    ensures
        r == flag_field(e@, k@),
{
    match e.get(k) {
        Some(FieldValue::Bool(b)) => Some(*b),
        _ => None,
    }
}

fn get_list(e: &TraceEntry, k: &str) -> (r: Option<Vec<String>>)
    ensures
        match r {
            Some(v) => list_field(e@, k@) == Some(string_texts(v@)),
            None => list_field(e@, k@) is None,
        },
{
    match e.get(k) {
        Some(FieldValue::Other(t)) => parse_json_strings(t.as_str()),
        _ => None,
    }
}

fn trigger_from_text(t: &str) -> (r: Option<Trigger>)
    ensures
        r == trigger_of_text(t@),
{
    proof {
        reveal_strlit("instruction");
        reveal_strlit("tcycle");
        reveal_strlit("scanline");
        reveal_strlit("frame");
        reveal_strlit("custom");
    }
    if str_eq(t, "instruction") {
        Some(Trigger::Instruction)
    } else if str_eq(t, "tcycle") {
        Some(Trigger::Tcycle)
    } else if str_eq(t, "scanline") {
        Some(Trigger::Scanline)
    } else if str_eq(t, "frame") {
        Some(Trigger::Frame)
    } else if str_eq(t, "custom") {
        Some(Trigger::Custom)
    } else {
        None
    }
}

/// The header a header line's members give.
fn header_from(e: &TraceEntry) -> (r: Option<TraceHeader>)
    ensures
        match r {
            Some(h) => header_of(e@) == Some(h@),
            None => header_of(e@) is None,
        },
{
    let h = get_flag(e, "_header");
    let fv = get_text(e, "format_version");
    let em = get_text(e, "emulator");
    let ev = get_text(e, "emulator_version");
    let rs = get_text(e, "rom_sha256");
    let md = get_text(e, "model");
    let br = get_text(e, "boot_rom");
    let pf = get_text(e, "profile");
    let fs = get_list(e, "fields");
    let tt = get_text(e, "trigger");
    let tr = match &tt {
        Some(t) => trigger_from_text(t.as_str()),
        None => None,
    };
    let nt = match e.get("notes") {
        None => Some(String::new()),
        Some(FieldValue::Text(t)) => Some(t.clone()),
        Some(_) => None,
    };
    proof {
        reveal_strlit("notes");
    }
    assert(nt matches Some(n) ==> notes_field(e@) == Some(n@));
    assert(nt is None ==> notes_field(e@) is None);
    match (h, fv, em, ev, rs, md, br, pf, fs, tr, nt) {
        (Some(h), Some(fv), Some(em), Some(ev), Some(rs), Some(md), Some(br), Some(pf), Some(fs), Some(tr), Some(nt)) => {
            let boot_rom = BootRom::from_text(br.as_str());
            let r = TraceHeader {
                _header: h,
                format_version: fv,
                emulator: em,
                emulator_version: ev,
                rom_sha256: rs,
                model: md,
                boot_rom,
                profile: pf,
                fields: fs,
                trigger: tr,
                notes: nt,
            };
            Some(r)
        },
        _ => None,
    }
}

// ---------------------------------------------------------------------------
// Loading
// ---------------------------------------------------------------------------

/// Whether data starts with the gzip magic bytes.
pub open spec fn is_gzip(d: Seq<u8>) -> bool {
    d.len() >= 2 && d[0] == 0x1f && d[1] == 0x8b
}

/// The trace's text: the data (decompressed when it is gzip) as UTF-8.
pub open spec fn trace_text(d: Seq<u8>) -> Option<Seq<char>> {
    let plain = if is_gzip(d) {
        gunzip_of(d)
    } else {
        Some(d)
    };
    match plain {
        Some(b) => if valid_utf8(b) {
            Some(decode_utf8(b))
        } else {
            None
        },
        None => None,
    }
}

/// The entries of the lines from `pos` on: a blank line (once trimmed) or
/// a line holding JSON that is not an object is passed over, and the first
/// line that is not JSON stops the reading with its message.
pub open spec fn entries_from(t: Seq<char>, pos: int) -> Result<Seq<Map<Seq<char>, FieldValueView>>, Seq<char>>
    decreases t.len() - pos,
{
    if pos < 0 || pos >= t.len() {
        Ok(Seq::empty())
    } else {
        proof {
            lemma_line_end_bounds(t, pos);
        }
        let l = trim(t.subrange(pos, line_end(t, pos)));
        let rest = entries_from(t, line_end(t, pos));
        if l.len() == 0 {
            rest
        } else {
            match json_line_of(l) {
                JsonLineView::Invalid(m) => Err(m),
                JsonLineView::NotObject => rest,
                JsonLineView::Object(ps) => match rest {
                    Ok(es) => Ok(seq![pairs_to_map(ps)] + es),
                    Err(m) => Err(m),
                },
            }
        }
    }
}

/// The header invariants over a header's value (as `TraceHeader::validate`).
pub open spec fn header_validation(h: HeaderView) -> Result<(), Seq<char>> {
    if !h.header_flag {
        Err("_header must be true"@)
    } else if h.fields.len() == 0 {
        Err("fields must not be empty"@)
    } else if !h.fields.contains("cy"@) {
        Err("fields must contain 'cy'"@)
    } else {
        Ok(())
    }
}

/// Why raw bytes do not load.
pub enum LoadFailure {
    /// Not gzip that decompresses, or not UTF-8.
    Unreadable,
    /// No text at all.
    Empty,
    /// A line that is not the JSON it should be.
    Json(Seq<char>),
    /// A header that breaks one of its invariants.
    Header(Seq<char>),
}

/// The message for a header line that is not a JSON object.
pub open spec fn not_object_text() -> Seq<char> {
    "header line is not a JSON object"@
}

/// The message for a header line that lacks a member or has one of the
/// wrong kind.
pub open spec fn bad_header_text() -> Seq<char> {
    "invalid trace header"@
}

/// What raw trace bytes load to: the header and the entries, or why not.
pub open spec fn load_of(d: Seq<u8>) -> Result<(HeaderView, Seq<Map<Seq<char>, FieldValueView>>), LoadFailure> {
    match trace_text(d) {
        None => Err(LoadFailure::Unreadable),
        Some(t) => if t.len() == 0 {
            Err(LoadFailure::Empty)
        } else {
            let he = line_end(t, 0);
            match json_line_of(t.subrange(0, he)) {
                JsonLineView::Invalid(m) => Err(LoadFailure::Json(m)),
                JsonLineView::NotObject => Err(LoadFailure::Json(not_object_text())),
                JsonLineView::Object(ps) => match header_of(pairs_to_map(ps)) {
                    None => Err(LoadFailure::Json(bad_header_text())),
                    Some(h) => match header_validation(h) {
                        Err(m) => Err(LoadFailure::Header(m)),
                        Ok(()) => match entries_from(t, he) {
                            Err(m) => Err(LoadFailure::Json(m)),
                            Ok(es) => Ok((h, es)),
                        },
                    },
                },
            }
        },
    }
}

/// Whether an error is the one a load failure is reported as.
pub open spec fn reported_as(e: Error, f: LoadFailure) -> bool {
    match f {
        LoadFailure::Unreadable => e matches Error::Diff(m) && m@ == "unreadable trace data"@,
        LoadFailure::Empty => e matches Error::Diff(m) && m@ == "empty trace file"@,
        LoadFailure::Json(x) => e matches Error::Json(m) && m@ == x,
        LoadFailure::Header(x) => e matches Error::InvalidHeader(m) && m@ == x,
    }
}

proof fn lemma_validation_view(h: TraceHeader)
    ensures
        validation_of(h) == header_validation(h@),
{
    let n = "cy"@;
    if names_field(h.fields@, n) {
        let i = choose|i: int| 0 <= i < h.fields@.len() && #[trigger] h.fields@[i]@ == n;
        assert(h@.fields[i] == n);
    }
    if h@.fields.contains(n) {
        let i = choose|i: int| 0 <= i < h@.fields.len() && h@.fields[i] == n;
        assert(h.fields@[i]@ == n);
    }
}

/// Load a trace store from a trace file's bytes (JSON lines, or gzip of
/// them): each entry's fields go into the header's columns as flags or
/// numbers, anything else as 0.
pub fn load_column_store_from_bytes(data: &[u8]) -> (r: Result<ColumnStore, Error>)
    ensures
        match r {
            Ok(s) => load_of(data@) matches Ok((h, es)) && s.wf() && s.table().full() && s.table() == parsed_table(
                h,
                es,
            ),
            Err(e) => load_of(data@) matches Err(f) && reported_as(e, f),
        },
{
    proof {
        reveal_strlit("unreadable trace data");
        reveal_strlit("empty trace file");
        reveal_strlit("header line is not a JSON object");
        reveal_strlit("invalid trace header");
    }
    let gz = data.len() >= 2 && data[0] == 0x1f && data[1] == 0x8b;
    let plain: Vec<u8> = if gz {
        match gunzip(data) {
            Some(v) => v,
            None => return Err(Error::Diff(string_of(&chars_of("unreadable trace data")))),
        }
    } else {
        slice_to_vec(data)
    };
    let s = match text_from_utf8(plain.as_slice()) {
        Some(s) => s,
        None => return Err(Error::Diff(string_of(&chars_of("unreadable trace data")))),
    };
    proof {
        encode_utf8_decode_utf8(s@);
        encode_utf8_valid_utf8(s@);
    }
    let text = chars_of(s.as_str());
    let ghost t = text@;
    assert(trace_text(data@) == Some(t));
    if text.len() == 0 {
        return Err(Error::Diff(string_of(&chars_of("empty trace file"))));
    }
    proof {
        lemma_line_end_bounds(t, 0);
    }
    let (line, he) = read_line(&text, 0);
    let header = match parse_json_line(string_of(&line).as_str()) {
        JsonLine::Invalid(m) => return Err(Error::Json(m)),
        JsonLine::NotObject => return Err(Error::Json(string_of(&chars_of("header line is not a JSON object")))),
        JsonLine::Object(ps) => {
            let e = entry_of_pairs(&ps);
            match header_from(&e) {
                Some(h) => h,
                None => return Err(Error::Json(string_of(&chars_of("invalid trace header")))),
            }
        },
    };
    proof {
        lemma_validation_view(header);
    }
    if let Err(e) = header.validate() {
        return Err(e);
    }
    assert(load_of(data@) == match entries_from(t, he as int) {
        Err(m) => Err(LoadFailure::Json(m)),
        Ok(es) => Ok((header@, es)),
    });
    let mut entries: Vec<TraceEntry> = Vec::new();
    let mut pos = he;
    while pos < text.len()
        invariant
            he <= pos <= text@.len(),
            0 < he,
            t == text@,
            entries@.len() + he <= pos,
            load_of(data@) == match entries_from(t, he as int) {
                Err(m) => Err(LoadFailure::Json(m)),
                Ok(es) => Ok((header@, es)),
            },
            entries_from(t, he as int) == match entries_from(t, pos as int) {
                Ok(rest) => Ok(entries_view(entries@) + rest),
                Err(m) => Err::<Seq<Map<Seq<char>, FieldValueView>>, Seq<char>>(m),
            },
        decreases text@.len() - pos,
    {
        proof {
            lemma_line_end_bounds(t, pos as int);
        }
        let (line, next) = read_line(&text, pos);
        let tl = trim_chars(&line);
        assert(tl@ == trim(t.subrange(pos as int, line_end(t, pos as int))));
        if tl.len() > 0 {
            match parse_json_line(string_of(&tl).as_str()) {
                JsonLine::Invalid(m) => {
                    assert(entries_from(t, pos as int) == Err::<Seq<Map<Seq<char>, FieldValueView>>, Seq<char>>(m@));
                    return Err(Error::Json(m));
                },
                JsonLine::NotObject => {},
                JsonLine::Object(ps) => {
                    let ghost before = entries@;
                    let e = entry_of_pairs(&ps);
                    entries.push(e);
                    proof {
                        assert(entries_view(entries@) =~= entries_view(before) + seq![e@]);
                        assert forall|rest: Seq<Map<Seq<char>, FieldValueView>>|
                            #![trigger entries_view(before) + (seq![e@] + rest)]
                            entries_view(before) + (seq![e@] + rest) == entries_view(entries@) + rest by {
                            assert(entries_view(before) + (seq![e@] + rest) =~= entries_view(entries@) + rest);
                        }
                    }
                },
            }
        }
        pos = next;
    }
    assert(entries_from(t, pos as int) == Ok::<Seq<Map<Seq<char>, FieldValueView>>, Seq<char>>(Seq::empty()));
    assert(entries_view(entries@) + Seq::<Map<Seq<char>, FieldValueView>>::empty() =~= entries_view(entries@));
    let store = ColumnStore::from_parsed_entries(header, &entries);
    Ok(store)
}

} // verus!
