use gbtrace::entry::FieldValue;
use gbtrace::field_writer::GbtraceWriter;
use gbtrace::header::{BootRom, TraceHeader, Trigger};

fn header(fields: &[&str]) -> TraceHeader {
    TraceHeader {
        _header: true,
        format_version: "0.1.0".into(),
        emulator: "test".into(),
        emulator_version: "1.0".into(),
        rom_sha256: "0000".into(),
        model: "DMG".into(),
        boot_rom: BootRom::Skip,
        profile: "cpu".into(),
        fields: fields.iter().map(|s| s.to_string()).collect(),
        trigger: Trigger::Instruction,
        notes: String::new(),
    }
}

#[test]
fn columns_are_found_by_name() {
    let w = GbtraceWriter::new(&header(&["cy", "pc", "a", "ime", "pc"]));
    assert_eq!(w.num_fields(), 5);
    assert_eq!(w.find_field("pc"), 1);
    assert_eq!(w.find_field("a"), 2);
    assert_eq!(w.find_field("zz"), -1);
}

#[test]
fn column_types_are_numbered() {
    let w = GbtraceWriter::new(&header(&["cy", "pc", "a", "ime", "mystery"]));
    // the cycle count is a u64
    assert_eq!(w.field_type(0), 2);
    assert_eq!(w.field_type(1), 1);
    assert_eq!(w.field_type(2), 0);
    assert_eq!(w.field_type(3), 3);
    // an unknown field is a u8
    assert_eq!(w.field_type(4), 0);
    assert_eq!(w.field_type(5), -1);
}

#[test]
fn entries_hold_what_was_set_and_frames_mark_positions() {
    let mut w = GbtraceWriter::new(&header(&["cy", "pc", "a", "ime", "name"]));
    w.mark_frame();
    w.set_u64(0, 4);
    w.set_u16(1, 0x0100);
    w.set_u8(2, 0x01);
    w.set_u8(2, 0x02);
    w.set_bool(3, true);
    w.set_str(4, "boot");
    w.finish_entry();
    w.set_u64(0, 8);
    w.set_null(2);
    w.finish_entry();
    w.mark_frame();
    let (entries, frames) = w.finish();
    assert_eq!(entries.len(), 2);
    assert_eq!(frames, vec![0, 2]);
    assert_eq!(entries[0].cy(), Some(4));
    assert_eq!(entries[0].get_u16("pc"), Some(0x0100));
    assert_eq!(entries[0].get_u8("a"), Some(0x02));
    assert!(matches!(entries[0].get("ime"), Some(FieldValue::Bool(true))));
    assert!(matches!(entries[0].get("name"), Some(FieldValue::Text(s)) if s == "boot"));
    // nothing carries over from one entry to the next
    assert_eq!(entries[1].cy(), Some(8));
    assert!(entries[1].get("pc").is_none());
    assert!(matches!(entries[1].get("a"), Some(FieldValue::Null)));
}
