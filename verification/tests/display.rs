use gbtrace::column_store::ColumnStore;
use gbtrace::diff::AlignmentStrategy;
use gbtrace::display::{
    context_rows, display_val, parse_frame_list, reference_cut, reference_pixels, split_fields, store_entry_at,
    store_entry_text,
};
use gbtrace::entry::{FieldValue, TraceEntry};
use gbtrace::framebuffer::{Frame, LCD_HEIGHT, LCD_WIDTH};
use gbtrace::header::{BootRom, TraceHeader, Trigger};

fn header(fields: &[&str]) -> TraceHeader {
    TraceHeader {
        _header: true,
        format_version: "0.1.0".into(),
        emulator: "test".into(),
        emulator_version: "1.0".into(),
        rom_sha256: "0000".into(),
        model: "DMG".into(),
        boot_rom: BootRom::Skip,
        profile: "cpu".into(),
        fields: fields.iter().map(|s| s.to_string()).collect(),
        trigger: Trigger::Instruction,
        notes: String::new(),
    }
}

#[test]
fn values_as_shown() {
    assert_eq!(display_val(&FieldValue::Number(0x0f)), "0f");
    assert_eq!(display_val(&FieldValue::Number(0x100)), "0100");
    assert_eq!(display_val(&FieldValue::Number(0x12345)), "12345");
    assert_eq!(display_val(&FieldValue::Text("0xAB".into())), "ab");
    assert_eq!(display_val(&FieldValue::Text("0XCD".into())), "cd");
    assert_eq!(display_val(&FieldValue::Text("Hi".into())), "Hi");
    assert_eq!(display_val(&FieldValue::Bool(true)), "true");
    assert_eq!(display_val(&FieldValue::Null), "null");
    assert_eq!(display_val(&FieldValue::OtherNumber("-1".into())), "-1");
}

#[test]
fn lists() {
    assert_eq!(split_fields("pc,a,,f"), vec!["pc", "a", "", "f"]);
    assert_eq!(split_fields(""), vec![""]);
    assert_eq!(parse_frame_list(" 1, 3,x,+4,,-2"), vec![1, 3, 4]);
    assert_eq!(AlignmentStrategy::from_name("sequence"), AlignmentStrategy::Sequence);
    assert_eq!(AlignmentStrategy::from_name("cycle"), AlignmentStrategy::Cycle);
    assert_eq!(AlignmentStrategy::from_name("other"), AlignmentStrategy::Auto);
    assert_eq!(context_rows(5, 2, 10), (3, 8));
    assert_eq!(context_rows(1, 3, 3), (0, 3));
}

#[test]
fn store_rows() {
    let mut s = ColumnStore::new(header(&["cy", "pc", "ime", "pix"]));
    // `cy` is not a catalogue field, so its column holds bytes.
    s.push_u64(0, 300);
    s.push_u64(1, 0x150);
    s.push_bool(2, true);
    s.push_str(3, "");
    s.finish_row();
    assert_eq!(store_entry_text(&s, 0), " cy=12c pc=150 ime=true");
    let e = store_entry_at(&s, 0);
    assert_eq!(e.get_u8("cy"), Some(0x2c));
    assert_eq!(e.get_u16("pc"), Some(0x150));
    assert!(matches!(e.get("ime"), Some(FieldValue::Bool(true))));
    assert!(e.get("pix").is_none());
    assert!(s.is_complete());
    let t = s.to_entry(0);
    assert!(matches!(t.get("pix"), Some(FieldValue::Text(x)) if x.is_empty()));
}

#[test]
fn stores_from_entries() {
    let mut e = TraceEntry::new();
    e.set_cy(7);
    e.set("a", FieldValue::Number(3));
    e.set_bool("ime", true);
    let s = ColumnStore::from_entries(header(&["cy", "a", "ime"]), &vec![e]);
    assert_eq!(s.entry_count(), 1);
    assert_eq!(s.get_numeric_named("cy", 0), Some(7));
    assert_eq!(s.get_numeric_named("a", 0), Some(3));
    // A flag is not a number: it is stored as 0.
    assert_eq!(s.get_numeric_named("ime", 0), Some(0));
}

#[test]
fn reference_frames() {
    assert!(reference_pixels(b"0123").is_none());
    let mut bytes = vec![b'0'; LCD_WIDTH * LCD_HEIGHT];
    bytes[1] = b'3';
    bytes[2] = b'9';
    bytes[3] = b' ';
    let r = reference_pixels(&bytes).unwrap();
    assert_eq!(&r[0..4], &[0, 3, 3, 3]);
    let frame = |px: &Vec<u8>, end: usize| Frame { pixels: px.clone(), index: 0, start_entry: 0, end_entry: end };
    let other = vec![1u8; LCD_WIDTH * LCD_HEIGHT];
    let frames = vec![frame(&other, 10), frame(&r, 20), frame(&r, 30)];
    assert_eq!(reference_cut(&frames, &r, 100), (21, Some(1)));
    assert_eq!(reference_cut(&frames, &r, 20), (20, Some(1)));
    assert_eq!(reference_cut(&vec![frame(&other, 10)], &r, 100), (100, None));
}
