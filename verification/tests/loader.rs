use std::io::Write;

use flate2::write::GzEncoder;
use flate2::Compression;
use gbtrace::error::Error;
use gbtrace::header::Trigger;
use gbtrace::loader::load_column_store_from_bytes;

const TRACE: &str = "{\"_header\":true,\"format_version\":\"0.1.0\",\"emulator\":\"test\",\"emulator_version\":\"1.0\",\"rom_sha256\":\"0000\",\"model\":\"DMG\",\"boot_rom\":\"skip\",\"profile\":\"cpu\",\"fields\":[\"cy\",\"pc\",\"ime\",\"a\"],\"trigger\":\"instruction\"}\n{\"cy\":400,\"pc\":336,\"ime\":true,\"a\":\"0x0F\"}\n\n[1,2]\n{\"cy\":404,\"pc\":337,\"ime\":false,\"a\":3}\n";

#[test]
fn bytes_load_into_a_store() {
    let s = load_column_store_from_bytes(TRACE.as_bytes()).unwrap();
    assert_eq!(s.header().emulator, "test");
    assert_eq!(s.header().trigger, Trigger::Instruction);
    // the blank line and the array line hold no entry
    assert_eq!(s.entry_count(), 2);
    assert_eq!(s.cy(0), 400);
    assert_eq!(s.get_numeric_named("pc", 1), Some(337));
    assert_eq!(s.get_bool_named("ime", 0), Some(true));
    // a text value is stored as 0
    assert_eq!(s.get_numeric_named("a", 0), Some(0));
    assert_eq!(s.get_numeric_named("a", 1), Some(3));
}

#[test]
fn gzip_is_recognised_by_its_magic_bytes() {
    let mut enc = GzEncoder::new(Vec::new(), Compression::default());
    enc.write_all(TRACE.as_bytes()).unwrap();
    let gz = enc.finish().unwrap();
    let s = load_column_store_from_bytes(&gz).unwrap();
    assert_eq!(s.entry_count(), 2);
    assert_eq!(s.cy(1), 404);
    // gzip magic followed by garbage
    assert!(matches!(load_column_store_from_bytes(&[0x1f, 0x8b, 1, 2, 3]), Err(Error::Diff(m)) if m == "unreadable trace data"));
}

#[test]
fn bytes_that_do_not_load() {
    assert!(matches!(load_column_store_from_bytes(b""), Err(Error::Diff(m)) if m == "empty trace file"));
    assert!(matches!(load_column_store_from_bytes(&[0xff, 0xfe]), Err(Error::Diff(_))));
    assert!(matches!(load_column_store_from_bytes(b"not json\n"), Err(Error::Json(_))));
    assert!(matches!(load_column_store_from_bytes(b"[1]\n"), Err(Error::Json(m)) if m == "header line is not a JSON object"));
    assert!(matches!(load_column_store_from_bytes(b"{\"_header\":true}\n"), Err(Error::Json(m)) if m == "invalid trace header"));
    let no_cy = TRACE.replacen("[\"cy\",", "[", 1);
    assert!(matches!(load_column_store_from_bytes(no_cy.as_bytes()), Err(Error::InvalidHeader(m)) if m == "fields must contain 'cy'"));
    let bad_line = format!("{}{{oops\n", TRACE);
    assert!(matches!(load_column_store_from_bytes(bad_line.as_bytes()), Err(Error::Json(_))));
}
