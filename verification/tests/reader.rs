use gbtrace::error::Error;
use gbtrace::header::{BootRom, TraceHeader, Trigger};
use gbtrace::reader::{header_line, read_line, AnyTraceReader, TraceReader};

fn chars(s: &str) -> Vec<char> {
    s.chars().collect()
}

fn text(v: &[char]) -> String {
    v.iter().collect()
}

fn header(fields: &[&str]) -> TraceHeader {
    TraceHeader {
        _header: true,
        format_version: "0.1.0".into(),
        emulator: "test-emu".into(),
        emulator_version: "1.0".into(),
        rom_sha256: "0000".into(),
        model: "DMG".into(),
        boot_rom: BootRom::Skip,
        profile: "cpu".into(),
        fields: fields.iter().map(|s| s.to_string()).collect(),
        trigger: Trigger::Instruction,
        notes: String::new(),
    }
}

#[test]
fn lines_keep_their_newline() {
    let t = chars("ab\ncd");
    let (l, next) = read_line(&t, 0);
    assert_eq!((text(&l), next), ("ab\n".to_string(), 3));
    let (l, next) = read_line(&t, 3);
    assert_eq!((text(&l), next), ("cd".to_string(), 5));
    let (l, next) = read_line(&t, 5);
    assert_eq!((text(&l), next), (String::new(), 5));
}

#[test]
fn header_line_and_entries() {
    let t = chars("{\"_header\":true}\n {\"cy\":0} \n{\"cy\":4}\n\n{\"cy\":8}\n");
    let (h, next) = header_line(&t).unwrap();
    assert_eq!(text(&h), "{\"_header\":true}\n");
    let mut r = TraceReader::new(header(&["cy", "pc"]), t, next).ok().unwrap();
    assert_eq!(r.header().emulator, "test-emu");
    assert_eq!(text(&r.next_line().unwrap()), "{\"cy\":0}");
    assert_eq!(text(&r.next_line().unwrap()), "{\"cy\":4}");
    // A blank line ends the trace.
    assert!(r.next_line().is_none());
    let any = AnyTraceReader::Jsonl(r);
    assert_eq!(any.header().fields.len(), 2);
}

#[test]
fn missing_and_invalid_headers() {
    assert!(matches!(header_line(&chars("")), Err(Error::MissingHeader)));
    assert!(header_line(&chars("\n")).is_ok());
    match TraceReader::new(header(&["pc"]), chars("x"), 0) {
        Err(Error::InvalidHeader(m)) => assert_eq!(m, "fields must contain 'cy'"),
        _ => panic!("expected an invalid header"),
    }
}
