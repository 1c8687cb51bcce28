use gbtrace::adapter::{
    dap_frame, dap_message, DapFrame,
    emulicious_version_of, find, hex_encode, is_verdict, parse_hex_result, parse_hex_u8, parse_stop_when, rgb555_match, rom_sha256,
    shades_rgb555, system_by_extension, system_by_id, verdict_deadline_secs, verdict_entry, words_rgb555, VerdictState,
};

#[test]
fn find_locates_the_first_occurrence() {
    assert_eq!(find(b"abc\r\n\r\nxyz\r\n\r\n", b"\r\n\r\n"), Some(3));
    assert_eq!(find(b"abc", b"abcd"), None);
    assert_eq!(find(b"aaab", b"ab"), Some(2));
    assert_eq!(find(b"", b"a"), None);
}

#[test]
fn printed_hex_values() {
    assert_eq!(parse_hex_result("pc = $4181"), Some(0x4181));
    assert_eq!(parse_hex_result("sp = $DFF0 (_RAM_DFF0_)"), Some(0xDFF0));
    assert_eq!(parse_hex_result("@$e000 = $A5"), Some(0xA5));
    assert_eq!(parse_hex_result("no dollar"), None);
    assert_eq!(parse_hex_result("x = $12345"), None);
    assert_eq!(parse_hex_result("beef"), Some(0xBEEF));
}

#[test]
fn hex_encoding_is_lower_case() {
    assert_eq!(hex_encode(&[0x00, 0xAB, 0x0F, 0xFF]), "00ab0fff");
    assert_eq!(hex_encode(&[]), "");
}

#[test]
fn hex_bytes_and_their_errors() {
    assert_eq!(parse_hex_u8("40"), Ok(0x40));
    assert_eq!(parse_hex_u8("0a"), Ok(0x0A));
    assert_eq!(parse_hex_u8(""), Err("invalid hex byte: cannot parse integer from empty string".to_string()));
    assert_eq!(parse_hex_u8("4g"), Err("invalid hex byte: invalid digit found in string".to_string()));
    assert_eq!(parse_hex_u8("100"), Err("invalid hex byte: number too large to fit in target type".to_string()));
    assert_eq!(parse_hex_u8("+"), Err("invalid hex byte: invalid digit found in string".to_string()));
}

#[test]
fn stop_conditions() {
    let w = parse_stop_when("FF82=01").unwrap();
    assert_eq!((w.addr, w.value, w.negate), (0xFF82, 0x01, false));
    let w = parse_stop_when("A000!=80").unwrap();
    assert_eq!((w.addr, w.value, w.negate), (0xA000, 0x80, true));
    assert_eq!(parse_stop_when("A000").err().unwrap(), "expected ADDR=VAL or ADDR!=VAL (e.g. A000!=80)");
    assert_eq!(parse_stop_when("XYZ=1").err().unwrap(), "invalid address: invalid digit found in string");
    assert_eq!(parse_stop_when("A000=100").err().unwrap(), "invalid value: number too large to fit in target type");
}

#[test]
fn screenshots_match_within_one() {
    assert!(rgb555_match(&[10, 20, 31], &[11, 19, 31]));
    assert!(!rgb555_match(&[10, 20, 31], &[12, 20, 31]));
    assert!(!rgb555_match(&[10], &[10, 10]));
}

#[test]
fn screenshots_in_reference_form() {
    assert_eq!(shades_rgb555(&[0, 1, 2, 3]), vec![31, 31, 31, 21, 21, 21, 10, 10, 10, 0, 0, 0]);
    // 0x7FFF is white; 0b11111_00000_00001 has red 1, green 0, blue 31.
    assert_eq!(words_rgb555(&[0x7FFF, 0x7C01]), vec![31, 31, 31, 1, 0, 31]);
}

#[test]
fn emulicious_systems_and_verdicts() {
    assert_eq!(system_by_extension("mx1").unwrap().id, "msx1");
    assert_eq!(system_by_id("sg1000").unwrap().result_addr, 0xC000);
    assert!(system_by_id("nes").is_none() && system_by_extension("rom").is_none());
    assert!(is_verdict(0xA5) && is_verdict(0x5A) && !is_verdict(0));
    assert_eq!((verdict_deadline_secs(30), verdict_deadline_secs(600), verdict_deadline_secs(-90)), (10, 20, 10));
    assert_eq!(emulicious_version_of("\n====\n  2024-01-02 \nrest"), "2024-01-02");
    assert_eq!(emulicious_version_of("==\n\n"), "unknown");
    let s = VerdictState { pc: 0x4181, sp: 0xDFF0, af: 0x12F0, bc: 0x3456, de: 0, hl: 0xABCD, ix: 1, iy: 2, va: 0x3800, scanline: 192 };
    let e = verdict_entry(&s, [0xA5, 1, 2, 3]);
    assert_eq!((e.get_u16("pc"), e.get_u8("a"), e.get_u8("f"), e.get_u8("l")), (Some(0x4181), Some(0x12), Some(0xF0), Some(0xCD)));
    assert_eq!((e.get_u16("addr"), e.get_u16("line"), e.get_u8("result"), e.get_u8("expected")), (Some(0x3800), Some(192), Some(0xA5), Some(3)));
}

#[test]
fn rom_hashes_are_lower_case_sha256() {
    assert_eq!(
        rom_sha256(b"abc"),
        "ba7816bf8f01cfea414140de5dae2223b00361a396177a9cb410ff61f20015ad"
    );
    assert_eq!(
        rom_sha256(b""),
        "e3b0c44298fc1c149afbf4c8996fb92427ae41e4649b934ca495991b7852b855"
    );
}

#[test]
fn debug_adapter_messages_are_framed_by_their_length() {
    let msg = b"Content-Length: 2\r\n\r\n{}rest";
    assert_eq!(dap_frame(msg), DapFrame::Message { start: 21, len: 2 });
    // any letter case, surrounding blanks, other header lines first
    let msg = b"X-Other: 1\r\nCONTENT-length:  +3 \r\n\r\nabc";
    assert_eq!(dap_frame(msg), DapFrame::Message { start: 36, len: 3 });
    // the body has not all arrived
    assert_eq!(dap_frame(b"Content-Length: 10\r\n\r\n{}"), DapFrame::Incomplete);
    // the header has not all arrived
    assert_eq!(dap_frame(b"Content-Length: 2\r\n"), DapFrame::Incomplete);
    assert_eq!(dap_frame(b""), DapFrame::Incomplete);
    // no length, or one that is not a number
    assert_eq!(dap_frame(b"X-Other: 1\r\n\r\n{}"), DapFrame::Malformed);
    assert_eq!(dap_frame(b"Content-Length: two\r\n\r\n{}"), DapFrame::Malformed);
    // the first length line decides
    assert_eq!(dap_frame(b"content-length: x\ncontent-length: 1\r\n\r\n{"), DapFrame::Malformed);
}

#[test]
fn framed_messages_read_back() {
    let msg = dap_message(b"{\"seq\":1}");
    assert_eq!(msg, b"Content-Length: 9\r\n\r\n{\"seq\":1}".to_vec());
    let mut stream = msg.clone();
    stream.extend_from_slice(b"Content-Length: 2");
    assert_eq!(dap_frame(&stream), DapFrame::Message { start: 21, len: 9 });
    assert_eq!(&stream[21..30], b"{\"seq\":1}");
    let long = vec![b'x'; 1234];
    let msg = dap_message(&long);
    assert_eq!(dap_frame(&msg), DapFrame::Message { start: 24, len: 1234 });
    assert_eq!(dap_frame(&dap_message(b"")), DapFrame::Message { start: 21, len: 0 });
}
