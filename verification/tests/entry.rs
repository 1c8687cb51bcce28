use gbtrace::column_store::load_column_store;
use gbtrace::entry::{FieldValue, TraceEntry};
use gbtrace::header::{BootRom, TraceHeader, Trigger};
use gbtrace::query::{eval_condition, parse_cli_conditions, parse_condition, Condition, ConditionEvaluator};

fn entry(a: u8, f: u8, lcdc: u8) -> TraceEntry {
    let mut e = TraceEntry::new();
    e.set_cy(4);
    e.set("a", FieldValue::Number(a as u64));
    e.set("f", FieldValue::Number(f as u64));
    e.set("lcdc", FieldValue::Number(lcdc as u64));
    e
}

#[test]
fn entry_fields() {
    let mut e = TraceEntry::new();
    assert_eq!(e.cy(), None);
    e.set_cy(100);
    e.set_u16("pc", 0x0150);
    e.set_bool("ime", true);
    e.set_str("op", "0x3E");
    assert_eq!(e.cy(), Some(100));
    assert_eq!(e.get_u16("pc"), Some(0x0150));
    // 16-bit values are stored as hex text, which does not fit a byte
    assert!(matches!(e.get("pc"), Some(FieldValue::Text(s)) if s == "0x0150"));
    assert_eq!(e.get_u8("pc"), None);
    assert_eq!(e.get_u8("op"), Some(0x3E));
    assert_eq!(e.get_u8("ime"), None);
    assert!(matches!(e.get("ime"), Some(FieldValue::Bool(true))));
    // Setting a field again replaces its value.
    e.set_u16("pc", 0x0151);
    assert_eq!(e.get_u16("pc"), Some(0x0151));
    assert_eq!(e.pairs().len(), 4);
    // Legacy hex strings are read, with or without the prefix.
    e.set_str("sp", "FFFE");
    assert_eq!(e.get_u16("sp"), Some(0xFFFE));
    e.set_str("sp", "0xZZ");
    assert_eq!(e.get_u16("sp"), None);
}

#[test]
fn conditions_on_entries() {
    let prev = entry(0x10, 0x00, 0x00);
    let cur = entry(0x20, 0x80, 0x80);
    let c = |s: &str| parse_condition(s).unwrap();
    assert!(eval_condition(&c("a=20"), &cur, Some(&prev)));
    assert!(!eval_condition(&c("a=10"), &cur, Some(&prev)));
    assert!(eval_condition(&c("a changes"), &cur, Some(&prev)));
    assert!(eval_condition(&c("a changes"), &cur, None));
    assert!(!eval_condition(&c("a changes"), &cur, Some(&cur)));
    assert!(eval_condition(&c("a changes to 0x20"), &cur, Some(&prev)));
    assert!(eval_condition(&c("a changes from 0x10"), &cur, Some(&prev)));
    assert!(!eval_condition(&c("a changes from 0x10"), &cur, None));
    assert!(eval_condition(&c("lcd on"), &cur, Some(&prev)));
    assert!(!eval_condition(&c("lcd on"), &cur, None));
    assert!(eval_condition(&c("flag z set"), &cur, None));
    assert!(eval_condition(&c("flag z becomes set"), &cur, Some(&prev)));
    assert!(eval_condition(&c("a & 0x30"), &cur, None));
    assert!(eval_condition(&c("a & 0xF0 = 0x20"), &cur, None));
    // Text values compare as text.
    let mut t = TraceEntry::new();
    t.set_str("mode", "hblank");
    assert!(eval_condition(&c("mode=hblank"), &t, None));
    let mut n = TraceEntry::new();
    n.set("x", FieldValue::OtherNumber("-1".into()));
    assert!(!eval_condition(&c("x=-1"), &n, None));
}

#[test]
fn evaluator_remembers_the_previous_entry() {
    let mut ev = ConditionEvaluator::new(parse_condition("a changes to 0x20").unwrap());
    assert!(!ev.evaluate(&entry(0x10, 0, 0)));
    assert!(ev.evaluate(&entry(0x20, 0, 0)));
    assert!(!ev.evaluate(&entry(0x20, 0, 0)));
    ev.reset();
    assert!(ev.evaluate(&entry(0x20, 0, 0)));
}

#[test]
fn several_conditions_combine() {
    let one = parse_cli_conditions(&vec!["a=20".to_string()]).unwrap();
    assert!(matches!(one, Condition::FieldEquals { .. }));
    let two = parse_cli_conditions(&vec!["a=20".to_string(), "flag z set".to_string()]).unwrap();
    match &two {
        Condition::All(cs) => assert_eq!(cs.len(), 2),
        _ => panic!("expected all"),
    }
    assert!(eval_condition(&two, &entry(0x20, 0x80, 0), None));
    assert!(!eval_condition(&two, &entry(0x20, 0x00, 0), None));
    assert_eq!(parse_cli_conditions(&vec!["a=20".to_string(), "bogus".to_string()]).unwrap_err(), "cannot parse condition: 'bogus'");
    assert!(matches!(parse_cli_conditions(&vec![]).unwrap(), Condition::All(_)));
}

#[test]
fn column_store_from_entries() {
    let header = TraceHeader {
        _header: true,
        format_version: "0.1.0".into(),
        emulator: "test".into(),
        emulator_version: "1.0".into(),
        rom_sha256: "0000".into(),
        model: "DMG".into(),
        boot_rom: BootRom::Skip,
        profile: "cpu".into(),
        fields: vec!["cy".into(), "pc".into(), "ime".into(), "pix".into()],
        trigger: Trigger::Instruction,
        notes: String::new(),
    };
    let mut e0 = TraceEntry::new();
    e0.set_cy(4);
    e0.set("pc", FieldValue::Number(0x100));
    e0.set_bool("ime", true);
    e0.set_str("pix", "0123");
    let mut e1 = TraceEntry::new();
    e1.set_cy(8);
    e1.set("pc", FieldValue::OtherNumber("-1".into()));
    let s = load_column_store(header, &vec![e0, e1]);
    assert_eq!(s.entry_count(), 2);
    assert_eq!(s.get_numeric_named("pc", 0), Some(0x100));
    assert_eq!(s.get_numeric_named("pc", 1), Some(0));
    assert_eq!(s.get_bool_named("ime", 0), Some(true));
    assert_eq!(s.get_bool_named("ime", 1), Some(false));
    assert_eq!(s.column(3).get_str(0), "0123");
    assert_eq!(s.column(3).get_str(1), "");
}

#[test]
fn wide_bit_numbers_only_matter_where_an_entry_shifts() {
    let mut no_f = TraceEntry::new();
    no_f.set("a", FieldValue::Number(1));
    assert!(!eval_condition(&Condition::FlagSet(9), &no_f, None));
    assert!(!eval_condition(&Condition::FlagBecomesSet(9), &entry(0x10, 0x80, 0), None));
    let all = Condition::All(vec![Condition::FlagSet(7), Condition::FlagClear(9)]);
    assert!(!eval_condition(&all, &entry(0x10, 0x00, 0), None));
    // The evaluator answers for each entry from it and the one before.
    let mut ev = ConditionEvaluator::new(Condition::FlagBecomesSet(7));
    assert!(!ev.evaluate(&entry(0, 0x00, 0)));
    assert!(ev.evaluate(&entry(0, 0x80, 0)));
    assert!(!ev.evaluate(&entry(0, 0x80, 0)));
    assert!(!ev.evaluate(&entry(0, 0x00, 0)));
    assert!(ev.evaluate(&entry(0, 0x80, 0)));
}
