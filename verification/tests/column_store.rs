use gbtrace::column_store::{load_column_store, ColumnStore};
use gbtrace::entry::{FieldValue, TraceEntry};
use gbtrace::header::{BootRom, TraceHeader, Trigger};
use gbtrace::query::{parse_condition, parse_number, Condition};

const FIELDS: [&str; 9] = ["cy", "pc", "a", "f", "ly", "stat", "lcdc", "tima", "if_"];

fn header(fields: &[&str], trigger: Trigger) -> TraceHeader {
    TraceHeader {
        _header: true,
        format_version: "0.1.0".into(),
        emulator: "test".into(),
        emulator_version: "1.0".into(),
        rom_sha256: "0000".into(),
        model: "DMG".into(),
        boot_rom: BootRom::Skip,
        profile: "cpu".into(),
        fields: fields.iter().map(|s| s.to_string()).collect(),
        trigger,
        notes: String::new(),
    }
}

fn store_of(fields: &[&str], rows: &[Vec<u64>], trigger: Trigger) -> ColumnStore {
    let mut s = ColumnStore::new(header(fields, trigger));
    for row in rows {
        for (c, v) in row.iter().enumerate() {
            s.push_u64(c, *v);
        }
        s.finish_row();
    }
    s
}

fn sample() -> ColumnStore {
    let rows = vec![
        vec![0, 0x100, 0x00, 0x80, 150, 0x01, 0x00, 0xFE, 0x00],
        vec![4, 0x101, 0x10, 0x00, 153, 0x02, 0x80, 0xFF, 0x01],
        vec![8, 0x101, 0x10, 0x10, 0, 0x03, 0x80, 0x00, 0x01],
        vec![12, 0x150, 0x20, 0x90, 10, 0x00, 0x00, 0x01, 0x04],
        vec![16, 0x151, 0x20, 0x80, 144, 0x01, 0x00, 0x02, 0x05],
        vec![20, 0x152, 0x21, 0x80, 2, 0x02, 0x80, 0x03, 0x05],
    ];
    store_of(&FIELDS, &rows, Trigger::Instruction)
}

fn err_msg(r: Result<ColumnStore, gbtrace::error::Error>) -> String {
    match r {
        Err(e) => e.message(),
        Ok(_) => panic!("expected an error"),
    }
}

fn q(s: &ColumnStore, cond: &str) -> Vec<u32> {
    s.query(cond).unwrap()
}

#[test]
fn named_reads() {
    let s = sample();
    assert_eq!(s.entry_count(), 6);
    assert_eq!(s.field_col("pc"), Some(1));
    assert_eq!(s.field_col("nope"), None);
    assert_eq!(s.get_numeric_named("pc", 3), Some(0x150));
    assert_eq!(s.get_u8_named("pc", 3), Some(0x50));
    assert_eq!(s.get_u16_named("pc", 3), Some(0x150));
    assert_eq!(s.get_bool_named("a", 0), Some(false));
    assert_eq!(s.get_bool_named("a", 1), Some(true));
    assert_eq!(s.cy(2), 8);
    let row = s.row(4);
    assert_eq!(row.get_u8("ly"), Some(144));
    assert_eq!(row.cy(), 16);
    assert_eq!(row.get_numeric("missing"), None);
}

#[test]
fn values_take_the_type_of_their_field() {
    // `a` is an 8-bit field: a wider value is truncated when pushed.
    let s = store_of(&["pc", "a"], &[vec![0x12345, 0x1FF]], Trigger::Instruction);
    assert_eq!(s.get_numeric_named("pc", 0), Some(0x2345));
    assert_eq!(s.get_numeric_named("a", 0), Some(0xFF));
}

#[test]
fn queries_on_field_values() {
    let s = sample();
    assert_eq!(q(&s, "a=0x10"), vec![1, 2]);
    assert_eq!(q(&s, "a=10"), vec![1, 2]);
    assert_eq!(q(&s, "a changes"), vec![1, 3, 5]);
    assert_eq!(q(&s, "a changes to 20"), vec![3]);
    assert_eq!(q(&s, "a changes from 0x10"), vec![3]);
    assert_eq!(q(&s, "stat & 0x03 = 1"), vec![0, 4]);
    assert_eq!(q(&s, "if_ & 4"), vec![3, 4, 5]);
    assert_eq!(q(&s, "missing=1"), Vec::<u32>::new());
}

#[test]
fn queries_on_hardware_events() {
    let s = sample();
    assert_eq!(q(&s, "ppu enters mode 1"), vec![4]);
    assert_eq!(q(&s, "lcd on"), vec![1, 5]);
    assert_eq!(q(&s, "lcd off"), vec![3]);
    assert_eq!(q(&s, "timer overflow"), vec![2]);
    assert_eq!(q(&s, "interrupt 2"), vec![3]);
    assert_eq!(q(&s, "flag z set"), vec![0, 3, 4, 5]);
    assert_eq!(q(&s, "flag z clear"), vec![1, 2]);
    assert_eq!(q(&s, "flag c becomes set"), vec![2]);
    assert_eq!(q(&s, "flag z becomes clear"), vec![1]);
}

#[test]
fn query_range_is_clamped() {
    let s = sample();
    assert_eq!(s.query_range("a=0x20", 4, 100).unwrap(), vec![4]);
    assert_eq!(s.query_range("a=0x20", 5, 2).unwrap(), Vec::<u32>::new());
    assert_eq!(s.query("bogus").unwrap_err(), "cannot parse condition: 'bogus'");
    assert_eq!(s.query("ppu enters mode 7").unwrap_err(), "PPU mode must be 0-3, got 7");
}

#[test]
fn compound_conditions() {
    let s = sample();
    let any = Condition::Any(vec![Condition::FlagSet(4), Condition::LcdTurnsOn]);
    assert_eq!(s.query_condition(&any), vec![1, 2, 3, 5]);
    let all = Condition::All(vec![Condition::FlagSet(7), Condition::FieldChanges { field: "a".into() }]);
    assert_eq!(s.query_condition(&all), vec![3, 5]);
    assert!(s.eval_condition(&Condition::All(vec![]), 0));
    assert!(!s.eval_condition(&Condition::Any(vec![]), 0));
    assert!(any.is_stateful());
    assert!(!Condition::FlagSet(4).is_stateful());
}

#[test]
fn parse_number_is_hex() {
    assert_eq!(parse_number("10"), Some(16));
    assert_eq!(parse_number(" 0xFF "), Some(255));
    assert_eq!(parse_number("zz"), None);
    assert!(parse_condition("flag q set").is_err());
}

#[test]
fn frame_boundaries_follow_ly() {
    let s = sample();
    assert_eq!(s.frame_boundaries(), vec![0, 2, 5]);
    let no_ly = store_of(&["pc"], &[vec![1], vec![2]], Trigger::Instruction);
    assert_eq!(no_ly.frame_boundaries(), Vec::<u32>::new());
}

#[test]
fn collapse_keeps_first_row_of_each_pc() {
    let s = sample();
    let c = s.collapse_to_instructions().unwrap();
    assert_eq!(c.entry_count(), 5);
    assert_eq!(c.get_numeric_named("cy", 2), Some(12));
    let no_pc = store_of(&["a"], &[vec![1]], Trigger::Tcycle);
    assert_eq!(err_msg(no_pc.collapse_to_instructions()), "no pc field for collapse");
}

#[test]
fn skipping_to_a_pc_or_a_condition() {
    let s = sample();
    let t = s.skip_to_pc(0x150).unwrap();
    assert_eq!(t.entry_count(), 3);
    assert_eq!(t.get_numeric_named("pc", 0), Some(0x150));
    assert_eq!(err_msg(s.skip_to_pc(0x999)), "PC 0x0999 not found");

    let u = s.skip_until("ly=0x90").unwrap();
    assert_eq!(u.entry_count(), 2);
    assert_eq!(s.skip_until("lcdc&0x80").unwrap().entry_count(), 5);
    assert_eq!(err_msg(s.skip_until("nonsense")), "invalid sync condition: nonsense");
    assert_eq!(err_msg(s.skip_until("ly=zz")), "invalid value: zz");
    assert_eq!(err_msg(s.skip_until("zz=1")), "field 'zz' not found");
    assert_eq!(err_msg(s.skip_until("ly=200")), "sync condition 'ly=200' never matched");
}

#[test]
fn prepare_for_diff_aligns_on_first_common_pc() {
    let a = store_of(&["pc", "a"], &[vec![0x100, 1], vec![0x150, 2], vec![0x151, 3]], Trigger::Instruction);
    let b = store_of(&["pc", "a"], &[vec![0x150, 2], vec![0x151, 3]], Trigger::Instruction);
    let (a2, b2) = ColumnStore::prepare_for_diff(a, b).unwrap();
    assert_eq!(a2.entry_count(), 2);
    assert_eq!(b2.entry_count(), 2);
    assert_eq!(a2.get_numeric_named("pc", 0), Some(0x150));

    let a = store_of(&["pc", "a"], &[vec![0x100, 1], vec![0x150, 2]], Trigger::Instruction);
    let b = store_of(&["pc", "a"], &[vec![0x150, 2]], Trigger::Instruction);
    let (a3, b3) = ColumnStore::prepare_for_diff_with_sync(a, b, Some("none")).unwrap();
    assert_eq!((a3.entry_count(), b3.entry_count()), (2, 1));

    // A T-cycle trace is collapsed against an instruction trace.
    let t = store_of(&["pc"], &[vec![0x100], vec![0x100], vec![0x101]], Trigger::Tcycle);
    let i = store_of(&["pc"], &[vec![0x100], vec![0x101]], Trigger::Instruction);
    let (t2, i2) = ColumnStore::prepare_for_diff(t, i).unwrap();
    assert_eq!((t2.entry_count(), i2.entry_count()), (2, 2));
}

#[test]
fn loaded_entries_read_back_unchanged() {
    let mut entries = Vec::new();
    for i in 0..3u8 {
        let mut e = TraceEntry::new();
        e.set("pc", FieldValue::Number(0x0150 + i as u64));
        e.set("a", FieldValue::Number((0xF0 | i) as u64));
        e.set_bool("ime", i % 2 == 1);
        e.set_str("pix", &format!("{i}{i}"));
        entries.push(e);
    }
    let store = load_column_store(header(&["pc", "a", "ime", "pix"], Trigger::Instruction), &entries);
    assert_eq!(store.entry_count(), 3);
    for i in 0..3usize {
        let back = store.to_entry(i);
        assert_eq!(back.get_u16("pc"), entries[i].get_u16("pc"));
        assert_eq!(back.get_u8("a"), entries[i].get_u8("a"));
        assert!(matches!(back.get("ime"), Some(FieldValue::Bool(b)) if *b == (i % 2 == 1)));
        assert!(matches!(back.get("pix"), Some(FieldValue::Text(t)) if *t == format!("{i}{i}")));
    }
}

#[test]
fn collapsing_twice_is_collapsing_once() {
    let s = store_of(
        &["pc", "a"],
        &[vec![0x100, 1], vec![0x100, 2], vec![0x101, 3], vec![0x101, 4], vec![0x100, 5]],
        Trigger::Tcycle,
    );
    let once = s.collapse_to_instructions().unwrap();
    let twice = once.collapse_to_instructions().unwrap();
    assert_eq!(once.entry_count(), 3);
    assert_eq!(twice.entry_count(), once.entry_count());
    for i in 0..once.entry_count() {
        assert_eq!(twice.get_numeric_named("pc", i), once.get_numeric_named("pc", i));
        assert_eq!(twice.get_numeric_named("a", i), once.get_numeric_named("a", i));
    }
}

#[test]
fn preparing_with_a_condition_is_collapsing_then_skipping() {
    let mk_a = || store_of(&["pc", "a"], &[vec![1, 0], vec![1, 0], vec![2, 7], vec![3, 7]], Trigger::Tcycle);
    let mk_b = || store_of(&["pc", "a"], &[vec![5, 0], vec![6, 7], vec![7, 8]], Trigger::Instruction);
    let (a, b) = (mk_a(), mk_b());
    let (pa, pb) = ColumnStore::prepare_for_diff_with_sync(mk_a(), mk_b(), Some("a=7")).unwrap();
    let ea = a.collapse_to_instructions().unwrap().skip_until("a=7").unwrap();
    let eb = b.skip_until("a=7").unwrap();
    assert_eq!(pa.entry_count(), ea.entry_count());
    assert_eq!(pb.entry_count(), eb.entry_count());
    assert_eq!(pa.get_numeric_named("pc", 0), Some(2));
    assert_eq!(pb.get_numeric_named("pc", 0), Some(6));
}

#[test]
fn wide_bit_numbers_only_matter_where_they_shift() {
    let s = sample();
    // Transitions at row 0 never look at the bit.
    assert!(!s.eval_condition(&Condition::FlagBecomesSet(9), 0));
    assert!(!s.eval_condition(&Condition::InterruptFires(12), 0));
    // Without an `f` column no flag test shifts.
    let no_f = store_of(&["cy", "a"], &[vec![0, 1], vec![4, 2]], Trigger::Instruction);
    assert!(!no_f.eval_condition(&Condition::FlagSet(9), 1));
    assert!(!no_f.eval_condition(&Condition::FlagBecomesClear(9), 1));
    // A member after the one that decides is not evaluated.
    let all = Condition::All(vec![Condition::FieldEquals { field: "a".into(), value: "99".into() }, Condition::FlagSet(9)]);
    assert!(!s.eval_condition(&all, 2));
    let any = Condition::Any(vec![Condition::FieldEquals { field: "a".into(), value: "10".into() }, Condition::FlagClear(9)]);
    assert!(s.eval_condition(&any, 1));
    assert_eq!(no_f.query_condition(&Condition::FlagSet(9)), Vec::<u32>::new());
}

#[test]
fn a_split_query_range_concatenates_the_answers() {
    let s = sample();
    let whole = s.query_range("a changes", 0, 6).unwrap();
    let mut parts = s.query_range("a changes", 0, 3).unwrap();
    parts.extend(s.query_range("a changes", 3, 6).unwrap());
    assert_eq!(whole, parts);
    assert_eq!(whole, vec![1, 3, 5]);
}

#[test]
fn collapsed_rows_never_repeat_a_pc() {
    let s = sample().collapse_to_instructions().unwrap();
    for i in 1..s.entry_count() {
        assert_ne!(s.get_numeric_named("pc", i), s.get_numeric_named("pc", i - 1));
    }
}
