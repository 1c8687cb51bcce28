use gbtrace::diff::{AlignmentStrategy, DiffConfig, DivergenceClass, TraceDiffer};
use gbtrace::entry::{FieldValue, TraceEntry};
use gbtrace::error::Error;
use gbtrace::header::{BootRom, TraceHeader, Trigger};

fn header(emulator: &str, fields: &[&str]) -> TraceHeader {
    TraceHeader {
        _header: true,
        format_version: "0.1.0".into(),
        emulator: emulator.into(),
        emulator_version: "1.0".into(),
        rom_sha256: "0000".into(),
        model: "DMG".into(),
        boot_rom: BootRom::Skip,
        profile: "cpu".into(),
        fields: fields.iter().map(|s| s.to_string()).collect(),
        trigger: Trigger::Instruction,
        notes: String::new(),
    }
}

fn entry(cy: u64, pc: u16, a: u8) -> TraceEntry {
    let mut e = TraceEntry::new();
    e.set_cy(cy);
    e.set("pc", FieldValue::Number(pc as u64));
    e.set("a", FieldValue::Number(a as u64));
    e
}

fn differ(alignment: AlignmentStrategy) -> TraceDiffer {
    let mut c = DiffConfig::default();
    c.alignment = alignment;
    TraceDiffer::new(c)
}

#[test]
fn identical_traces_compare_identical() {
    let h = header("emu", &["cy", "pc", "a"]);
    let es = vec![entry(0, 0x100, 1), entry(4, 0x101, 2), entry(8, 0x102, 3)];
    let d = differ(AlignmentStrategy::Auto).compare(&h, es.clone(), &h, es).unwrap();
    assert!(d.is_identical());
    assert_eq!(d.classification, DivergenceClass::Identical);
    assert_eq!(d.alignment_used, AlignmentStrategy::Cycle);
    assert_eq!((d.entries_a, d.entries_b, d.aligned_count, d.total_divergent), (3, 3, 3, 0));
    assert_eq!(d.common_fields, vec!["a", "cy", "pc"]);
    assert!(d.only_in_a.is_empty() && d.only_in_b.is_empty());
    assert!(d.regions.is_empty() && d.context_window.is_empty() && d.field_divergences.is_empty());
    assert!(!d.rom_mismatch && !d.boot_rom_mismatch);
}

#[test]
fn register_drift_by_sequence() {
    let ha = header("one", &["cy", "pc", "a", "b"]);
    let mut hb = header("two", &["cy", "pc", "a", "c"]);
    hb.rom_sha256 = "1111".into();
    hb.boot_rom = BootRom::Builtin;
    let ea = vec![entry(0, 0x100, 1), entry(4, 0x101, 2), entry(8, 0x102, 3)];
    let eb = vec![entry(1, 0x100, 1), entry(5, 0x101, 9), entry(9, 0x102, 3), entry(13, 0x103, 4)];
    let mut c = DiffConfig::default();
    c.alignment = AlignmentStrategy::Sequence;
    c.exclude_fields = Some(vec!["cy".to_string()]);
    let d = TraceDiffer::new(c).compare(&ha, ea, &hb, eb).unwrap();
    assert_eq!(d.name_a, "one");
    assert_eq!(d.name_b, "two");
    assert_eq!(d.alignment_used, AlignmentStrategy::Sequence);
    assert_eq!(d.common_fields, vec!["a", "pc"]);
    assert_eq!(d.only_in_a, vec!["b"]);
    assert_eq!(d.only_in_b, vec!["c"]);
    assert!(d.rom_mismatch && d.boot_rom_mismatch);
    assert_eq!((d.entries_a, d.entries_b, d.aligned_count, d.total_divergent), (3, 4, 2 + 1, 1));
    assert_eq!(d.field_divergences.len(), 1);
    let f = &d.field_divergences[0];
    assert_eq!((f.field.as_str(), f.count, f.first_index), ("a", 1, 1));
    assert!(matches!(f.first_val_a, FieldValue::Number(2)));
    assert!(matches!(f.first_val_b, FieldValue::Number(9)));
    assert_eq!(d.classification, DivergenceClass::RegisterDrift);
    assert_eq!(d.regions.len(), 1);
    assert_eq!((d.regions[0].start_index, d.regions[0].end_index, d.regions[0].count), (1, 1, 1));
    // Context: two rows before the first divergent one, up to five after.
    assert_eq!(d.context_window.len(), 3);
    assert_eq!(d.context_window[1].divergent_fields, vec!["a"]);
    assert!(d.context_window[1].is_divergent && !d.context_window[0].is_divergent);
}

#[test]
fn cycle_alignment_pairs_equal_cycles() {
    let h = header("emu", &["cy", "pc", "a"]);
    let ea = vec![entry(0, 0x100, 1), entry(4, 0x101, 2), entry(8, 0x102, 3)];
    let eb = vec![entry(4, 0x101, 2), entry(6, 0x150, 7), entry(8, 0x200, 3)];
    let d = differ(AlignmentStrategy::Cycle).compare(&h, ea, &h, eb).unwrap();
    assert_eq!(d.aligned_count, 2);
    assert_eq!(d.total_divergent, 1);
    assert_eq!(d.classification, DivergenceClass::ExecutionPathSplit);
    assert_eq!(d.regions[0].start_index, 8);
}

#[test]
fn skip_boot_rebases_cycles() {
    let h = header("emu", &["cy", "pc", "a"]);
    let ea = vec![entry(0, 0x0, 0), entry(10, 0x100, 1), entry(14, 0x101, 2)];
    let eb = vec![entry(100, 0x100, 1), entry(104, 0x101, 2)];
    let mut c = DiffConfig::default();
    c.skip_boot = true;
    c.exclude_fields = Some(vec!["cy".to_string()]);
    let d = TraceDiffer::new(c).compare(&h, ea, &h, eb).unwrap();
    assert_eq!((d.entries_a, d.entries_b, d.aligned_count), (2, 2, 2));
    assert!(d.is_identical());
}

#[test]
fn compare_errors() {
    let ha = header("one", &["cy", "pc"]);
    let hb = header("two", &["cy", "pc"]);
    let mut c = DiffConfig::default();
    c.include_fields = Some(vec!["sp".to_string()]);
    match TraceDiffer::new(c).compare(&ha, vec![entry(0, 1, 1)], &hb, vec![entry(0, 1, 1)]) {
        Err(Error::Diff(m)) => assert_eq!(m, "no common fields to compare"),
        _ => panic!("expected an error"),
    }
    match differ(AlignmentStrategy::Cycle).compare(&ha, vec![entry(0, 1, 1)], &hb, vec![entry(5, 1, 1)]) {
        Err(Error::Diff(m)) => assert_eq!(m, "no aligned entries (traces may not overlap)"),
        _ => panic!("expected an error"),
    }
}

#[test]
fn compare_multi_pairs_in_order() {
    let h1 = header("one", &["cy", "pc", "a"]);
    let h2 = header("two", &["cy", "pc", "a"]);
    let h3 = header("three", &["cy", "pc", "a"]);
    let es = vec![entry(0, 0x100, 1)];
    let traces = vec![(h1, es.clone()), (h2, es.clone()), (h3, es)];
    let m = differ(AlignmentStrategy::Auto).compare_multi(traces).unwrap();
    let names: Vec<(String, String)> = m.pairwise.iter().map(|d| (d.name_a.clone(), d.name_b.clone())).collect();
    assert_eq!(
        names,
        vec![
            ("one".to_string(), "two".to_string()),
            ("one".to_string(), "three".to_string()),
            ("two".to_string(), "three".to_string())
        ]
    );
    let bad = vec![(header("x", &["cy"]), vec![entry(0, 0, 0)]), (header("y", &["cy"]), vec![entry(3, 0, 0)])];
    assert!(differ(AlignmentStrategy::Cycle).compare_multi(bad).is_err());
}

#[test]
fn comparison_precondition() {
    let h = header("emu", &["cy", "pc", "a"]);
    let ea = vec![entry(0, 0x0, 0), entry(10, 0x100, 1), entry(14, 0x101, 2)];
    let eb = vec![entry(100, 0x100, 1), entry(104, 0x101, 2)];
    let mut c = DiffConfig::default();
    c.skip_boot = true;
    let d = TraceDiffer::new(c.clone());
    assert!(d.can_compare(&h, &ea, &h, &eb));
    // Counted from 100, a later cycle of 90 would fall below the first.
    let bad = vec![entry(100, 0x100, 1), entry(90, 0x101, 2)];
    assert!(!d.can_compare(&h, &ea, &h, &bad));
    c.context = usize::MAX;
    assert!(!TraceDiffer::new(c.clone()).can_compare(&h, &ea, &h, &eb));
    // Without a divergent row the context window is never computed.
    assert!(TraceDiffer::new(c.clone()).can_compare(&h, &ea, &h, &ea));
    // Without a field in common the comparison fails before any rebase.
    let hx = header("other", &["sp"]);
    let d = TraceDiffer::new(c);
    assert!(d.can_compare(&h, &ea, &hx, &bad));
    match d.compare(&h, ea.clone(), &hx, bad) {
        Err(Error::Diff(m)) => assert_eq!(m, "no common fields to compare"),
        _ => panic!("expected an error"),
    }
}

#[test]
fn comparing_the_other_way_round_mirrors_the_result() {
    let ha = header("one", &["cy", "pc", "a", "b"]);
    let hb = header("two", &["cy", "pc", "a", "c"]);
    let ea = vec![entry(0, 0x100, 1), entry(4, 0x101, 2), entry(8, 0x102, 3), entry(12, 0x103, 4)];
    let eb = vec![entry(0, 0x100, 1), entry(4, 0x101, 9), entry(8, 0x150, 3), entry(16, 0x103, 4)];
    let d1 = differ(AlignmentStrategy::Cycle).compare(&ha, ea.clone(), &hb, eb.clone()).unwrap();
    let d2 = differ(AlignmentStrategy::Cycle).compare(&hb, eb, &ha, ea).unwrap();
    assert_eq!(d2.common_fields, d1.common_fields);
    assert_eq!(d2.only_in_a, d1.only_in_b);
    assert_eq!(d2.only_in_b, d1.only_in_a);
    assert_eq!((d2.entries_a, d2.entries_b), (d1.entries_b, d1.entries_a));
    assert_eq!(d2.aligned_count, d1.aligned_count);
    assert_eq!(d1.aligned_count, 3);
    assert_eq!(d2.total_divergent, d1.total_divergent);
    assert_eq!(d1.total_divergent, 2);
    let spans = |d: &gbtrace::diff::DiffResult| -> Vec<(u64, u64, usize)> {
        d.regions.iter().map(|r| (r.start_index, r.end_index, r.count)).collect()
    };
    assert_eq!(spans(&d2), spans(&d1));
    assert_eq!(d2.classification, d1.classification);
    assert_eq!(d1.classification, DivergenceClass::ExecutionPathSplit);
    // The same failure either way round.
    let one = vec![entry(0, 1, 1)];
    let other = vec![entry(5, 1, 1)];
    let e1 = differ(AlignmentStrategy::Cycle).compare(&ha, one.clone(), &hb, other.clone());
    let e2 = differ(AlignmentStrategy::Cycle).compare(&hb, other, &ha, one);
    match (e1, e2) {
        (Err(Error::Diff(m1)), Err(Error::Diff(m2))) => assert_eq!(m1, m2),
        _ => panic!("expected two errors"),
    }
}
