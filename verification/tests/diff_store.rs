use gbtrace::column_store::ColumnStore;
use gbtrace::diff_store::DiffStore;
use gbtrace::header::{BootRom, TraceHeader, Trigger};

fn header(fields: &[&str], trigger: Trigger) -> TraceHeader {
    TraceHeader {
        _header: true,
        format_version: "0.1.0".into(),
        emulator: "test".into(),
        emulator_version: "1.0".into(),
        rom_sha256: "0000".into(),
        model: "DMG".into(),
        boot_rom: BootRom::Skip,
        profile: "cpu".into(),
        fields: fields.iter().map(|s| s.to_string()).collect(),
        trigger,
        notes: String::new(),
    }
}

fn store_of(fields: &[&str], rows: &[Vec<u64>], trigger: Trigger) -> ColumnStore {
    let mut s = ColumnStore::new(header(fields, trigger));
    for row in rows {
        for (c, v) in row.iter().enumerate() {
            s.push_u64(c, *v);
        }
        s.finish_row();
    }
    s
}

#[test]
fn aligned_view_by_pc() {
    let a = store_of(&["pc", "a", "ime"], &[vec![0x100, 1, 0], vec![0x150, 2, 1], vec![0x151, 3, 1]], Trigger::Instruction);
    let b = store_of(&["pc", "a"], &[vec![0x150, 2], vec![0x151, 4], vec![0x152, 5]], Trigger::Instruction);
    let mut d = DiffStore::align(&a, &b, None).unwrap();
    assert_eq!(d.len(), 2);
    assert_eq!((d.original_a(0), d.original_b(0)), (1, 0));
    assert!(!d.field_differs("a", 0));
    assert!(d.field_differs("a", 1));
    assert!(!d.field_differs("ime", 1));
    let stats = d.compute_stats();
    let got: Vec<(String, usize, usize)> = stats.iter().map(|s| (s.name.clone(), s.match_count, s.diff_count)).collect();
    assert_eq!(got, vec![("pc".to_string(), 2, 0), ("a".to_string(), 1, 1)]);
    // Over every compared field: 3 matches and 1 difference (75%).
    assert_eq!(d.overall_match_counts(), (3, 1));
}

#[test]
fn aligned_view_by_condition_and_none() {
    let a = store_of(&["pc", "ly"], &[vec![1, 140], vec![2, 144], vec![3, 145]], Trigger::Instruction);
    let b = store_of(&["pc", "ly"], &[vec![9, 144], vec![2, 145]], Trigger::Instruction);
    let d = DiffStore::align(&a, &b, Some("ly=144")).unwrap();
    assert_eq!(d.len(), 2);
    assert_eq!((d.original_a(0), d.original_b(0)), (1, 0));
    let d = DiffStore::align(&a, &b, Some("none")).unwrap();
    assert_eq!(d.len(), 2);
    assert_eq!(d.original_a(1), 1);
    // A field the stores lack matches nothing: the maps stay whole.
    let d = DiffStore::align(&a, &b, Some("zz=1")).unwrap();
    assert_eq!(d.len(), 2);
    assert!(DiffStore::align(&a, &b, Some("ly")).is_err());
    match DiffStore::align(&a, &b, Some("ly=q")) {
        Err(e) => assert_eq!(e.message(), "invalid value: q"),
        Ok(_) => panic!("expected an error"),
    }
}

#[test]
fn tcycle_traces_are_read_per_instruction() {
    let a = store_of(&["pc"], &[vec![5], vec![5], vec![6], vec![6], vec![7]], Trigger::Tcycle);
    let b = store_of(&["pc"], &[vec![5], vec![6], vec![7]], Trigger::Instruction);
    let d = DiffStore::align(&a, &b, Some("pc")).unwrap();
    assert_eq!(d.len(), 3);
    assert_eq!((d.original_a(1), d.original_a(2)), (2, 4));
}

#[test]
fn stats_count_the_positions_where_fields_differ() {
    let a = store_of(&["pc", "a"], &[vec![1, 1], vec![2, 2], vec![3, 3], vec![4, 4]], Trigger::Instruction);
    let b = store_of(&["pc", "a"], &[vec![1, 1], vec![2, 9], vec![3, 3], vec![4, 8]], Trigger::Instruction);
    let mut d = DiffStore::align(&a, &b, Some("none")).unwrap();
    let n = d.len();
    let differing = (0..n).filter(|&i| d.field_differs("a", i)).count();
    let stats = d.compute_stats().to_vec();
    let a_stats = stats.iter().find(|s| s.name == "a").unwrap();
    assert_eq!(a_stats.diff_count, differing);
    assert_eq!(a_stats.diff_count, 2);
    assert_eq!(a_stats.match_count + a_stats.diff_count, n);
}
