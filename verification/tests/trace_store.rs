use gbtrace::column_store::ColumnStore;
use gbtrace::downsample::DownsampledStore;
use gbtrace::entry::FieldValue;
use gbtrace::framebuffer::{
    build_pixel_position_map_downsampled, build_reverse_pixel_map_downsampled, reconstruct_partial_frame_downsampled,
    LCD_WIDTH,
};
use gbtrace::header::{BootRom, TraceHeader, Trigger};
use gbtrace::trace_store::TraceStore;

fn header(fields: &[&str], trigger: Trigger) -> TraceHeader {
    TraceHeader {
        _header: true,
        format_version: "0.1.0".into(),
        emulator: "test".into(),
        emulator_version: "1.0".into(),
        rom_sha256: "0000".into(),
        model: "DMG".into(),
        boot_rom: BootRom::Skip,
        profile: "ppu".into(),
        fields: fields.iter().map(|s| s.to_string()).collect(),
        trigger,
        notes: String::new(),
    }
}

/// Rows of (pc, ly, pix, a) under fields cy, pc, ly, pix, a.
fn store(rows: &[(u64, u64, &str, u64)]) -> ColumnStore {
    let mut s = ColumnStore::new(header(&["cy", "pc", "ly", "pix", "a"], Trigger::Tcycle));
    for (i, (pc, ly, pix, a)) in rows.iter().enumerate() {
        s.push_u64(0, i as u64);
        s.push_u64(1, *pc);
        s.push_u64(2, *ly);
        s.push_str(3, pix);
        s.push_u64(4, *a);
        s.finish_row();
    }
    s
}

#[test]
fn downsampling_keeps_pc_changes() {
    let rows = [
        (0x100, 0, "", 1),
        (0x100, 0, "", 1),
        (0x101, 0, "", 2),
        (0x101, 0, "", 2),
        (0x101, 0, "", 2),
        (0x102, 0, "", 3),
    ];
    let mut t = TraceStore::new(store(&rows), Some(vec![1, 2, 3]));
    assert_eq!(t.entry_count(), 6);
    assert!(!t.is_downsampled());
    t.enable_downsampling();
    assert!(t.is_downsampled());
    assert_eq!(t.entry_count(), 3);
    assert_eq!((t.map_row(0), t.map_row(1), t.map_row(2), t.map_row(7)), (0, 2, 5, 7));
    let e = t.entry(1).unwrap();
    assert!(matches!(e.get("pc"), Some(FieldValue::Number(0x101))));
    assert!(t.entry(3).is_none());
    t.disable_downsampling();
    assert_eq!(t.entry_count(), 6);
    assert_eq!(t.original_bytes(), Some(vec![1, 2, 3]));
    assert!(!t.has_rom());
    t.load_rom(&[0u8; 4]);
    assert!(t.has_rom());
}

#[test]
fn names_flags_and_pixels() {
    let rows = [(1, 0, "0", 1), (1, 0, "3", 1), (1, 0, "x", 1), (1, 0, "", 1), (1, 0, "12", 1)];
    let t = TraceStore::new(store(&rows), None);
    assert_eq!(t.field_names(), vec!["cy", "pc", "ly", "a"]);
    assert!(t.has_pixels() && t.has_per_entry_pixels() && !t.has_vram_data());
    assert_eq!(t.pix_range(0, 7).unwrap(), vec![0, 3, 255, 255, 255, 255, 255]);
    assert_eq!(t.pix_range(1, 1).unwrap(), vec![3]);
    let e = t.entry(0).unwrap();
    assert!(matches!(e.get("pix"), Some(FieldValue::Number(0))));
    assert!(matches!(e.get("a"), Some(FieldValue::Number(1))));
    assert!(t.entry(2).unwrap().get("pix").is_none());
    assert_eq!(t.entries_range(3, 10).len(), 2);
}

#[test]
fn diffs_between_traces() {
    let a = TraceStore::new(store(&[(1, 0, "", 1), (2, 0, "", 2), (3, 0, "", 3), (4, 0, "", 4)]), None);
    let b = TraceStore::new(store(&[(1, 0, "", 1), (9, 0, "", 2), (3, 0, "", 7), (4, 0, "", 4), (5, 0, "", 5)]), None);
    assert_eq!(a.diff_field(&b, "pc"), vec![1]);
    assert_eq!(a.diff_field(&b, "a"), vec![2]);
    assert_eq!(a.diff_all(&b), vec![1, 2]);
    let s = a.diff_stats_range(&b, 0, 100);
    assert_eq!((s.total, s.matching, s.differing), (4, 2, 2));
    assert_eq!(s.fields, vec![("pc".to_string(), 1), ("a".to_string(), 1)]);
    let s = a.diff_stats_range(&b, 2, 3);
    assert_eq!((s.total, s.matching, s.differing), (1, 0, 1));
    assert_eq!(s.fields, vec![("a".to_string(), 1)]);
}

#[test]
fn field_summary_buckets() {
    let t = TraceStore::new(store(&[(1, 0, "", 1), (1, 0, "", 5), (1, 0, "", 3), (1, 0, "", 7)]), None);
    assert_eq!(t.field_summary("a", 0, 4, 2).unwrap(), vec![1, 5, 3, 7]);
    assert_eq!(t.field_summary("a", 0, 4, 3).unwrap(), vec![1, 1, 5, 5, 3, 7]);
    // Five buckets over four rows: the first is empty and reads 0 at row 0.
    assert_eq!(t.field_summary("a", 0, 4, 5).unwrap(), vec![0, 0, 1, 1, 5, 5, 3, 3, 7, 7]);
    assert!(t.field_summary("a", 2, 2, 3).unwrap().is_empty());
    assert_eq!(t.field_summary("zz", 0, 4, 2).unwrap_err(), "unknown field: zz");
}

#[test]
fn frames_under_downsampling() {
    // ly falls from 144 at row 2 and from 150 at row 5: frames start at 0, 2, 5.
    let rows = [
        (0x100, 0, "", 0),
        (0x100, 144, "", 0),
        (0x100, 0, "", 0),
        (0x101, 1, "", 0),
        (0x102, 150, "", 0),
        (0x102, 2, "", 0),
    ];
    let mut t = TraceStore::new(store(&rows), None);
    assert_eq!(t.frame_boundaries(), vec![0, 2, 5]);
    assert_eq!(t.frame_count(), 3);
    t.enable_downsampling();
    // Shown rows are store rows 0, 3 and 4; row 2 moves to shown row 1 and
    // row 5 lies past the last.
    assert_eq!(t.frame_boundaries(), vec![0, 1]);
    assert!(t.render_frame(3).is_none());
}

#[test]
fn rendering_frames() {
    let rows = [(0x100, 0, "01", 0), (0x101, 0, "2", 0), (0x102, 1, "3", 0)];
    let t = TraceStore::new(store(&rows), None);
    let raw = t.render_frame_raw(0).unwrap();
    assert_eq!(&raw[0..3], &[0, 1, 2]);
    assert_eq!(raw[LCD_WIDTH], 3);
    assert_eq!(raw[3], 0xFF);
    let rgba = t.render_frame(0).unwrap();
    assert_eq!(rgba.len(), 160 * 144 * 4);
    let partial = t.render_partial_frame(0, 1).unwrap();
    assert_eq!(partial[8 + 3], 0);
    let pos = t.build_pixel_position_map(0).unwrap();
    assert_eq!(pos, vec![(1 << 16) | 0, (2 << 16) | 0, 1]);
    let rev = t.build_reverse_pixel_map(0).unwrap();
    assert_eq!((rev[0], rev[1], rev[2], rev[LCD_WIDTH], rev[3]), (0, 0, 1, 2, u32::MAX));
}

#[test]
fn downsampled_frames_use_store_rows() {
    let rows = [(0x100, 0, "0", 0), (0x100, 0, "1", 0), (0x101, 0, "2", 0), (0x101, 0, "3", 0)];
    let s = store(&rows);
    let ds = DownsampledStore::from_map(&s, vec![0, 2]);
    assert_eq!(ds.entry_count(), 2);
    assert_eq!((ds.original_index(1), ds.original_index(2)), (Some(2), None));
    assert_eq!((ds.downsampled_index(0), ds.downsampled_index(1), ds.downsampled_index(3)), (Some(0), Some(0), Some(1)));
    // Shown row 0 covers store rows 0 and 1.
    let f = reconstruct_partial_frame_downsampled(&ds, 0, 0);
    assert_eq!(&f.pixels[0..3], &[0, 1, 0xFF]);
    let rev = build_reverse_pixel_map_downsampled(&ds, 0, 2);
    assert_eq!(&rev[0..5], &[0, 0, 1, 1, u32::MAX]);
    let pos = build_pixel_position_map_downsampled(&ds, 0, 2);
    assert_eq!(pos, vec![(1, 0), (3, 0)]);
}
