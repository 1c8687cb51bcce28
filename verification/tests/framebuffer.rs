use gbtrace::column_store::ColumnStore;
use gbtrace::framebuffer::{
    build_pixel_position_map, build_reverse_pixel_map, reconstruct_frames, reconstruct_partial_frame, Frame, LCD_HEIGHT,
    LCD_WIDTH,
};
use gbtrace::header::{BootRom, TraceHeader, Trigger};

fn header(fields: &[&str]) -> TraceHeader {
    TraceHeader {
        _header: true,
        format_version: "0.1.0".into(),
        emulator: "test".into(),
        emulator_version: "1.0".into(),
        rom_sha256: "0000".into(),
        model: "DMG".into(),
        boot_rom: BootRom::Skip,
        profile: "ppu".into(),
        fields: fields.iter().map(|s| s.to_string()).collect(),
        trigger: Trigger::Tcycle,
        notes: String::new(),
    }
}

/// Rows of (ly, pix).
fn pix_store(rows: &[(u64, &str)]) -> ColumnStore {
    let mut s = ColumnStore::new(header(&["ly", "pix"]));
    for (ly, pix) in rows {
        s.push_u64(0, *ly);
        s.push_str(1, pix);
        s.finish_row();
    }
    s
}

#[test]
fn rgba_uses_the_dmg_palette() {
    let mut pixels = vec![0xFFu8; LCD_WIDTH * LCD_HEIGHT];
    pixels[0] = 0;
    pixels[1] = 3;
    pixels[2] = 9;
    let f = Frame { pixels, index: 0, start_entry: 0, end_entry: 0 };
    let rgba = f.to_rgba();
    assert_eq!(rgba.len(), LCD_WIDTH * LCD_HEIGHT * 4);
    assert_eq!(&rgba[0..4], &[0xe0, 0xf8, 0xd0, 0xff]);
    assert_eq!(&rgba[4..8], &[0x08, 0x18, 0x20, 0xff]);
    // Values above 3 take the darkest colour.
    assert_eq!(&rgba[8..12], &[0x08, 0x18, 0x20, 0xff]);
    // Unrendered pixels are transparent.
    assert_eq!(&rgba[12..16], &[0, 0, 0, 0]);
}

#[test]
fn png_has_the_png_signature() {
    let f = Frame { pixels: vec![1u8; LCD_WIDTH * LCD_HEIGHT], index: 0, start_entry: 0, end_entry: 0 };
    let png = f.to_png();
    assert_eq!(&png[..8], &[0x89, b'P', b'N', b'G', 0x0D, 0x0A, 0x1A, 0x0A]);
}

#[test]
fn pixels_follow_ly() {
    let s = pix_store(&[(0, "012"), (0, "3"), (1, "21"), (1, ""), (200, "33")]);
    let f = reconstruct_partial_frame(&s, 0, 100);
    assert_eq!((f.index, f.start_entry, f.end_entry), (0, 0, 100));
    assert_eq!(&f.pixels[0..5], &[0, 1, 2, 3, 0xFF]);
    assert_eq!(&f.pixels[160..163], &[2, 1, 0xFF]);
    // Pixels of scanlines past the LCD are dropped.
    assert_eq!(f.pixels.iter().filter(|p| **p != 0xFF).count(), 6);
    // Stopping early leaves later pixels unrendered.
    let g = reconstruct_partial_frame(&s, 0, 1);
    assert_eq!(&g.pixels[0..4], &[0, 1, 2, 0xFF]);
}

#[test]
fn pixels_without_ly_go_in_lcd_order() {
    let mut s = ColumnStore::new(header(&["pix"]));
    s.push_str(0, "0x1");
    s.finish_row();
    s.push_str(0, "2");
    s.finish_row();
    let f = reconstruct_partial_frame(&s, 0, 2);
    assert_eq!(&f.pixels[0..4], &[0, 1, 2, 0xFF]);
}

#[test]
fn a_full_frame_dump_writes_every_pixel() {
    let dump: String = (0..LCD_WIDTH * LCD_HEIGHT).map(|i| if i % 2 == 0 { '3' } else { '1' }).collect();
    let s = pix_store(&[(0, &dump)]);
    let f = reconstruct_partial_frame(&s, 0, 1);
    assert_eq!(&f.pixels[0..4], &[3, 1, 3, 1]);
    assert_eq!(f.pixels[LCD_WIDTH * LCD_HEIGHT - 1], 1);
    // Position maps skip dumps.
    assert_eq!(build_pixel_position_map(&s, 0, 1), vec![(0xFFFF, 0xFFFF)]);
    assert_eq!(build_reverse_pixel_map(&s, 0, 1)[0], u32::MAX);
}

#[test]
fn position_and_reverse_maps() {
    let s = pix_store(&[(0, "01"), (0, ""), (2, "3"), (0, "2")]);
    let m = build_pixel_position_map(&s, 0, 4);
    assert_eq!(m, vec![(1, 0), (0xFFFF, 0xFFFF), (0, 2), (0, 0)]);
    let r = build_reverse_pixel_map(&s, 0, 4);
    assert_eq!(r[0], 3);
    assert_eq!(r[1], 0);
    assert_eq!(r[2 * LCD_WIDTH], 2);
    assert_eq!(r[2], u32::MAX);
    // A range past the end of the trace.
    assert_eq!(build_pixel_position_map(&s, 3, 6).len(), 3);
}

#[test]
fn frames_split_at_frame_boundaries() {
    let s = pix_store(&[(150, "0"), (0, "1"), (1, "2"), (144, "3"), (0, "12")]);
    let frames = reconstruct_frames(&s);
    let spans: Vec<(usize, usize, usize)> = frames.iter().map(|f| (f.index, f.start_entry, f.end_entry)).collect();
    assert_eq!(spans, vec![(0, 0, 1), (1, 1, 4), (2, 4, 5)]);
    assert_eq!(frames[1].pixels[0], 1);
    assert_eq!(frames[1].pixels[160], 2);
    assert_eq!(&frames[2].pixels[0..2], &[1, 2]);
}

#[test]
fn a_full_scanline_keeps_its_last_160_pixels() {
    // 158 pixels of shade 1, then 4 of shade 2 on the same line
    let first = "1".repeat(158);
    let s = pix_store(&[(5, &first), (5, "2222")]);
    let f = reconstruct_partial_frame(&s, 0, 2);
    let row = &f.pixels[5 * LCD_WIDTH..6 * LCD_WIDTH];
    // the two earliest pixels were pushed off the left
    assert!(row[..156].iter().all(|&p| p == 1));
    assert_eq!(&row[156..], &[2, 2, 2, 2]);
}

#[test]
fn an_empty_store_has_no_frame_boundary() {
    let s = pix_store(&[]);
    assert!(s.frame_boundaries().is_empty());
    assert!(reconstruct_frames(&s).is_empty());
    let one = pix_store(&[(0, "0")]);
    assert_eq!(one.frame_boundaries(), vec![0]);
}

#[test]
fn the_reverse_map_agrees_with_the_position_map() {
    let s = pix_store(&[(0, "01"), (1, "2"), (0, "3"), (1, "1"), (0, "2"), (3, "")]);
    let (fs, fe) = (1, 6);
    let m = build_pixel_position_map(&s, fs, fe);
    let r = build_reverse_pixel_map(&s, fs, fe);
    assert_eq!(r.len(), LCD_WIDTH * LCD_HEIGHT);
    for v in &r {
        assert!(*v == u32::MAX || (fs as u32 <= *v && (*v as usize) < fe));
    }
    for (k, (x, y)) in m.iter().enumerate() {
        if (*x, *y) != (0xFFFF, 0xFFFF) {
            let slot = r[*y as usize * LCD_WIDTH + *x as usize];
            assert!(slot != u32::MAX && slot as usize >= fs + k);
        }
    }
    // entry 2 drew (0, 0), which entry 4 drew over: the slot names entry 4
    assert_eq!(m, vec![(0, 1), (0, 0), (0, 1), (0, 0), (0xFFFF, 0xFFFF)]);
    assert_eq!(r[0], 4);
    assert_eq!(r[LCD_WIDTH], 3);
}
