//! LCD framebuffer reconstruction from pixel trace data.
//!
//! The `pix` field of a trace holds pixel values as characters `'0'`-`'3'`.
//! Pixels are placed left to right along the scanline that `ly` names (the
//! x cursor restarts when `ly` changes), or, without `ly`, in LCD order.
//! An entry whose `pix` holds exactly 160×144 bytes is a full-frame dump.
use vstd::prelude::*;
use vstd::utf8::encode_utf8;

use crate::column_store::{col_text, ColumnStore, TableView};
use crate::downsample::{last_at_most, DownsampledStore};
use crate::profile::FieldType;

verus! {

pub const LCD_WIDTH: usize = 160;

pub const LCD_HEIGHT: usize = 144;

/// The number of pixels on the LCD.
pub open spec fn lcd_pixels() -> int {
    LCD_WIDTH * LCD_HEIGHT
}

/// A single reconstructed LCD frame (160×144, 2-bit pixels).
pub struct Frame {
    /// Row-major pixel data: `pixels[y * LCD_WIDTH + x]` is the pixel value
    /// (0-3) at (x, y); 0xFF marks a pixel that was not rendered.
    pub pixels: Vec<u8>,
    /// Frame index (0-based).
    pub index: usize,
    /// Entry index in the trace where this frame starts.
    pub start_entry: usize,
    /// Entry index where this frame ends (exclusive).
    pub end_entry: usize,
}

// ---------------------------------------------------------------------------
// Colours
// ---------------------------------------------------------------------------

/// Channel `ch` (0 red, 1 green, 2 blue) of the DMG green palette colour
/// of pixel value `p` (values above 3 are the darkest colour).
pub open spec fn palette_channel(p: u8, ch: int) -> u8 {
    let q = if p > 3 {
        3
    } else {
        p
    };
    if q == 0 {
        if ch == 0 {
            0xe0
        } else if ch == 1 {
            0xf8
        } else {
            0xd0
        }
    } else if q == 1 {
        if ch == 0 {
            0x88
        } else if ch == 1 {
            0xc0
        } else {
            0x70
        }
    } else if q == 2 {
        if ch == 0 {
            0x34
        } else if ch == 1 {
            0x68
        } else {
            0x56
        }
    } else {
        if ch == 0 {
            0x08
        } else if ch == 1 {
            0x18
        } else {
            0x20
        }
    }
}

/// Byte `k` of the RGBA image of `pixels`: pixels 0xFF (and those past
/// the pixels given) are transparent black, the others take their
/// palette colour, opaque.
pub open spec fn rgba_byte(pixels: Seq<u8>, k: int) -> u8 {
    let i = k / 4;
    let ch = k % 4;
    if i >= pixels.len() || pixels[i] == 0xFF {
        0
    } else if ch == 3 {
        0xFF
    } else {
        palette_channel(pixels[i], ch)
    }
}

/// The RGBA image (160×144×4 bytes) of `pixels`.
pub open spec fn rgba_of(pixels: Seq<u8>) -> Seq<u8> {
    Seq::new((lcd_pixels() * 4) as nat, |k: int| rgba_byte(pixels, k))
}

/// The red, green and blue bytes the RGBA image gives pixel `i`.
pub open spec fn rgb_at(pixels: Seq<u8>, i: int) -> (u8, u8, u8) {
    (rgba_of(pixels)[4 * i], rgba_of(pixels)[4 * i + 1], rgba_of(pixels)[4 * i + 2])
}

proof fn lemma_rgba_index(i: int, c: int)
    requires
        0 <= c < 4,
    ensures
        (4 * i + c) / 4 == i,
        (4 * i + c) % 4 == c,
{
    assert((4 * i + c) / 4 == i) by (nonlinear_arith)
        requires
            0 <= c < 4,
    ;
    assert((4 * i + c) % 4 == c) by (nonlinear_arith)
        requires
            0 <= c < 4,
    ;
}

/// Each rendered pixel of a frame's RGBA image is opaque and painted in the
/// DMG green palette: value 0 is #e0f8d0, 1 is #88c070, 2 is #346856, and 3
/// (or any larger value) #081820; an unrendered pixel (0xFF) is fully
/// transparent.
pub proof fn law_rgba_palette(pixels: Seq<u8>, i: int)
    requires
        0 <= i < lcd_pixels(),
    ensures
        i < pixels.len() && pixels[i] != 0xFF ==> rgba_of(pixels)[4 * i + 3] == 0xFF,
        i < pixels.len() && pixels[i] == 0 ==> rgb_at(pixels, i) == (0xe0u8, 0xf8u8, 0xd0u8),
        i < pixels.len() && pixels[i] == 1 ==> rgb_at(pixels, i) == (0x88u8, 0xc0u8, 0x70u8),
        i < pixels.len() && pixels[i] == 2 ==> rgb_at(pixels, i) == (0x34u8, 0x68u8, 0x56u8),
        i < pixels.len() && 3 <= pixels[i] < 0xFF ==> rgb_at(pixels, i) == (0x08u8, 0x18u8, 0x20u8),
        i >= pixels.len() || pixels[i] == 0xFF ==> rgb_at(pixels, i) == (0u8, 0u8, 0u8) && rgba_of(pixels)[4
            * i + 3] == 0,
{
    lemma_rgba_index(i, 0);
    lemma_rgba_index(i, 1);
    lemma_rgba_index(i, 2);
    lemma_rgba_index(i, 3);
}

/// A pixel of a larger value is painted darker: the sum of its red, green
/// and blue bytes is smaller, for the values 0 to 3 a pixel can take.
pub proof fn law_palette_darkens(pixels: Seq<u8>, i: int, j: int)
    requires
        0 <= i < lcd_pixels(),
        0 <= j < lcd_pixels(),
        i < pixels.len(),
        j < pixels.len(),
        pixels[i] < pixels[j] <= 3,
    ensures
        rgb_at(pixels, i).0 + rgb_at(pixels, i).1 + rgb_at(pixels, i).2 > rgb_at(pixels, j).0 + rgb_at(pixels, j).1
            + rgb_at(pixels, j).2,
{
    law_rgba_palette(pixels, i);
    law_rgba_palette(pixels, j);
}

fn palette_rgb(p: u8) -> (r: (u8, u8, u8))
    ensures
        r.0 == palette_channel(p, 0),
        r.1 == palette_channel(p, 1),
        r.2 == palette_channel(p, 2),
{
    let q = if p > 3 {
        3
    } else {
        p
    };
    if q == 0 {
        (0xe0, 0xf8, 0xd0)
    } else if q == 1 {
        (0x88, 0xc0, 0x70)
    } else if q == 2 {
        (0x34, 0x68, 0x56)
    } else {
        (0x08, 0x18, 0x20)
    }
}

/// The PNG file (160×144, RGBA, 8 bits per channel) that the png crate's
/// encoder writes for an RGBA image.
pub uninterp spec fn png_encoding(rgba: Seq<u8>) -> Seq<u8>;

/// `png::Encoder` with width 160, height 144, `ColorType::Rgba` and
/// `BitDepth::Eight`, then `write_header` and `write_image_data` into a
/// byte vector: the file it writes, named [`png_encoding`]. Writing into a
/// vector does not fail, and the image data has the size the header
/// announces, so neither step reports an error.
#[verifier::external_body]
fn encode_png(rgba: &Vec<u8>) -> (r: Vec<u8>)
    requires
        rgba@.len() == lcd_pixels() * 4,
    ensures
        r@ == png_encoding(rgba@),
{
    let mut buf = Vec::new();
    {
        let mut encoder = png::Encoder::new(&mut buf, LCD_WIDTH as u32, LCD_HEIGHT as u32);
        encoder.set_color(png::ColorType::Rgba);
        encoder.set_depth(png::BitDepth::Eight);
        let mut writer = encoder.write_header().unwrap();
        writer.write_image_data(rgba).unwrap();
    }
    buf
}

impl Frame {
    fn new(index: usize, start_entry: usize) -> (r: Frame)
        ensures
            r.pixels@ == blank_pixels(),
            r.index == index,
            r.start_entry == start_entry,
            r.end_entry == start_entry,
    {
        let mut pixels: Vec<u8> = Vec::with_capacity(LCD_WIDTH * LCD_HEIGHT);
        let mut i: usize = 0;
        while i < LCD_WIDTH * LCD_HEIGHT
            invariant
                i <= lcd_pixels(),
                pixels@ == Seq::new(i as nat, |k: int| 0xFFu8),
            decreases lcd_pixels() - i,
        {
            pixels.push(0xFF);
            i += 1;
            assert(pixels@ =~= Seq::new(i as nat, |k: int| 0xFFu8));
        }
        assert(pixels@ =~= blank_pixels());
        Frame { pixels, index, start_entry, end_entry: start_entry }
    }

    /// Raw RGBA pixel data (160×144×4 bytes) in the DMG green palette:
    /// 0 is the lightest colour, 3 the darkest; pixels 0xFF (not rendered)
    /// are transparent.
    pub fn to_rgba(&self) -> (r: Vec<u8>)
        ensures
            r@ == rgba_of(self.pixels@),
    {
        let total = LCD_WIDTH * LCD_HEIGHT * 4;
        let mut rgba: Vec<u8> = Vec::with_capacity(total);
        let mut k: usize = 0;
        while k < total
            invariant
                total == lcd_pixels() * 4,
                k <= total,
                rgba@ == Seq::new(k as nat, |j: int| rgba_byte(self.pixels@, j)),
            decreases total - k,
        {
            let i = k / 4;
            let ch = k % 4;
            let b: u8 = if i >= self.pixels.len() || self.pixels[i] == 0xFF {
                0
            } else if ch == 3 {
                0xFF
            } else {
                let (r, g, bl) = palette_rgb(self.pixels[i]);
                if ch == 0 {
                    r
                } else if ch == 1 {
                    g
                } else {
                    bl
                }
            };
            rgba.push(b);
            k += 1;
            assert(rgba@ =~= Seq::new(k as nat, |j: int| rgba_byte(self.pixels@, j)));
        }
        rgba
    }

    /// Encode as a 160×144 RGBA PNG in the DMG green palette.
    pub fn to_png(&self) -> (r: Vec<u8>)
        ensures
            r@ == png_encoding(rgba_of(self.pixels@)),
    {
        let rgba = self.to_rgba();
        encode_png(&rgba)
    }
}

// ---------------------------------------------------------------------------
// Pixel placement
// ---------------------------------------------------------------------------

/// Whether a byte is a pixel character `'0'`-`'3'`.
pub open spec fn is_pix(c: u8) -> bool {
    48 <= c <= 51
}

/// Where the next pixel goes: `pos` counts pixels placed in LCD order (up
/// to 160×144), `x` is the position on the current scanline and `last_ly`
/// the scanline of the previous entry.
pub struct Cursor {
    pub pos: int,
    pub x: int,
    pub last_ly: Option<u8>,
}

/// The cursor before the first entry.
pub open spec fn start_cursor() -> Cursor {
    Cursor { pos: 0, x: 0, last_ly: None }
}

/// Where a pixel character lands, as (x, y), and the cursor after it: on
/// scanline `y` when `ly` gives one (within the LCD), else at the next
/// position in LCD order.
pub open spec fn place(c: Cursor, ch: u8, ly: Option<int>) -> (Option<(int, int)>, Cursor) {
    match ly {
        Some(y) => if is_pix(ch) && y < LCD_HEIGHT && c.x < LCD_WIDTH {
            (Some((c.x, y)), Cursor { x: c.x + 1, ..c })
        } else {
            (None, c)
        },
        None => if is_pix(ch) && c.pos < lcd_pixels() {
            (Some((c.pos % 160, c.pos / 160)), Cursor { pos: c.pos + 1, ..c })
        } else {
            (None, c)
        },
    }
}

/// The cursor at the start of entry `i`, and its scanline: a change of
/// `ly` restarts the scanline.
pub open spec fn entry_cursor(t: TableView, ly_col: Option<int>, c: Cursor, i: int) -> (Cursor, Option<int>) {
    match ly_col {
        Some(lc) => {
            let v = t.num(lc, i) as u8;
            (
                if c.last_ly != Some(v) {
                    Cursor { x: 0, last_ly: Some(v), ..c }
                } else {
                    c
                },
                Some(v as int),
            )
        },
        None => (c, None),
    }
}

/// The bytes of the `pix` value of entry `i`.
pub open spec fn pix_bytes(t: TableView, pix: int, i: int) -> Seq<u8> {
    encode_utf8(col_text(t.columns[pix], i))
}

/// A frame with no pixel rendered.
pub open spec fn blank_pixels() -> Seq<u8> {
    Seq::new(lcd_pixels() as nat, |k: int| 0xFFu8)
}

/// The scanline on which a pixel character arrives after the line is
/// already full: it pushes the line's pixels one to the left.
pub open spec fn pushed_off(c: Cursor, ch: u8, ly: Option<int>) -> Option<int> {
    match ly {
        Some(y) => if is_pix(ch) && 0 <= y < LCD_HEIGHT && c.x >= LCD_WIDTH {
            Some(y)
        } else {
            None
        },
        None => None,
    }
}

/// Scanline `y` shifted one pixel to the left, with `v` at its right end.
pub open spec fn shift_in(p: Seq<u8>, y: int, v: u8) -> Seq<u8> {
    Seq::new(
        p.len(),
        |j: int|
            if y * 160 <= j < y * 160 + 159 {
                p[j + 1]
            } else if j == y * 160 + 159 {
                v
            } else {
                p[j]
            },
    )
}

/// The pixels after placing the pixel characters of `b`. A scanline keeps
/// its last 160 pixels: once it is full, each further pixel pushes the
/// earlier ones off the left.
pub open spec fn frame_chars(p: Seq<u8>, c: Cursor, b: Seq<u8>, ly: Option<int>) -> (Seq<u8>, Cursor)
    decreases b.len(),
{
    if b.len() == 0 {
        (p, c)
    } else {
        let prev = frame_chars(p, c, b.drop_last(), ly);
        let step = place(prev.1, b.last(), ly);
        (
            match step.0 {
                Some(xy) => prev.0.update(xy.1 * 160 + xy.0, (b.last() - 48) as u8),
                None => match pushed_off(prev.1, b.last(), ly) {
                    Some(y) => shift_in(prev.0, y, (b.last() - 48) as u8),
                    None => prev.0,
                },
            },
            step.1,
        )
    }
}

/// A full-frame dump written over the pixels: each pixel character
/// replaces the pixel at its position.
pub open spec fn dump_over(p: Seq<u8>, b: Seq<u8>) -> Seq<u8> {
    Seq::new(
        p.len(),
        |j: int|
            if j < b.len() && is_pix(b[j]) {
                (b[j] - 48) as u8
            } else {
                p[j]
            },
    )
}

/// The pixels and cursor after entry `i`.
pub open spec fn frame_entry(t: TableView, pix: int, ly_col: Option<int>, p: Seq<u8>, c: Cursor, i: int) -> (
    Seq<u8>,
    Cursor,
) {
    let b = pix_bytes(t, pix, i);
    if b.len() == 0 {
        (p, c)
    } else if b.len() == lcd_pixels() {
        (dump_over(p, b), Cursor { pos: lcd_pixels(), ..c })
    } else {
        let ec = entry_cursor(t, ly_col, c, i);
        frame_chars(p, ec.0, b, ec.1)
    }
}

/// The pixels and cursor after the entries `start` to `n - 1`.
pub open spec fn frame_upto(t: TableView, pix: int, ly_col: Option<int>, start: int, n: int) -> (
    Seq<u8>,
    Cursor,
)
    decreases n - start,
{
    if n <= start {
        (blank_pixels(), start_cursor())
    } else {
        let prev = frame_upto(t, pix, ly_col, start, n - 1);
        frame_entry(t, pix, ly_col, prev.0, prev.1, n - 1)
    }
}

/// The smaller of two integers.
pub open spec fn min_int(a: int, b: int) -> int {
    if a < b {
        a
    } else {
        b
    }
}

/// The pixels of the frame built from the entries `start` up to
/// `stop` (and the end of the trace).
pub open spec fn partial_frame_pixels(t: TableView, start: int, stop: int) -> Seq<u8> {
    match t.col_of("pix"@) {
        None => blank_pixels(),
        Some(pix) => frame_upto(t, pix, t.col_of("ly"@), start, min_int(stop, t.rows as int)).0,
    }
}

/// Whether the `pix` values of the entries `start` to `hi - 1` can be read.
pub open spec fn pix_readable(t: TableView, start: int, hi: int) -> bool {
    match t.col_of("pix"@) {
        Some(c) => t.columns[c].kind == FieldType::Str ==> (hi <= start || t.columns[c].cells.len() >= hi),
        None => true,
    }
}

/// What the functions over a frame's entries ask of the store: it is
/// well-formed, every completed row can be read, and so can the `pix`
/// values of the range.
pub open spec fn frame_source_ok(s: &ColumnStore, start: int, stop: int) -> bool {
    &&& s.wf()
    &&& s.table().full()
    &&& pix_readable(s.table(), start, min_int(stop, s.table().rows as int))
}

// ---------------------------------------------------------------------------
// Position maps
// ---------------------------------------------------------------------------

/// The map after placing the pixel characters of `b` of the entry at
/// offset `idx`: the entry's slot holds the position of its last pixel.
pub open spec fn map_chars(m: Seq<(u16, u16)>, c: Cursor, b: Seq<u8>, ly: Option<int>, idx: int) -> (
    Seq<(u16, u16)>,
    Cursor,
)
    decreases b.len(),
{
    if b.len() == 0 {
        (m, c)
    } else {
        let prev = map_chars(m, c, b.drop_last(), ly, idx);
        let step = place(prev.1, b.last(), ly);
        (
            match step.0 {
                Some(xy) => prev.0.update(idx, (xy.0 as u16, xy.1 as u16)),
                None => prev.0,
            },
            step.1,
        )
    }
}

/// The map and cursor after the entries `start` to `n - 1`; empty entries
/// and full-frame dumps place nothing.
pub open spec fn map_upto(t: TableView, pix: int, ly_col: Option<int>, start: int, count: int, n: int) -> (
    Seq<(u16, u16)>,
    Cursor,
)
    decreases n - start,
{
    if n <= start {
        (Seq::new(count as nat, |k: int| (0xFFFFu16, 0xFFFFu16)), start_cursor())
    } else {
        let prev = map_upto(t, pix, ly_col, start, count, n - 1);
        let b = pix_bytes(t, pix, n - 1);
        if b.len() == 0 || b.len() == lcd_pixels() {
            prev
        } else {
            let ec = entry_cursor(t, ly_col, prev.1, n - 1);
            map_chars(prev.0, ec.0, b, ec.1, n - 1 - start)
        }
    }
}

/// `build_pixel_position_map`: for each entry of the frame, the (x, y)
/// of the last pixel it produced, or (0xFFFF, 0xFFFF).
pub open spec fn position_map_of(t: TableView, start: int, end: int) -> Seq<(u16, u16)> {
    let count = if end > start {
        end - start
    } else {
        0
    };
    match t.col_of("pix"@) {
        None => Seq::new(count as nat, |k: int| (0xFFFFu16, 0xFFFFu16)),
        Some(pix) => map_upto(t, pix, t.col_of("ly"@), start, count, min_int(end, t.rows as int)).0,
    }
}

/// The reverse map after placing the pixel characters of `b` of entry `i`:
/// each pixel's slot holds the entry's index.
pub open spec fn rmap_chars(m: Seq<u32>, c: Cursor, b: Seq<u8>, ly: Option<int>, i: int) -> (Seq<u32>, Cursor)
    decreases b.len(),
{
    if b.len() == 0 {
        (m, c)
    } else {
        let prev = rmap_chars(m, c, b.drop_last(), ly, i);
        let step = place(prev.1, b.last(), ly);
        (
            match step.0 {
                Some(xy) => prev.0.update(xy.1 * 160 + xy.0, i as u32),
                None => prev.0,
            },
            step.1,
        )
    }
}

/// The reverse map and cursor after the entries `start` to `n - 1`.
pub open spec fn rmap_upto(t: TableView, pix: int, ly_col: Option<int>, start: int, n: int) -> (
    Seq<u32>,
    Cursor,
)
    decreases n - start,
{
    if n <= start {
        (Seq::new(lcd_pixels() as nat, |k: int| u32::MAX), start_cursor())
    } else {
        let prev = rmap_upto(t, pix, ly_col, start, n - 1);
        let b = pix_bytes(t, pix, n - 1);
        if b.len() == 0 || b.len() == lcd_pixels() {
            prev
        } else {
            let ec = entry_cursor(t, ly_col, prev.1, n - 1);
            rmap_chars(prev.0, ec.0, b, ec.1, n - 1)
        }
    }
}

/// `build_reverse_pixel_map`: for each LCD position, the index of the
/// entry that produced its pixel last, or `u32::MAX`.
pub open spec fn reverse_map_of(t: TableView, start: int, end: int) -> Seq<u32> {
    match t.col_of("pix"@) {
        None => Seq::new(lcd_pixels() as nat, |k: int| u32::MAX),
        Some(pix) => rmap_upto(t, pix, t.col_of("ly"@), start, min_int(end, t.rows as int)).0,
    }
}

/// The slot of the position map's "no pixel".
pub open spec fn no_pixel() -> (u16, u16) {
    (0xFFFFu16, 0xFFFFu16)
}

/// The LCD index of an (x, y) position.
pub open spec fn slot_of(xy: (u16, u16)) -> int {
    xy.1 as int * 160 + xy.0 as int
}

/// Whether a position map over the entries from `start` and a reverse map
/// agree, with every entry index below `hi`: each reverse slot is unset
/// or names an entry in `[start, hi)`, and the last pixel of each entry
/// lies on the LCD where the reverse map names that entry or a later one.
pub open spec fn maps_agree(m: Seq<(u16, u16)>, r: Seq<u32>, start: int, hi: int) -> bool {
    &&& r.len() == lcd_pixels()
    &&& forall|p: int| 0 <= p < r.len() ==> #[trigger] r[p] == u32::MAX || (start <= r[p] && r[p] < hi)
    &&& forall|k: int|
        0 <= k < m.len() && #[trigger] m[k] != no_pixel() ==> {
            &&& k < hi - start
            &&& m[k].0 < 160
            &&& m[k].1 < 144
            &&& r[slot_of(m[k])] != u32::MAX
            &&& r[slot_of(m[k])] >= start + k
        }
}

proof fn lemma_maps_chars(
    m: Seq<(u16, u16)>,
    r: Seq<u32>,
    c: Cursor,
    b: Seq<u8>,
    ly: Option<int>,
    start: int,
    i: int,
)
    requires
        maps_agree(m, r, start, i + 1),
        0 <= start,
        0 <= i - start < m.len(),
        i < u32::MAX,
        c.x >= 0,
        c.pos >= 0,
        ly matches Some(y) ==> y >= 0,
    ensures
        maps_agree(map_chars(m, c, b, ly, i - start).0, rmap_chars(r, c, b, ly, i).0, start, i + 1),
        map_chars(m, c, b, ly, i - start).1 == rmap_chars(r, c, b, ly, i).1,
        map_chars(m, c, b, ly, i - start).0.len() == m.len(),
        map_chars(m, c, b, ly, i - start).1.x >= 0,
        map_chars(m, c, b, ly, i - start).1.pos >= 0,
    decreases b.len(),
{
    if b.len() > 0 {
        lemma_maps_chars(m, r, c, b.drop_last(), ly, start, i);
        let idx = i - start;
        let pm = map_chars(m, c, b.drop_last(), ly, idx);
        let pr = rmap_chars(r, c, b.drop_last(), ly, i);
        let step = place(pm.1, b.last(), ly);
        match step.0 {
            Some(xy) => {
                let v = (xy.0 as u16, xy.1 as u16);
                assert(0 <= xy.0 < 160 && 0 <= xy.1 < 144) by {
                    if ly is None {
                        assert(pm.1.pos % 160 < 160) by (nonlinear_arith)
                            requires
                                pm.1.pos >= 0,
                        ;
                        assert(pm.1.pos / 160 < 144) by (nonlinear_arith)
                            requires
                                0 <= pm.1.pos < 23040,
                        ;
                        assert(pm.1.pos / 160 >= 0) by (nonlinear_arith)
                            requires
                                pm.1.pos >= 0,
                        ;
                        assert(pm.1.pos % 160 >= 0) by (nonlinear_arith)
                            requires
                                pm.1.pos >= 0,
                        ;
                    }
                }
                assert(slot_of(v) == xy.1 * 160 + xy.0);
                let slot = xy.1 * 160 + xy.0;
                assert(0 <= slot < lcd_pixels());
                assert((i as u32) as int == i);
                let m2 = pm.0.update(idx, v);
                let r2 = pr.0.update(slot, i as u32);
                assert(r2.len() == lcd_pixels());
                assert(r2[slot] == i as u32);
                assert(m2[idx] == v);
                assert(map_chars(m, c, b, ly, idx).0 == m2);
                assert(rmap_chars(r, c, b, ly, i).0 == r2);
                assert forall|p: int| 0 <= p < r2.len() implies #[trigger] r2[p] == u32::MAX || (start <= r2[p]
                    && r2[p] < i + 1) by {
                    if p != slot {
                        assert(r2[p] == pr.0[p]);
                        assert(pr.0[p] == u32::MAX || (start <= pr.0[p] && pr.0[p] < i + 1));
                    }
                }
                assert forall|k: int| 0 <= k < m2.len() && #[trigger] m2[k] != no_pixel() implies {
                    &&& k < i + 1 - start
                    &&& m2[k].0 < 160
                    &&& m2[k].1 < 144
                    &&& r2[slot_of(m2[k])] != u32::MAX
                    &&& r2[slot_of(m2[k])] >= start + k
                } by {
                    if k != idx {
                        assert(m2[k] == pm.0[k]);
                        assert(pm.0[k] != no_pixel());
                        let q = slot_of(pm.0[k]);
                        assert(k < i + 1 - start && pm.0[k].0 < 160 && pm.0[k].1 < 144);
                        assert(pr.0[q] != u32::MAX && pr.0[q] >= start + k);
                        if q != slot {
                            assert(r2[q] == pr.0[q]);
                        }
                    } else {
                        assert(slot_of(m2[k]) == slot);
                    }
                }
            },
            None => {},
        }
    }
}

proof fn lemma_maps_upto(t: TableView, pix: int, ly_col: Option<int>, start: int, count: int, n: int)
    requires
        0 <= start,
        0 <= count,
        n - start <= count,
        n <= u32::MAX,
    ensures
        maps_agree(
            map_upto(t, pix, ly_col, start, count, n).0,
            rmap_upto(t, pix, ly_col, start, n).0,
            start,
            if n < start { start } else { n },
        ),
        map_upto(t, pix, ly_col, start, count, n).1 == rmap_upto(t, pix, ly_col, start, n).1,
        map_upto(t, pix, ly_col, start, count, n).0.len() == count,
        map_upto(t, pix, ly_col, start, count, n).1.x >= 0,
        map_upto(t, pix, ly_col, start, count, n).1.pos >= 0,
    decreases n - start,
{
    if n > start {
        lemma_maps_upto(t, pix, ly_col, start, count, n - 1);
        let pm = map_upto(t, pix, ly_col, start, count, n - 1);
        let pr = rmap_upto(t, pix, ly_col, start, n - 1);
        let b = pix_bytes(t, pix, n - 1);
        if !(b.len() == 0 || b.len() == lcd_pixels()) {
            let ec = entry_cursor(t, ly_col, pm.1, n - 1);
            lemma_maps_chars(pm.0, pr.0, ec.0, b, ec.1, start, n - 1);
        }
    } else {
        let m = map_upto(t, pix, ly_col, start, count, n).0;
        assert forall|k: int| 0 <= k < m.len() implies !(#[trigger] m[k] != no_pixel()) by {}
    }
}

/// The reverse pixel map agrees with the position map: every slot of the
/// reverse map is unset or names an entry of the frame, and the last
/// pixel of each entry lies on the LCD at a slot that names that entry or
/// a later one (which drew over it).
pub proof fn law_reverse_map_agrees(t: TableView, start: int, end: int)
    requires
        0 <= start,
        min_int(end, t.rows as int) <= u32::MAX,
    ensures
        maps_agree(
            position_map_of(t, start, end),
            reverse_map_of(t, start, end),
            start,
            if min_int(end, t.rows as int) < start { start } else { min_int(end, t.rows as int) },
        ),
{
    match t.col_of("pix"@) {
        Some(pix) => {
            let count = if end > start { end - start } else { 0 };
            lemma_maps_upto(t, pix, t.col_of("ly"@), start, count, min_int(end, t.rows as int));
        },
        None => {
            let count = if end > start { end - start } else { 0 };
            let m = position_map_of(t, start, end);
            assert forall|k: int| 0 <= k < m.len() implies !(#[trigger] m[k] != no_pixel()) by {}
        },
    }
}

// ---------------------------------------------------------------------------
// Executable placement
// ---------------------------------------------------------------------------

/// The executable cursor.
struct CursorState {
    pos: usize,
    x: usize,
    last_ly: Option<u8>,
}

impl CursorState {
    spec fn view(&self) -> Cursor {
        Cursor { pos: self.pos as int, x: self.x as int, last_ly: self.last_ly }
    }

    spec fn bounded(&self) -> bool {
        self.pos <= lcd_pixels() && self.x <= LCD_WIDTH
    }
}

fn start_state() -> (r: CursorState)
    ensures
        r.view() == start_cursor(),
        r.bounded(),
{
    CursorState { pos: 0, x: 0, last_ly: None }
}

/// Place one pixel character: the slot it lands in.
fn place_exec(c: &mut CursorState, ch: u8, ly: Option<u8>) -> (r: Option<(usize, usize)>)
    requires
        old(c).bounded(),
    ensures
        final(c).bounded(),
        final(c).view() == place(old(c).view(), ch, opt_int(ly)).1,
        match place(old(c).view(), ch, opt_int(ly)).0 {
            Some(xy) => r == Some((xy.0 as usize, xy.1 as usize)) && 0 <= xy.0 < LCD_WIDTH && 0 <= xy.1
                < LCD_HEIGHT,
            None => r is None,
        },
{
    match ly {
        Some(y) => {
            if 48 <= ch && ch <= 51 && (y as usize) < LCD_HEIGHT && c.x < LCD_WIDTH {
                let r = Some((c.x, y as usize));
                c.x = c.x + 1;
                r
            } else {
                None
            }
        },
        None => {
            if 48 <= ch && ch <= 51 && c.pos < LCD_WIDTH * LCD_HEIGHT {
                let r = Some((c.pos % LCD_WIDTH, c.pos / LCD_WIDTH));
                c.pos = c.pos + 1;
                r
            } else {
                None
            }
        },
    }
}

/// Shift scanline `y` one pixel to the left and put `v` at its right end.
fn shift_line(p: &mut Vec<u8>, y: usize, v: u8)
    requires
        old(p)@.len() == lcd_pixels(),
        y < LCD_HEIGHT,
    ensures
        final(p)@ == shift_in(old(p)@, y as int, v),
{
    let base = y * LCD_WIDTH;
    let mut k: usize = 0;
    while k < LCD_WIDTH - 1
        invariant
            k <= LCD_WIDTH - 1,
            base == y * 160,
            y < LCD_HEIGHT,
            p@.len() == lcd_pixels(),
            forall|j: int|
                0 <= j < p@.len() ==> #[trigger] p@[j] == (if base <= j < base + k {
                    old(p)@[j + 1]
                } else {
                    old(p)@[j]
                }),
        decreases LCD_WIDTH - 1 - k,
    {
        let next = p[base + k + 1];
        p.set(base + k, next);
        k += 1;
    }
    p.set(base + LCD_WIDTH - 1, v);
    assert(p@ =~= shift_in(old(p)@, y as int, v));
}

/// An optional scanline as an optional integer.
pub open spec fn opt_int(ly: Option<u8>) -> Option<int> {
    match ly {
        Some(v) => Some(v as int),
        None => None,
    }
}

/// Start entry `i`: restart the scanline when `ly` changed; its scanline.
fn enter_entry(s: &ColumnStore, ly_col: Option<usize>, c: &mut CursorState, i: usize) -> (r: Option<u8>)
    requires
        s.wf(),
        s.table().readable_row(i as int),
        ly_col matches Some(lc) ==> lc < s.table().columns.len(),
        old(c).bounded(),
    ensures
        final(c).bounded(),
        final(c).view() == entry_cursor(s.table(), opt_col(ly_col), old(c).view(), i as int).0,
        opt_int(r) == entry_cursor(s.table(), opt_col(ly_col), old(c).view(), i as int).1,
{
    match ly_col {
        Some(lc) => {
            assert(crate::column_store::col_readable(s.table().columns[lc as int], i as int));
            let v = #[verifier::truncate] (s.column(lc).get_numeric(i) as u8);
            if c.last_ly != Some(v) {
                c.x = 0;
                c.last_ly = Some(v);
            }
            Some(v)
        },
        None => None,
    }
}

/// An optional column as an optional integer.
pub open spec fn opt_col(c: Option<usize>) -> Option<int> {
    match c {
        Some(v) => Some(v as int),
        None => None,
    }
}

/// The `pix` bytes of entry `i`.
fn entry_bytes(s: &ColumnStore, pix: usize, i: usize) -> (r: &[u8])
    requires
        pix < s.table().columns.len(),
        s.table().columns[pix as int].kind == FieldType::Str ==> i < s.table().columns[pix as int].cells.len(),
    ensures
        r@ == pix_bytes(s.table(), pix as int, i as int),
{
    s.column(pix).get_str(i).as_bytes()
}

// ---------------------------------------------------------------------------
// Reconstruction
// ---------------------------------------------------------------------------

/// Reconstruct a partial frame from the entries `frame_start` up to (not
/// including) `stop_entry`. Pixels not rendered hold 0xFF, so `to_rgba`
/// shows them transparent.
pub fn reconstruct_partial_frame(store: &ColumnStore, frame_start: usize, stop_entry: usize) -> (r: Frame)
    requires
        frame_source_ok(store, frame_start as int, stop_entry as int),
    ensures
        r.pixels@ == partial_frame_pixels(store.table(), frame_start as int, stop_entry as int),
        r.index == 0,
        r.start_entry == frame_start,
        r.end_entry == stop_entry,
{
    let ghost t = store.table();
    let mut frame = Frame::new(0, frame_start);
    frame.end_entry = stop_entry;
    let pix = match store.field_col("pix") {
        Some(c) => c,
        None => return frame,
    };
    proof {
        crate::column_store::lemma_last_named_bound(t.header.fields, "pix"@);
    }
    let ly_col = store.field_col("ly");
    proof {
        crate::column_store::lemma_last_named_bound(t.header.fields, "ly"@);
    }
    let ghost lyc = opt_col(ly_col);
    let count = store.entry_count();
    let end = if stop_entry < count {
        stop_entry
    } else {
        count
    };
    let mut cur = start_state();
    let mut i = frame_start;
    while i < end
        invariant
            frame_start <= i,
            i <= end || i == frame_start,
            end == min_int(stop_entry as int, t.rows as int),
            t == store.table(),
            frame_source_ok(store, frame_start as int, stop_entry as int),
            pix < t.columns.len(),
            t.col_of("pix"@) == Some(pix as int),
            lyc == t.col_of("ly"@),
            lyc == opt_col(ly_col),
            ly_col matches Some(lc) ==> lc < t.columns.len(),
            cur.bounded(),
            frame.pixels@.len() == lcd_pixels(),
            (frame.pixels@, cur.view()) == frame_upto(t, pix as int, lyc, frame_start as int, i as int),
            frame.index == 0,
            frame.start_entry == frame_start,
            frame.end_entry == stop_entry,
        decreases end - i,
    {
        proof {
            crate::column_store::lemma_full_readable(t, i as int);
        }
        let b = entry_bytes(store, pix, i);
        let ghost p_prev = frame.pixels@;
        let ghost c_prev = cur.view();
        if b.len() == 0 {
        } else if b.len() == LCD_WIDTH * LCD_HEIGHT {
            let ghost before = frame.pixels@;
            let mut j: usize = 0;
            while j < b.len()
                invariant
                    j <= b@.len(),
                    b@.len() == lcd_pixels(),
                    frame.pixels@.len() == lcd_pixels(),
                    frame.index == 0,
                    frame.start_entry == frame_start,
                    frame.end_entry == stop_entry,
                    forall|k: int|
                        0 <= k < lcd_pixels() ==> #[trigger] frame.pixels@[k] == (if k < j && is_pix(
                            b@[k],
                        ) {
                            (b@[k] - 48) as u8
                        } else {
                            before[k]
                        }),
                decreases b@.len() - j,
            {
                let ch = b[j];
                if 48 <= ch && ch <= 51 {
                    frame.pixels.set(j, ch - 48);
                }
                j += 1;
            }
            assert(frame.pixels@ =~= dump_over(before, b@));
            cur.pos = LCD_WIDTH * LCD_HEIGHT;
            assert(cur.view() == frame_entry(t, pix as int, lyc, p_prev, c_prev, i as int).1);
        } else {
            let y = enter_entry(store, ly_col, &mut cur, i);
            let ghost p0 = frame.pixels@;
            let ghost c0 = cur.view();
            let mut j: usize = 0;
            while j < b.len()
                invariant
                    j <= b@.len(),
                    cur.bounded(),
                    frame.pixels@.len() == lcd_pixels(),
                    frame.index == 0,
                    frame.start_entry == frame_start,
                    frame.end_entry == stop_entry,
                    (frame.pixels@, cur.view()) == frame_chars(p0, c0, b@.take(j as int), opt_int(y)),
                decreases b@.len() - j,
            {
                assert(b@.take(j + 1).drop_last() =~= b@.take(j as int));
                let ch = b[j];
                let full_line = cur.x >= LCD_WIDTH;
                if let Some((x, yy)) = place_exec(&mut cur, ch, y) {
                    frame.pixels.set(yy * LCD_WIDTH + x, ch - 48);
                } else if let Some(yy) = y {
                    if 48 <= ch && ch <= 51 && (yy as usize) < LCD_HEIGHT && full_line {
                        shift_line(&mut frame.pixels, yy as usize, ch - 48);
                    }
                }
                j += 1;
            }
            assert(b@.take(j as int) =~= b@);
            assert(c0 == entry_cursor(t, lyc, c_prev, i as int).0);
        }
        assert(frame_upto(t, pix as int, lyc, frame_start as int, i + 1) == frame_entry(
            t,
            pix as int,
            lyc,
            p_prev,
            c_prev,
            i as int,
        ));
        i += 1;
    }
    frame
}

/// Build a map of pixel (x, y) positions for each entry of a frame,
/// indexed by `entry - frame_start`; entries with no pixel get
/// (0xFFFF, 0xFFFF). Full-frame dumps place nothing.
pub fn build_pixel_position_map(store: &ColumnStore, frame_start: usize, frame_end: usize) -> (r: Vec<
    (u16, u16),
>)
    requires
        frame_source_ok(store, frame_start as int, frame_end as int),
    ensures
        r@ == position_map_of(store.table(), frame_start as int, frame_end as int),
{
    let ghost t = store.table();
    let count = if frame_end > frame_start {
        frame_end - frame_start
    } else {
        0
    };
    let mut map: Vec<(u16, u16)> = Vec::with_capacity(count);
    let mut k: usize = 0;
    while k < count
        invariant
            k <= count,
            map@ == Seq::new(k as nat, |q: int| (0xFFFFu16, 0xFFFFu16)),
        decreases count - k,
    {
        map.push((0xFFFF, 0xFFFF));
        k += 1;
        assert(map@ =~= Seq::new(k as nat, |q: int| (0xFFFFu16, 0xFFFFu16)));
    }
    let pix = match store.field_col("pix") {
        Some(c) => c,
        None => return map,
    };
    proof {
        crate::column_store::lemma_last_named_bound(t.header.fields, "pix"@);
    }
    let ly_col = store.field_col("ly");
    proof {
        crate::column_store::lemma_last_named_bound(t.header.fields, "ly"@);
    }
    let ghost lyc = opt_col(ly_col);
    let total = store.entry_count();
    let end = if frame_end < total {
        frame_end
    } else {
        total
    };
    let mut cur = start_state();
    let mut i = frame_start;
    while i < end
        invariant
            frame_start <= i,
            i <= end || i == frame_start,
            end == min_int(frame_end as int, t.rows as int),
            end <= frame_end,
            count == (if frame_end > frame_start {
                frame_end - frame_start
            } else {
                0
            }),
            t == store.table(),
            frame_source_ok(store, frame_start as int, frame_end as int),
            pix < t.columns.len(),
            t.col_of("pix"@) == Some(pix as int),
            lyc == t.col_of("ly"@),
            lyc == opt_col(ly_col),
            ly_col matches Some(lc) ==> lc < t.columns.len(),
            cur.bounded(),
            map@.len() == count,
            (map@, cur.view()) == map_upto(t, pix as int, lyc, frame_start as int, count as int, i as int),
        decreases end - i,
    {
        proof {
            crate::column_store::lemma_full_readable(t, i as int);
        }
        let b = entry_bytes(store, pix, i);
        let ghost c_prev = cur.view();
        if b.len() != 0 && b.len() != LCD_WIDTH * LCD_HEIGHT {
            let idx = i - frame_start;
            let y = enter_entry(store, ly_col, &mut cur, i);
            let ghost m0 = map@;
            let ghost c0 = cur.view();
            let mut j: usize = 0;
            while j < b.len()
                invariant
                    j <= b@.len(),
                    cur.bounded(),
                    idx < count,
                    map@.len() == count,
                    (map@, cur.view()) == map_chars(m0, c0, b@.take(j as int), opt_int(y), idx as int),
                decreases b@.len() - j,
            {
                assert(b@.take(j + 1).drop_last() =~= b@.take(j as int));
                if let Some((x, yy)) = place_exec(&mut cur, b[j], y) {
                    map.set(idx, (x as u16, yy as u16));
                }
                j += 1;
            }
            assert(b@.take(j as int) =~= b@);
            assert(c0 == entry_cursor(t, lyc, c_prev, i as int).0);
        }
        i += 1;
    }
    map
}

/// Build a reverse pixel map: for each LCD position (index y * 160 + x),
/// the index of the entry that produced its pixel, or `u32::MAX` when none
/// did. Full-frame dumps place nothing.
pub fn build_reverse_pixel_map(store: &ColumnStore, frame_start: usize, frame_end: usize) -> (r: Vec<u32>)
    requires
        frame_source_ok(store, frame_start as int, frame_end as int),
    ensures
        r@ == reverse_map_of(store.table(), frame_start as int, frame_end as int),
{
    let ghost t = store.table();
    let mut rmap: Vec<u32> = Vec::with_capacity(LCD_WIDTH * LCD_HEIGHT);
    let mut k: usize = 0;
    while k < LCD_WIDTH * LCD_HEIGHT
        invariant
            k <= lcd_pixels(),
            rmap@ == Seq::new(k as nat, |q: int| u32::MAX),
        decreases lcd_pixels() - k,
    {
        rmap.push(u32::MAX);
        k += 1;
        assert(rmap@ =~= Seq::new(k as nat, |q: int| u32::MAX));
    }
    let pix = match store.field_col("pix") {
        Some(c) => c,
        None => return rmap,
    };
    proof {
        crate::column_store::lemma_last_named_bound(t.header.fields, "pix"@);
    }
    let ly_col = store.field_col("ly");
    proof {
        crate::column_store::lemma_last_named_bound(t.header.fields, "ly"@);
    }
    let ghost lyc = opt_col(ly_col);
    let total = store.entry_count();
    let end = if frame_end < total {
        frame_end
    } else {
        total
    };
    let mut cur = start_state();
    let mut i = frame_start;
    while i < end
        invariant
            frame_start <= i,
            i <= end || i == frame_start,
            end == min_int(frame_end as int, t.rows as int),
            t == store.table(),
            frame_source_ok(store, frame_start as int, frame_end as int),
            pix < t.columns.len(),
            t.col_of("pix"@) == Some(pix as int),
            lyc == t.col_of("ly"@),
            lyc == opt_col(ly_col),
            ly_col matches Some(lc) ==> lc < t.columns.len(),
            cur.bounded(),
            rmap@.len() == lcd_pixels(),
            (rmap@, cur.view()) == rmap_upto(t, pix as int, lyc, frame_start as int, i as int),
        decreases end - i,
    {
        proof {
            crate::column_store::lemma_full_readable(t, i as int);
        }
        let b = entry_bytes(store, pix, i);
        let ghost c_prev = cur.view();
        if b.len() != 0 && b.len() != LCD_WIDTH * LCD_HEIGHT {
            let y = enter_entry(store, ly_col, &mut cur, i);
            let ghost m0 = rmap@;
            let ghost c0 = cur.view();
            let mut j: usize = 0;
            while j < b.len()
                invariant
                    j <= b@.len(),
                    cur.bounded(),
                    rmap@.len() == lcd_pixels(),
                    (rmap@, cur.view()) == rmap_chars(m0, c0, b@.take(j as int), opt_int(y), i as int),
                decreases b@.len() - j,
            {
                assert(b@.take(j + 1).drop_last() =~= b@.take(j as int));
                if let Some((x, yy)) = place_exec(&mut cur, b[j], y) {
                    rmap.set(yy * LCD_WIDTH + x, #[verifier::truncate] (i as u32));
                }
                j += 1;
            }
            assert(b@.take(j as int) =~= b@);
            assert(c0 == entry_cursor(t, lyc, c_prev, i as int).0);
        }
        i += 1;
    }
    rmap
}


/// The entry where frame `k` of the boundaries ends: the next frame's
/// start, or the end of the trace.
pub open spec fn frame_end_of(fb: Seq<u32>, k: int, rows: int) -> int {
    if k + 1 < fb.len() {
        fb[k + 1] as int
    } else {
        rows
    }
}

/// Reconstruct the LCD frames of a store from its `pix` field: one frame
/// per frame boundary (see `ColumnStore::frame_boundaries`), none when
/// there is no `pix` field.
pub fn reconstruct_frames(store: &ColumnStore) -> (r: Vec<Frame>)
    requires
        store.wf(),
        store.table().full(),
        pix_readable(store.table(), 0, store.table().rows as int),
    ensures
        store.table().col_of("pix"@) is None ==> r@.len() == 0,
        store.table().col_of("pix"@) is Some ==> {
            let fb = crate::column_store::frame_boundaries_of(store.table());
            &&& r@.len() == fb.len()
            &&& forall|k: int|
                0 <= k < fb.len() ==> {
                    let f = #[trigger] r@[k];
                    &&& f.index == k
                    &&& f.start_entry == fb[k]
                    &&& f.end_entry == frame_end_of(fb, k, store.table().rows as int)
                    &&& f.pixels@ == partial_frame_pixels(
                        store.table(),
                        fb[k] as int,
                        frame_end_of(fb, k, store.table().rows as int),
                    )
                }
        },
{
    let ghost t = store.table();
    if store.field_col("pix").is_none() {
        return Vec::new();
    }
    let boundaries = store.frame_boundaries();
    let total = store.entry_count();
    let mut frames: Vec<Frame> = Vec::new();
    let mut fi: usize = 0;
    while fi < boundaries.len()
        invariant
            fi <= boundaries@.len(),
            t == store.table(),
            store.wf(),
            t.full(),
            pix_readable(t, 0, t.rows as int),
            total == t.rows,
            boundaries@ == crate::column_store::frame_boundaries_of(t),
            frames@.len() == fi,
            forall|k: int|
                0 <= k < fi ==> {
                    let f = #[trigger] frames@[k];
                    &&& f.index == k
                    &&& f.start_entry == boundaries@[k]
                    &&& f.end_entry == frame_end_of(boundaries@, k, t.rows as int)
                    &&& f.pixels@ == partial_frame_pixels(
                        t,
                        boundaries@[k] as int,
                        frame_end_of(boundaries@, k, t.rows as int),
                    )
                },
        decreases boundaries@.len() - fi,
    {
        let start = boundaries[fi] as usize;
        let n = boundaries.len();
        let end = if fi + 1 < n {
            boundaries[fi + 1] as usize
        } else {
            total
        };
        let mut frame = reconstruct_partial_frame(store, start, end);
        frame.index = fi;
        frames.push(frame);
        fi += 1;
    }
    frames
}


// ---------------------------------------------------------------------------
// Sizes
// ---------------------------------------------------------------------------

proof fn lemma_map_chars_len(m: Seq<(u16, u16)>, c: Cursor, b: Seq<u8>, ly: Option<int>, idx: int)
    requires
        0 <= idx < m.len(),
    ensures
        map_chars(m, c, b, ly, idx).0.len() == m.len(),
    decreases b.len(),
{
    if b.len() > 0 {
        lemma_map_chars_len(m, c, b.drop_last(), ly, idx);
    }
}

proof fn lemma_map_upto_len(t: TableView, pix: int, ly_col: Option<int>, start: int, count: int, n: int)
    requires
        0 <= count,
        n <= start + count,
    ensures
        map_upto(t, pix, ly_col, start, count, n).0.len() == count,
    decreases n - start,
{
    if n > start {
        lemma_map_upto_len(t, pix, ly_col, start, count, n - 1);
        let prev = map_upto(t, pix, ly_col, start, count, n - 1);
        let ec = entry_cursor(t, ly_col, prev.1, n - 1);
        lemma_map_chars_len(prev.0, ec.0, pix_bytes(t, pix, n - 1), ec.1, n - 1 - start);
    }
}

/// A position map has one slot per entry of the frame.
pub proof fn lemma_position_map_len(t: TableView, start: int, end: int)
    ensures
        position_map_of(t, start, end).len() == (if end > start {
            end - start
        } else {
            0
        }),
{
    let count = if end > start {
        end - start
    } else {
        0
    };
    if let Some(pix) = t.col_of("pix"@) {
        lemma_map_upto_len(t, pix, t.col_of("ly"@), start, count, min_int(end, t.rows as int));
    }
}

// ---------------------------------------------------------------------------
// Downsampled views
// ---------------------------------------------------------------------------

/// The store row a downsampled row starts at (0 past the map).
pub open spec fn ds_row(m: Seq<usize>, i: int) -> int {
    if 0 <= i < m.len() {
        m[i] as int
    } else {
        0
    }
}

/// The store row a downsampled range ends at: the row of downsampled row
/// `end` when there is one, else the end of the store.
pub open spec fn ds_end(m: Seq<usize>, rows: int, end: int) -> int {
    if 0 <= end < m.len() {
        m[end] as int
    } else {
        rows
    }
}

/// Reconstruct a partial frame of a downsampled view: from the store row
/// of `frame_start` through every store row of `stop_entry` (up to the
/// next downsampled row).
pub fn reconstruct_partial_frame_downsampled(ds: &DownsampledStore, frame_start: usize, stop_entry: usize) -> (r: Frame)
    requires
        ds.wf(),
        frame_source_ok(
            &ds.inner_store(),
            ds_row(ds.map_view(), frame_start as int),
            if stop_entry < ds.map_view().len() {
                ds_end(ds.map_view(), ds.inner_store().table().rows as int, stop_entry + 1)
            } else {
                ds.inner_store().table().rows as int
            },
        ),
    ensures
        r.pixels@ == partial_frame_pixels(
            ds.inner_store().table(),
            ds_row(ds.map_view(), frame_start as int),
            if stop_entry < ds.map_view().len() {
                ds_end(ds.map_view(), ds.inner_store().table().rows as int, stop_entry + 1)
            } else {
                ds.inner_store().table().rows as int
            },
        ),
{
    let raw_start = match ds.original_index(frame_start) {
        Some(v) => v,
        None => 0,
    };
    let raw_stop = if stop_entry < ds.entry_count() {
        match ds.original_index(stop_entry + 1) {
            Some(v) => v,
            None => ds.inner().entry_count(),
        }
    } else {
        ds.inner().entry_count()
    };
    reconstruct_partial_frame(ds.inner(), raw_start, raw_stop)
}

/// A reverse-map value as a downsampled row: the row the producing entry
/// belongs to (`u32::MAX` stays, as does an entry before the first row).
pub open spec fn ds_reverse_value(m: Seq<usize>, v: u32) -> u32 {
    if v == u32::MAX {
        u32::MAX
    } else {
        match last_at_most(m, v as int, m.len() as int) {
            Some(di) => di as u32,
            None => u32::MAX,
        }
    }
}

/// Build the reverse pixel map of a downsampled range: built over the
/// store rows, then each entry index turned into its downsampled row.
pub fn build_reverse_pixel_map_downsampled(ds: &DownsampledStore, frame_start: usize, frame_end: usize) -> (r: Vec<
    u32,
>)
    requires
        ds.wf(),
        frame_source_ok(
            &ds.inner_store(),
            ds_row(ds.map_view(), frame_start as int),
            ds_end(ds.map_view(), ds.inner_store().table().rows as int, frame_end as int),
        ),
    ensures
        ({
            let raw = reverse_map_of(
                ds.inner_store().table(),
                ds_row(ds.map_view(), frame_start as int),
                ds_end(ds.map_view(), ds.inner_store().table().rows as int, frame_end as int),
            );
            r@ == Seq::new(raw.len(), |k: int| ds_reverse_value(ds.map_view(), raw[k]))
        }),
{
    let inner = ds.inner();
    let raw_start = match ds.original_index(frame_start) {
        Some(v) => v,
        None => 0,
    };
    let raw_end = if frame_end < ds.entry_count() {
        match ds.original_index(frame_end) {
            Some(v) => v,
            None => inner.entry_count(),
        }
    } else {
        inner.entry_count()
    };
    let raw = build_reverse_pixel_map(inner, raw_start, raw_end);
    let mut out: Vec<u32> = Vec::new();
    let mut k: usize = 0;
    while k < raw.len()
        invariant
            k <= raw@.len(),
            ds.wf(),
            out@ == Seq::new(k as nat, |j: int| ds_reverse_value(ds.map_view(), raw@[j])),
        decreases raw@.len() - k,
    {
        let v = raw[k];
        let ghost m = ds.map_view();
        let w = if v == u32::MAX {
            u32::MAX
        } else {
            let d = ds.downsampled_index(v as usize);
            assert(last_at_most(m, v as int, m.len() as int) == last_at_most(m, (v as usize) as int, m.len() as int));
            match d {
                Some(di) => {
                    assert(last_at_most(m, v as int, m.len() as int) == Some(di as int));
                    #[verifier::truncate]
                    (di as u32)
                },
                None => {
                    assert(last_at_most(m, v as int, m.len() as int) is None);
                    u32::MAX
                },
            }
        };
        assert(v == raw@[k as int]);
        assert(w == ds_reverse_value(m, v));
        out.push(w);
        k += 1;
        assert(out@ =~= Seq::new(k as nat, |j: int| ds_reverse_value(ds.map_view(), raw@[j])));
    }
    out
}

/// The position map of a downsampled range after the first `n` store
/// entries of the raw map: each entry's position goes to the slot of the
/// downsampled row it belongs to, when that row is in the range.
pub open spec fn ds_positions(
    raw: Seq<(u16, u16)>,
    m: Seq<usize>,
    raw_start: int,
    frame_start: int,
    frame_end: int,
    n: int,
) -> Seq<(u16, u16)>
    decreases n,
{
    if n <= 0 {
        Seq::new(
            (if frame_end > frame_start {
                frame_end - frame_start
            } else {
                0
            }) as nat,
            |k: int| (0xFFFFu16, 0xFFFFu16),
        )
    } else {
        let prev = ds_positions(raw, m, raw_start, frame_start, frame_end, n - 1);
        let pos = raw[n - 1];
        if pos.0 == 0xFFFF {
            prev
        } else {
            match last_at_most(m, raw_start + n - 1, m.len() as int) {
                Some(di) => if frame_start <= di < frame_end {
                    prev.update(di - frame_start, pos)
                } else {
                    prev
                },
                None => prev,
            }
        }
    }
}

/// Build the pixel position map of a downsampled range: built over the
/// store rows, then each position moved to the slot of the downsampled row
/// its entry belongs to.
pub fn build_pixel_position_map_downsampled(ds: &DownsampledStore, frame_start: usize, frame_end: usize) -> (r: Vec<
    (u16, u16),
>)
    requires
        ds.wf(),
        frame_source_ok(
            &ds.inner_store(),
            ds_row(ds.map_view(), frame_start as int),
            ds_end(ds.map_view(), ds.inner_store().table().rows as int, frame_end as int),
        ),
    ensures
        ({
            let rs = ds_row(ds.map_view(), frame_start as int);
            let raw = position_map_of(
                ds.inner_store().table(),
                rs,
                ds_end(ds.map_view(), ds.inner_store().table().rows as int, frame_end as int),
            );
            r@ == ds_positions(raw, ds.map_view(), rs, frame_start as int, frame_end as int, raw.len() as int)
        }),
{
    let inner = ds.inner();
    let raw_start = match ds.original_index(frame_start) {
        Some(v) => v,
        None => 0,
    };
    let raw_end = if frame_end < ds.entry_count() {
        match ds.original_index(frame_end) {
            Some(v) => v,
            None => inner.entry_count(),
        }
    } else {
        inner.entry_count()
    };
    let raw_map = build_pixel_position_map(inner, raw_start, raw_end);
    proof {
        lemma_position_map_len(inner.table(), raw_start as int, raw_end as int);
    }
    let ds_count = if frame_end > frame_start {
        frame_end - frame_start
    } else {
        0
    };
    let mut result: Vec<(u16, u16)> = Vec::new();
    let mut k: usize = 0;
    while k < ds_count
        invariant
            k <= ds_count,
            result@ == Seq::new(k as nat, |j: int| (0xFFFFu16, 0xFFFFu16)),
        decreases ds_count - k,
    {
        result.push((0xFFFF, 0xFFFF));
        k += 1;
        assert(result@ =~= Seq::new(k as nat, |j: int| (0xFFFFu16, 0xFFFFu16)));
    }
    let ghost m = ds.map_view();
    assert(result@ =~= ds_positions(raw_map@, m, raw_start as int, frame_start as int, frame_end as int, 0));
    let mut off: usize = 0;
    while off < raw_map.len()
        invariant
            off <= raw_map@.len(),
            raw_map@.len() == (if raw_end > raw_start {
                raw_end - raw_start
            } else {
                0
            }),
            m == ds.map_view(),
            ds.wf(),
            result@ == ds_positions(raw_map@, m, raw_start as int, frame_start as int, frame_end as int, off as int),
            result@.len() == ds_count,
            ds_count == (if frame_end > frame_start {
                frame_end - frame_start
            } else {
                0
            }),
        decreases raw_map@.len() - off,
    {
        let pos = raw_map[off];
        let ghost before = result@;
        assert(pos == raw_map@[off as int]);
        if pos.0 != 0xFFFF {
            let raw_idx = raw_start + off;
            match ds.downsampled_index(raw_idx) {
                Some(di) => {
                    if di >= frame_start && di < frame_end {
                        result.set(di - frame_start, pos);
                    }
                },
                None => {},
            }
        }
        off += 1;
    }
    result
}

} // verus!
