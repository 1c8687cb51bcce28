//! Snapshot payloads: fixed little-endian byte layouts for the state a
//! trace row does not carry.
use vstd::prelude::*;
use vstd::utf8::{decode_utf8, encode_utf8, encode_utf8_decode_utf8, encode_utf8_valid_utf8, valid_utf8};

use crate::text::text_from_utf8;

verus! {

// ---------------------------------------------------------------------------
// Byte helpers
// ---------------------------------------------------------------------------

/// A flag as a byte: 1 or 0.
pub open spec fn flag_byte(b: bool) -> u8 {
    if b {
        1
    } else {
        0
    }
}

/// The little-endian bytes of a 16-bit value.
pub open spec fn le16(v: u16) -> Seq<u8> {
    seq![(v % 256) as u8, (v / 256) as u8]
}

/// The 16-bit value of two little-endian bytes.
pub open spec fn u16_of(lo: u8, hi: u8) -> u16 {
    (lo + 256 * hi) as u16
}

/// Reading back the little-endian bytes of a value gives the value.
pub proof fn lemma_le16_round_trip(v: u16)
    ensures
        u16_of(le16(v)[0], le16(v)[1]) == v,
{
}

fn flag_u8(b: bool) -> (r: u8)
    ensures
        r == flag_byte(b),
{
    if b {
        1
    } else {
        0
    }
}

fn push_le16(out: &mut Vec<u8>, v: u16)
    ensures
        final(out)@ == old(out)@ + le16(v),
{
    out.push((v % 256) as u8);
    out.push((v / 256) as u8);
    assert(out@ =~= old(out)@ + le16(v));
}

fn read_le16(data: &[u8], pos: usize) -> (r: u16)
    requires
        pos + 1 < data@.len(),
    ensures
        r == u16_of(data@[pos as int], data@[pos + 1]),
{
    let lo = data[pos] as u16;
    let hi = data[pos + 1] as u16;
    lo + 256 * hi
}

// ---------------------------------------------------------------------------
// CPU
// ---------------------------------------------------------------------------

/// CPU state beyond what the per-cycle trace rows capture.
#[derive(Debug, Clone, Default)]
pub struct CpuSnapshot {
    /// 0=Running, 1=Halting, 2=Halted
    pub halt_state: u8,
    /// 0=None, 1=Pending (EI executed, IME set after the next instruction), 2=Fired
    pub ei_delay: u8,
    /// HALT bug active (IME=0 HALT with a pending interrupt: the next PC
    /// increment is skipped)
    pub halt_bug: bool,
}

impl CpuSnapshot {
    /// The payload: three bytes.
    pub open spec fn encoding(&self) -> Seq<u8> {
        seq![self.halt_state, self.ei_delay, flag_byte(self.halt_bug)]
    }

    /// The snapshot a payload holds, when it has at least three bytes.
    pub open spec fn decoding(data: Seq<u8>) -> Option<CpuSnapshot> {
        if data.len() < 3 {
            None
        } else {
            Some(CpuSnapshot { halt_state: data[0], ei_delay: data[1], halt_bug: data[2] != 0 })
        }
    }

    pub fn to_bytes(&self) -> (r: Vec<u8>)
        ensures
            r@ == self.encoding(),
    {
        let mut out: Vec<u8> = Vec::new();
        out.push(self.halt_state);
        out.push(self.ei_delay);
        out.push(flag_u8(self.halt_bug));
        assert(out@ =~= self.encoding());
        out
    }

    pub fn from_bytes(data: &[u8]) -> (r: Option<Self>)
        ensures
            r == Self::decoding(data@),
    {
        if data.len() < 3 {
            return None;
        }
        Some(CpuSnapshot { halt_state: data[0], ei_delay: data[1], halt_bug: data[2] != 0 })
    }
}

/// Decoding the payload of a CPU snapshot gives the snapshot back.
pub proof fn law_cpu_round_trip(s: CpuSnapshot)
    ensures
        CpuSnapshot::decoding(s.encoding()) == Some(s),
{
}

// ---------------------------------------------------------------------------
// PPU timing
// ---------------------------------------------------------------------------

/// PPU timing state for mid-frame snapshots.
#[derive(Debug, Clone, Default)]
pub struct PpuTimingSnapshot {
    /// Position within the scanline (0-113 in M-cycles).
    pub dot_position: u8,
    /// Previous STAT interrupt line state, for edge detection.
    pub stat_line_was_high: bool,
    /// Internal window Y counter (0-143).
    pub window_line_counter: u8,
}

impl PpuTimingSnapshot {
    /// The payload: three bytes.
    pub open spec fn encoding(&self) -> Seq<u8> {
        seq![self.dot_position, flag_byte(self.stat_line_was_high), self.window_line_counter]
    }

    /// The snapshot a payload holds, when it has at least three bytes.
    pub open spec fn decoding(data: Seq<u8>) -> Option<PpuTimingSnapshot> {
        if data.len() < 3 {
            None
        } else {
            Some(
                PpuTimingSnapshot {
                    dot_position: data[0],
                    stat_line_was_high: data[1] != 0,
                    window_line_counter: data[2],
                },
            )
        }
    }

    pub fn to_bytes(&self) -> (r: Vec<u8>)
        ensures
            r@ == self.encoding(),
    {
        let mut out: Vec<u8> = Vec::new();
        out.push(self.dot_position);
        out.push(flag_u8(self.stat_line_was_high));
        out.push(self.window_line_counter);
        assert(out@ =~= self.encoding());
        out
    }

    pub fn from_bytes(data: &[u8]) -> (r: Option<Self>)
        ensures
            r == Self::decoding(data@),
    {
        if data.len() < 3 {
            return None;
        }
        Some(
            PpuTimingSnapshot {
                dot_position: data[0],
                stat_line_was_high: data[1] != 0,
                window_line_counter: data[2],
            },
        )
    }
}

/// Decoding the payload of a PPU timing snapshot gives the snapshot back.
pub proof fn law_ppu_timing_round_trip(s: PpuTimingSnapshot)
    ensures
        PpuTimingSnapshot::decoding(s.encoding()) == Some(s),
{
}

// ---------------------------------------------------------------------------
// APU
// ---------------------------------------------------------------------------

/// APU internal state that register reads do not give.
#[derive(Debug, Clone, Default)]
pub struct ApuSnapshot {
    /// Frame sequencer step (0-7).
    pub frame_sequencer_step: u8,
    /// Previous DIV bit that clocks the frame sequencer.
    pub prev_div_apu_bit: bool,
    pub ch1_period: u16,
    pub ch1_envelope_timer: u8,
    pub ch1_sweep_timer: u8,
    pub ch1_sweep_enabled: bool,
    pub ch1_sweep_negate_used: bool,
    pub ch1_length_enabled: bool,
    pub ch2_period: u16,
    pub ch2_envelope_timer: u8,
    pub ch2_length_enabled: bool,
    pub ch3_period: u16,
    pub ch3_length_enabled: bool,
    pub ch4_envelope_timer: u8,
    pub ch4_length_enabled: bool,
}

impl ApuSnapshot {
    /// The payload: eighteen bytes, in field order, periods little-endian.
    pub open spec fn encoding(&self) -> Seq<u8> {
        seq![self.frame_sequencer_step, flag_byte(self.prev_div_apu_bit)] + le16(self.ch1_period) + seq![
            self.ch1_envelope_timer,
            self.ch1_sweep_timer,
            flag_byte(self.ch1_sweep_enabled),
            flag_byte(self.ch1_sweep_negate_used),
            flag_byte(self.ch1_length_enabled),
        ] + le16(self.ch2_period) + seq![self.ch2_envelope_timer, flag_byte(self.ch2_length_enabled)]
            + le16(self.ch3_period) + seq![
            flag_byte(self.ch3_length_enabled),
            self.ch4_envelope_timer,
            flag_byte(self.ch4_length_enabled),
        ]
    }

    /// The snapshot a payload holds: the first eighteen bytes read in
    /// field order, when the payload has at least eighteen bytes.
    pub open spec fn decoding(d: Seq<u8>) -> Option<ApuSnapshot> {
        if d.len() < 18 {
            None
        } else {
            Some(
                ApuSnapshot {
                    frame_sequencer_step: d[0],
                    prev_div_apu_bit: d[1] != 0,
                    ch1_period: u16_of(d[2], d[3]),
                    ch1_envelope_timer: d[4],
                    ch1_sweep_timer: d[5],
                    ch1_sweep_enabled: d[6] != 0,
                    ch1_sweep_negate_used: d[7] != 0,
                    ch1_length_enabled: d[8] != 0,
                    ch2_period: u16_of(d[9], d[10]),
                    ch2_envelope_timer: d[11],
                    ch2_length_enabled: d[12] != 0,
                    ch3_period: u16_of(d[13], d[14]),
                    ch3_length_enabled: d[15] != 0,
                    ch4_envelope_timer: d[16],
                    ch4_length_enabled: d[17] != 0,
                },
            )
        }
    }

    pub fn to_bytes(&self) -> (r: Vec<u8>)
        ensures
            r@ == self.encoding(),
    {
        let mut out: Vec<u8> = Vec::with_capacity(20);
        out.push(self.frame_sequencer_step);
        out.push(flag_u8(self.prev_div_apu_bit));
        push_le16(&mut out, self.ch1_period);
        out.push(self.ch1_envelope_timer);
        out.push(self.ch1_sweep_timer);
        out.push(flag_u8(self.ch1_sweep_enabled));
        out.push(flag_u8(self.ch1_sweep_negate_used));
        out.push(flag_u8(self.ch1_length_enabled));
        push_le16(&mut out, self.ch2_period);
        out.push(self.ch2_envelope_timer);
        out.push(flag_u8(self.ch2_length_enabled));
        push_le16(&mut out, self.ch3_period);
        out.push(flag_u8(self.ch3_length_enabled));
        out.push(self.ch4_envelope_timer);
        out.push(flag_u8(self.ch4_length_enabled));
        assert(out@ =~= self.encoding());
        out
    }

    pub fn from_bytes(data: &[u8]) -> (r: Option<Self>)
        ensures
            r == Self::decoding(data@),
    {
        if data.len() < 18 {
            return None;
        }
        Some(
            ApuSnapshot {
                frame_sequencer_step: data[0],
                prev_div_apu_bit: data[1] != 0,
                ch1_period: read_le16(data, 2),
                ch1_envelope_timer: data[4],
                ch1_sweep_timer: data[5],
                ch1_sweep_enabled: data[6] != 0,
                ch1_sweep_negate_used: data[7] != 0,
                ch1_length_enabled: data[8] != 0,
                ch2_period: read_le16(data, 9),
                ch2_envelope_timer: data[11],
                ch2_length_enabled: data[12] != 0,
                ch3_period: read_le16(data, 13),
                ch3_length_enabled: data[15] != 0,
                ch4_envelope_timer: data[16],
                ch4_length_enabled: data[17] != 0,
            },
        )
    }
}

/// Decoding the payload of an APU snapshot gives the snapshot back.
pub proof fn law_apu_round_trip(s: ApuSnapshot)
    ensures
        ApuSnapshot::decoding(s.encoding()) == Some(s),
{
    lemma_le16_round_trip(s.ch1_period);
    lemma_le16_round_trip(s.ch2_period);
    lemma_le16_round_trip(s.ch3_period);
    let e = s.encoding();
    assert(e.len() == 18);
    assert(e[2] == le16(s.ch1_period)[0] && e[3] == le16(s.ch1_period)[1]);
    assert(e[9] == le16(s.ch2_period)[0] && e[10] == le16(s.ch2_period)[1]);
    assert(e[13] == le16(s.ch3_period)[0] && e[14] == le16(s.ch3_period)[1]);
}

// ---------------------------------------------------------------------------
// Timer
// ---------------------------------------------------------------------------

/// Timer internals.
#[derive(Debug, Clone, Default)]
pub struct TimerSnapshot {
    /// Full 16-bit internal counter (DIV exposes the top 8 bits).
    pub internal_counter: u16,
    /// TIMA overflowed; the TMA reload happens next M-cycle.
    pub overflow_pending: bool,
    /// TIMA is being reloaded from TMA this M-cycle.
    pub reloading: bool,
}

impl TimerSnapshot {
    /// The payload: four bytes.
    pub open spec fn encoding(&self) -> Seq<u8> {
        le16(self.internal_counter) + seq![flag_byte(self.overflow_pending), flag_byte(self.reloading)]
    }

    /// The snapshot a payload holds, when it has at least four bytes.
    pub open spec fn decoding(d: Seq<u8>) -> Option<TimerSnapshot> {
        if d.len() < 4 {
            None
        } else {
            Some(
                TimerSnapshot {
                    internal_counter: u16_of(d[0], d[1]),
                    overflow_pending: d[2] != 0,
                    reloading: d[3] != 0,
                },
            )
        }
    }

    pub fn to_bytes(&self) -> (r: Vec<u8>)
        ensures
            r@ == self.encoding(),
    {
        let mut out: Vec<u8> = Vec::with_capacity(4);
        push_le16(&mut out, self.internal_counter);
        out.push(flag_u8(self.overflow_pending));
        out.push(flag_u8(self.reloading));
        assert(out@ =~= self.encoding());
        out
    }

    pub fn from_bytes(data: &[u8]) -> (r: Option<Self>)
        ensures
            r == Self::decoding(data@),
    {
        if data.len() < 4 {
            return None;
        }
        Some(
            TimerSnapshot {
                internal_counter: read_le16(data, 0),
                overflow_pending: data[2] != 0,
                reloading: data[3] != 0,
            },
        )
    }
}

/// Decoding the payload of a timer snapshot gives the snapshot back.
pub proof fn law_timer_round_trip(s: TimerSnapshot)
    ensures
        TimerSnapshot::decoding(s.encoding()) == Some(s),
{
    lemma_le16_round_trip(s.internal_counter);
}

// ---------------------------------------------------------------------------
// DMA
// ---------------------------------------------------------------------------

/// DMA transfer state.
#[derive(Debug, Clone, Default)]
pub struct DmaSnapshot {
    pub active: bool,
    pub source: u16,
    pub byte_index: u8,
    pub delay_remaining: u8,
}

impl DmaSnapshot {
    /// The payload: five bytes.
    pub open spec fn encoding(&self) -> Seq<u8> {
        seq![flag_byte(self.active)] + le16(self.source) + seq![self.byte_index, self.delay_remaining]
    }

    /// The snapshot a payload holds, when it has at least five bytes.
    pub open spec fn decoding(d: Seq<u8>) -> Option<DmaSnapshot> {
        if d.len() < 5 {
            None
        } else {
            Some(
                DmaSnapshot {
                    active: d[0] != 0,
                    source: u16_of(d[1], d[2]),
                    byte_index: d[3],
                    delay_remaining: d[4],
                },
            )
        }
    }

    pub fn to_bytes(&self) -> (r: Vec<u8>)
        ensures
            r@ == self.encoding(),
    {
        let mut out: Vec<u8> = Vec::with_capacity(5);
        out.push(flag_u8(self.active));
        push_le16(&mut out, self.source);
        out.push(self.byte_index);
        out.push(self.delay_remaining);
        assert(out@ =~= self.encoding());
        out
    }

    pub fn from_bytes(data: &[u8]) -> (r: Option<Self>)
        ensures
            r == Self::decoding(data@),
    {
        if data.len() < 5 {
            return None;
        }
        Some(
            DmaSnapshot {
                active: data[0] != 0,
                source: read_le16(data, 1),
                byte_index: data[3],
                delay_remaining: data[4],
            },
        )
    }
}

/// Decoding the payload of a DMA snapshot gives the snapshot back.
pub proof fn law_dma_round_trip(s: DmaSnapshot)
    ensures
        DmaSnapshot::decoding(s.encoding()) == Some(s),
{
    lemma_le16_round_trip(s.source);
    assert(s.encoding()[1] == le16(s.source)[0] && s.encoding()[2] == le16(s.source)[1]);
}

// ---------------------------------------------------------------------------
// Serial
// ---------------------------------------------------------------------------

/// Serial transfer state.
#[derive(Debug, Clone, Default)]
pub struct SerialSnapshot {
    pub bits_remaining: u8,
    pub shift_clock: bool,
}

impl SerialSnapshot {
    /// The payload: two bytes.
    pub open spec fn encoding(&self) -> Seq<u8> {
        seq![self.bits_remaining, flag_byte(self.shift_clock)]
    }

    /// The snapshot a payload holds, when it has at least two bytes.
    pub open spec fn decoding(d: Seq<u8>) -> Option<SerialSnapshot> {
        if d.len() < 2 {
            None
        } else {
            Some(SerialSnapshot { bits_remaining: d[0], shift_clock: d[1] != 0 })
        }
    }

    pub fn to_bytes(&self) -> (r: Vec<u8>)
        ensures
            r@ == self.encoding(),
    {
        let mut out: Vec<u8> = Vec::new();
        out.push(self.bits_remaining);
        out.push(flag_u8(self.shift_clock));
        assert(out@ =~= self.encoding());
        out
    }

    pub fn from_bytes(data: &[u8]) -> (r: Option<Self>)
        ensures
            r == Self::decoding(data@),
    {
        if data.len() < 2 {
            return None;
        }
        Some(SerialSnapshot { bits_remaining: data[0], shift_clock: data[1] != 0 })
    }
}

/// Decoding the payload of a serial snapshot gives the snapshot back.
pub proof fn law_serial_round_trip(s: SerialSnapshot)
    ensures
        SerialSnapshot::decoding(s.encoding()) == Some(s),
{
}

// ---------------------------------------------------------------------------
// Cartridge mapper
// ---------------------------------------------------------------------------

/// Cartridge mapper state.
#[derive(Debug, Clone, Default)]
pub struct MbcSnapshot {
    /// MBC type identifier.
    pub mbc_type: String,
    pub rom_bank: u16,
    pub ram_bank: u8,
    pub ram_enabled: bool,
    /// MBC-specific mode (e.g. MBC1 mode 0/1).
    pub mode: u8,
}

/// The value of an [`MbcSnapshot`], its type name as characters.
pub struct MbcSnapshotView {
    pub mbc_type: Seq<char>,
    pub rom_bank: u16,
    pub ram_bank: u8,
    pub ram_enabled: bool,
    pub mode: u8,
}

impl View for MbcSnapshot {
    type V = MbcSnapshotView;

    open spec fn view(&self) -> MbcSnapshotView {
        MbcSnapshotView {
            mbc_type: self.mbc_type@,
            rom_bank: self.rom_bank,
            ram_bank: self.ram_bank,
            ram_enabled: self.ram_enabled,
            mode: self.mode,
        }
    }
}

/// The payload of a mapper snapshot: the length of the type name's UTF-8
/// bytes (as a byte), those bytes, the ROM bank (little-endian), the RAM
/// bank, the RAM-enabled flag and the mode.
pub open spec fn mbc_encoding(v: MbcSnapshotView) -> Seq<u8> {
    let tb = encode_utf8(v.mbc_type);
    seq![tb.len() as u8] + tb + le16(v.rom_bank) + seq![v.ram_bank, flag_byte(v.ram_enabled), v.mode]
}

/// The mapper snapshot a payload holds: none when it is empty, shorter
/// than the name length it announces plus five, or the name is not UTF-8.
pub open spec fn mbc_decoding(d: Seq<u8>) -> Option<MbcSnapshotView> {
    if d.len() == 0 {
        None
    } else {
        let tl = d[0] as int;
        let pos = 1 + tl;
        if d.len() < pos + 5 {
            None
        } else if !valid_utf8(d.subrange(1, pos)) {
            None
        } else {
            Some(
                MbcSnapshotView {
                    mbc_type: decode_utf8(d.subrange(1, pos)),
                    rom_bank: u16_of(d[pos], d[pos + 1]),
                    ram_bank: d[pos + 2],
                    ram_enabled: d[pos + 3] != 0,
                    mode: d[pos + 4],
                },
            )
        }
    }
}

impl MbcSnapshot {
    pub fn to_bytes(&self) -> (r: Vec<u8>)
        ensures
            r@ == mbc_encoding(self@),
    {
        let type_bytes = self.mbc_type.as_str().as_bytes();
        let mut out: Vec<u8> = Vec::new();
        out.push(#[verifier::truncate] (type_bytes.len() as u8));
        let mut i: usize = 0;
        while i < type_bytes.len()
            invariant
                i <= type_bytes@.len(),
                type_bytes@ == encode_utf8(self.mbc_type@),
                out@ == seq![(type_bytes@.len() as u8)] + type_bytes@.take(i as int),
            decreases type_bytes@.len() - i,
        {
            out.push(type_bytes[i]);
            i += 1;
            assert(out@ =~= seq![(type_bytes@.len() as u8)] + type_bytes@.take(i as int));
        }
        assert(type_bytes@.take(i as int) =~= type_bytes@);
        push_le16(&mut out, self.rom_bank);
        out.push(self.ram_bank);
        out.push(flag_u8(self.ram_enabled));
        out.push(self.mode);
        assert(out@ =~= mbc_encoding(self@));
        out
    }

    pub fn from_bytes(data: &[u8]) -> (r: Option<Self>)
        ensures
            match r {
                Some(m) => mbc_decoding(data@) == Some(m@),
                None => mbc_decoding(data@) is None,
            },
    {
        if data.len() == 0 {
            return None;
        }
        let type_len = data[0] as usize;
        if data.len() < 1 + type_len + 5 {
            return None;
        }
        let mut name: Vec<u8> = Vec::new();
        let end = 1 + type_len;
        let mut i: usize = 1;
        while i < end
            invariant
                1 <= i <= end,
                end == 1 + type_len,
                end + 5 <= data@.len(),
                name@ == data@.subrange(1, i as int),
            decreases end - i,
        {
            name.push(data[i]);
            i += 1;
            assert(name@ =~= data@.subrange(1, i as int));
        }
        let mbc_type = match text_from_utf8(name.as_slice()) {
            Some(s) => s,
            None => return None,
        };
        proof {
            encode_utf8_decode_utf8(mbc_type@);
            encode_utf8_valid_utf8(mbc_type@);
        }
        let pos = 1 + type_len;
        Some(
            MbcSnapshot {
                mbc_type,
                rom_bank: read_le16(data, pos),
                ram_bank: data[pos + 2],
                ram_enabled: data[pos + 3] != 0,
                mode: data[pos + 4],
            },
        )
    }
}

/// Decoding the payload of a mapper snapshot gives the snapshot back, when
/// the type name's UTF-8 bytes number fewer than 256 (the length is written
/// as one byte).
pub proof fn law_mbc_round_trip(v: MbcSnapshotView)
    requires
        encode_utf8(v.mbc_type).len() < 256,
    ensures
        mbc_decoding(mbc_encoding(v)) == Some(v),
{
    let tb = encode_utf8(v.mbc_type);
    let e = mbc_encoding(v);
    let pos = tb.len() as int + 1;
    assert(e[0] as int == tb.len());
    assert(e.subrange(1, pos) =~= tb);
    encode_utf8_valid_utf8(v.mbc_type);
    encode_utf8_decode_utf8(v.mbc_type);
    lemma_le16_round_trip(v.rom_bank);
    assert(e[pos] == le16(v.rom_bank)[0] && e[pos + 1] == le16(v.rom_bank)[1]);
}

// ---------------------------------------------------------------------------
// Memory
// ---------------------------------------------------------------------------

/// A memory region of a memory snapshot.
#[derive(Debug, Clone)]
pub struct MemoryRegion {
    pub start: u16,
    pub data: Vec<u8>,
}

/// The value of a [`MemoryRegion`].
pub struct MemoryRegionView {
    pub start: u16,
    pub data: Seq<u8>,
}

impl View for MemoryRegion {
    type V = MemoryRegionView;

    open spec fn view(&self) -> MemoryRegionView {
        MemoryRegionView { start: self.start, data: self.data@ }
    }
}

/// The values of a list of regions.
pub open spec fn regions_view(rs: Seq<MemoryRegion>) -> Seq<MemoryRegionView> {
    Seq::new(rs.len(), |i: int| rs[i]@)
}

/// The `n` regions a memory payload holds from byte `pos` on: each is
/// its start address and length (both 16-bit little-endian) and then its
/// bytes; none when a region runs past the payload.
pub open spec fn regions_from(d: Seq<u8>, pos: int, n: nat) -> Option<Seq<MemoryRegionView>>
    decreases n,
{
    if n == 0 {
        Some(Seq::empty())
    } else if pos + 4 > d.len() {
        None
    } else {
        let start = u16_of(d[pos], d[pos + 1]);
        let len = u16_of(d[pos + 2], d[pos + 3]) as int;
        if pos + 4 + len > d.len() {
            None
        } else {
            match regions_from(d, pos + 4 + len, (n - 1) as nat) {
                None => None,
                Some(rest) => Some(
                    seq![MemoryRegionView { start, data: d.subrange(pos + 4, pos + 4 + len) }] + rest,
                ),
            }
        }
    }
}

/// The regions of a memory payload: its first byte counts them.
pub open spec fn memory_snapshot_of(d: Seq<u8>) -> Option<Seq<MemoryRegionView>> {
    if d.len() == 0 {
        None
    } else {
        regions_from(d, 1, d[0] as nat)
    }
}

/// Parse a memory snapshot payload: `[count: u8]`, then for each region
/// `[start: u16 LE] [length: u16 LE] [data: length bytes]`.
pub fn parse_memory_snapshot(payload: &[u8]) -> (r: Option<Vec<MemoryRegion>>)
    ensures
        match r {
            Some(v) => memory_snapshot_of(payload@) == Some(regions_view(v@)),
            None => memory_snapshot_of(payload@) is None,
        },
{
    if payload.len() == 0 {
        return None;
    }
    let n = payload.len();
    let num_regions = payload[0] as usize;
    let mut pos: usize = 1;
    let mut regions: Vec<MemoryRegion> = Vec::with_capacity(num_regions);
    let mut k: usize = 0;
    while k < num_regions
        invariant
            k <= num_regions,
            num_regions == payload@[0] as nat,
            n == payload@.len(),
            1 <= pos <= n,
            memory_snapshot_of(payload@) == (match regions_from(
                payload@,
                pos as int,
                (num_regions - k) as nat,
            ) {
                Some(rest) => Some(regions_view(regions@) + rest),
                None => None,
            }),
        decreases num_regions - k,
    {
        if n - pos < 4 {
            return None;
        }
        let start = read_le16(payload, pos);
        let len = read_le16(payload, pos + 2) as usize;
        let body = pos + 4;
        if n - body < len {
            return None;
        }
        let mut data: Vec<u8> = Vec::with_capacity(len);
        let mut i: usize = body;
        while i < body + len
            invariant
                body <= i <= body + len,
                body + len <= n,
                n == payload@.len(),
                data@ == payload@.subrange(body as int, i as int),
            decreases body + len - i,
        {
            data.push(payload[i]);
            i += 1;
            assert(data@ =~= payload@.subrange(body as int, i as int));
        }
        let ghost before = regions@;
        regions.push(MemoryRegion { start, data });
        assert(regions_view(regions@) =~= regions_view(before) + seq![
            MemoryRegionView { start, data: payload@.subrange(body as int, body + len) },
        ]);
        pos = body + len;
        k += 1;
        proof {
            let tail = regions_from(payload@, pos as int, (num_regions - k) as nat);
            if tail is Some {
                assert(regions_view(before) + (seq![
                    MemoryRegionView { start, data: payload@.subrange(body as int, body + len) },
                ] + tail.unwrap()) =~= regions_view(regions@) + tail.unwrap());
            }
        }
    }
    assert(regions_view(regions@) + Seq::<MemoryRegionView>::empty() =~= regions_view(regions@));
    Some(regions)
}

} // verus!
