use gbtrace::snapshot::{
    parse_memory_snapshot, ApuSnapshot, CpuSnapshot, DmaSnapshot, MbcSnapshot, PpuTimingSnapshot, SerialSnapshot,
    TimerSnapshot,
};

#[test]
fn cpu_snapshot_round_trip() {
    let s = CpuSnapshot { halt_state: 2, ei_delay: 1, halt_bug: true };
    let b = s.to_bytes();
    assert_eq!(b, vec![2, 1, 1]);
    let d = CpuSnapshot::from_bytes(&b).unwrap();
    assert_eq!((d.halt_state, d.ei_delay, d.halt_bug), (2, 1, true));
    assert!(CpuSnapshot::from_bytes(&[1, 2]).is_none());
}

#[test]
fn ppu_timing_snapshot_round_trip() {
    let s = PpuTimingSnapshot { dot_position: 113, stat_line_was_high: false, window_line_counter: 143 };
    let b = s.to_bytes();
    assert_eq!(b, vec![113, 0, 143]);
    let d = PpuTimingSnapshot::from_bytes(&b).unwrap();
    assert_eq!((d.dot_position, d.stat_line_was_high, d.window_line_counter), (113, false, 143));
    // Any non-zero byte reads as a set flag.
    assert!(PpuTimingSnapshot::from_bytes(&[0, 7, 0]).unwrap().stat_line_was_high);
}

#[test]
fn timer_snapshot_is_little_endian() {
    let s = TimerSnapshot { internal_counter: 0xABCD, overflow_pending: true, reloading: false };
    let b = s.to_bytes();
    assert_eq!(b, vec![0xCD, 0xAB, 1, 0]);
    let d = TimerSnapshot::from_bytes(&b).unwrap();
    assert_eq!((d.internal_counter, d.overflow_pending, d.reloading), (0xABCD, true, false));
    assert!(TimerSnapshot::from_bytes(&b[..3]).is_none());
}

#[test]
fn dma_and_serial_snapshots_round_trip() {
    let s = DmaSnapshot { active: true, source: 0xC100, byte_index: 7, delay_remaining: 2 };
    let b = s.to_bytes();
    assert_eq!(b, vec![1, 0x00, 0xC1, 7, 2]);
    let d = DmaSnapshot::from_bytes(&b).unwrap();
    assert_eq!((d.active, d.source, d.byte_index, d.delay_remaining), (true, 0xC100, 7, 2));

    let s = SerialSnapshot { bits_remaining: 5, shift_clock: true };
    let b = s.to_bytes();
    assert_eq!(b, vec![5, 1]);
    let d = SerialSnapshot::from_bytes(&b).unwrap();
    assert_eq!((d.bits_remaining, d.shift_clock), (5, true));
    assert!(SerialSnapshot::from_bytes(&[5]).is_none());
}

#[test]
fn apu_snapshot_round_trip() {
    let s = ApuSnapshot {
        frame_sequencer_step: 3,
        prev_div_apu_bit: true,
        ch1_period: 0x0123,
        ch1_envelope_timer: 4,
        ch1_sweep_timer: 5,
        ch1_sweep_enabled: true,
        ch1_sweep_negate_used: false,
        ch1_length_enabled: true,
        ch2_period: 0x0456,
        ch2_envelope_timer: 6,
        ch2_length_enabled: false,
        ch3_period: 0x0789,
        ch3_length_enabled: true,
        ch4_envelope_timer: 7,
        ch4_length_enabled: true,
    };
    let b = s.to_bytes();
    assert_eq!(b.len(), 18);
    assert_eq!(&b[..4], &[3, 1, 0x23, 0x01]);
    assert!(ApuSnapshot::from_bytes(&b[..17]).is_none());
    let d = ApuSnapshot::from_bytes(&b).unwrap();
    assert_eq!(d.ch1_period, 0x0123);
    assert_eq!(d.ch2_period, 0x0456);
    assert_eq!(d.ch3_period, 0x0789);
    assert_eq!(d.ch4_envelope_timer, 7);
    assert!(d.ch4_length_enabled && !d.ch2_length_enabled && d.ch1_sweep_enabled);
}

#[test]
fn mbc_snapshot_round_trip() {
    let s = MbcSnapshot { mbc_type: "MBC1".into(), rom_bank: 0x0102, ram_bank: 3, ram_enabled: true, mode: 1 };
    let b = s.to_bytes();
    assert_eq!(b, vec![4, b'M', b'B', b'C', b'1', 0x02, 0x01, 3, 1, 1]);
    let d = MbcSnapshot::from_bytes(&b).unwrap();
    assert_eq!(d.mbc_type, "MBC1");
    assert_eq!((d.rom_bank, d.ram_bank, d.ram_enabled, d.mode), (0x0102, 3, true, 1));
    assert!(MbcSnapshot::from_bytes(&[]).is_none());
    assert!(MbcSnapshot::from_bytes(&b[..9]).is_none());
    // A name that is not UTF-8 is refused.
    assert!(MbcSnapshot::from_bytes(&[1, 0xFF, 0, 0, 0, 0, 0]).is_none());
}

#[test]
fn memory_snapshot_regions() {
    let payload = [2u8, 0x00, 0xC0, 2, 0, 0xAA, 0xBB, 0x10, 0xFF, 1, 0, 0x77];
    let regions = parse_memory_snapshot(&payload).unwrap();
    assert_eq!(regions.len(), 2);
    assert_eq!(regions[0].start, 0xC000);
    assert_eq!(regions[0].data, vec![0xAA, 0xBB]);
    assert_eq!(regions[1].start, 0xFF10);
    assert_eq!(regions[1].data, vec![0x77]);
    assert!(parse_memory_snapshot(&[]).is_none());
    // A region running past the payload.
    assert!(parse_memory_snapshot(&[1, 0, 0, 5, 0, 1, 2]).is_none());
    // No regions.
    assert_eq!(parse_memory_snapshot(&[0]).unwrap().len(), 0);
}
