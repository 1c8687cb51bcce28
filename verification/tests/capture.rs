use gbtrace::adapter::StopWhen;
use gbtrace::capture::{
    max_tcycles, sample_frames, start_state, step, stop_reason, CaptureLimits, StepObservation, StopEvent, StopReason,
};

fn limits() -> CaptureLimits {
    CaptureLimits {
        frames: 3,
        until_tcycle: None,
        stop_opcode: Some(0x40),
        stop_on_serial: Some(0x0A),
        stop_serial_count: 2,
        extra_frames: 1,
        stop_when: vec![StopWhen { addr: 0xFF82, value: 1, negate: false }],
        has_reference: false,
    }
}

fn obs(new_screen: bool, opcode: u8, mem: u8, sc: u8, sb: u8) -> StepObservation {
    StepObservation {
        new_screen,
        tcycles: 4,
        opcode_at_pc: opcode,
        stop_when_values: vec![mem],
        sc,
        sb,
        reference_match: false,
    }
}

#[test]
fn budgets() {
    assert_eq!(sample_frames(Some(70224 * 5 + 3)), Some(5));
    assert_eq!(sample_frames(None), None);
    assert_eq!(max_tcycles(3), 4 * 70224);
    let s = start_state(0x80);
    assert!(s.prev_sc_high);
    assert_eq!(stop_reason(&s, &limits()), None);
}

#[test]
fn frames_count_and_limit_the_run() {
    let l = limits();
    let mut s = start_state(0);
    for _ in 0..3 {
        let (n, ev) = step(&s, &l, &obs(true, 0, 0, 0, 0));
        assert!(ev.is_empty());
        s = n;
    }
    assert_eq!(s.frame_count, 3);
    assert_eq!(s.total_tcycles, 12);
    assert_eq!(stop_reason(&s, &l), Some(StopReason::FrameLimit));
}

#[test]
fn stop_conditions_then_extra_frames() {
    let l = limits();
    let s = start_state(0);
    let (s, ev) = step(&s, &l, &obs(false, 0x40, 0, 0, 0));
    assert_eq!(ev, vec![StopEvent::Opcode]);
    assert!(s.stop_triggered);
    assert_eq!(s.remaining_extra, Some(1));
    // Conditions are not checked again once one has fired.
    let (s, ev) = step(&s, &l, &obs(true, 0x40, 1, 0, 0));
    assert!(ev.is_empty());
    assert_eq!(s.remaining_extra, Some(0));
    assert_eq!(stop_reason(&s, &l), Some(StopReason::ExtraFramesDone));
}

#[test]
fn memory_and_serial_conditions() {
    let l = limits();
    let (s, ev) = step(&start_state(0), &l, &obs(false, 0, 1, 0, 0));
    assert_eq!(ev, vec![StopEvent::Memory(0)]);
    assert!(s.stop_triggered);

    // The serial byte counts on each rising transfer line.
    let s = start_state(0);
    let (s, ev) = step(&s, &l, &obs(false, 0, 0, 0x80, 0x0A));
    assert!(ev.is_empty());
    assert_eq!(s.serial_match_count, 1);
    let (s, _) = step(&s, &l, &obs(false, 0, 0, 0x80, 0x0A));
    assert_eq!(s.serial_match_count, 1);
    let (s, _) = step(&s, &l, &obs(false, 0, 0, 0x00, 0x0A));
    let (s, ev) = step(&s, &l, &obs(false, 0, 0, 0x81, 0x0A));
    assert_eq!(ev, vec![StopEvent::Serial(2)]);
    assert!(s.stop_triggered);
}

#[test]
fn reference_matches_are_reported_at_frames() {
    let mut l = limits();
    l.has_reference = true;
    let mut o = obs(true, 0, 0, 0, 0);
    o.reference_match = true;
    let (s, ev) = step(&start_state(0), &l, &o);
    assert_eq!(ev, vec![StopEvent::Reference(1)]);
    assert!(s.stop_triggered);
    assert_eq!(s.remaining_extra, Some(0));
}
