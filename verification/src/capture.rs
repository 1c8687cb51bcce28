//! The decisions of a capture run: when to stop driving the emulator, and
//! which stop conditions a step met. The runner steps the emulator and
//! reads the values the decisions need; these functions say what to do
//! with them.
use vstd::prelude::*;

use crate::adapter::StopWhen;

verus! {

/// T-cycles in one DMG/CGB frame: the time budget that bounds a run whose
/// LCD never turns on.
pub const CYCLES_PER_FRAME: u64 = 70224;

/// What bounds a run and what stops it.
pub struct CaptureLimits {
    /// Frame limit.
    pub frames: u32,
    /// Cycle budget: stop after this many T-cycles' worth of frames.
    pub until_tcycle: Option<u64>,
    /// Stop when the opcode at PC is this one.
    pub stop_opcode: Option<u8>,
    /// Stop when this byte is sent over the serial port ...
    pub stop_on_serial: Option<u8>,
    /// ... this many times.
    pub stop_serial_count: u32,
    /// Frames to capture after a stop condition.
    pub extra_frames: u32,
    /// Stop when memory holds (or does not hold) a value.
    pub stop_when: Vec<StopWhen>,
    /// Whether a reference screenshot is compared at each frame.
    pub has_reference: bool,
}

/// The run's state between steps.
#[derive(Clone, Copy)]
pub struct CaptureState {
    pub frame_count: u32,
    pub stop_triggered: bool,
    pub remaining_extra: Option<u32>,
    pub serial_match_count: u32,
    pub prev_sc_high: bool,
    pub total_tcycles: u64,
}

/// Why a run ends.
#[derive(Clone, Copy, PartialEq, Eq, Structural, Debug)]
pub enum StopReason {
    /// The cycle budget's frames were reached.
    FrameBudget,
    /// The frame limit was reached.
    FrameLimit,
    /// The time budget ran out (the LCD is likely off).
    TcycleLimit,
    /// The extra frames after a stop condition were captured.
    ExtraFramesDone,
}

/// What the runner read after a step.
pub struct StepObservation {
    /// Whether the step completed a frame.
    pub new_screen: bool,
    /// T-cycles the step took.
    pub tcycles: u64,
    /// The byte at PC.
    pub opcode_at_pc: u8,
    /// The byte at the address of each memory stop condition, in order.
    pub stop_when_values: Vec<u8>,
    /// The serial control register (0xFF02).
    pub sc: u8,
    /// The serial data register (0xFF01).
    pub sb: u8,
    /// Whether the screen matches the reference screenshot.
    pub reference_match: bool,
}

/// A stop condition a step met.
#[derive(Clone, Copy, PartialEq, Eq, Structural, Debug)]
pub enum StopEvent {
    /// The opcode at PC.
    Opcode,
    /// The memory stop condition at this position.
    Memory(usize),
    /// The serial byte, this many times.
    Serial(u32),
    /// The reference screenshot, at this frame (1-based).
    Reference(u32),
}

/// Frames the cycle budget allows: whole frames of the budget (truncated
/// to 32 bits).
pub open spec fn sample_frames_of(until: Option<u64>) -> Option<u32> {
    match until {
        Some(b) => Some((b / CYCLES_PER_FRAME) as u32),
        None => None,
    }
}

/// The time budget: one frame more than the frame limit, in T-cycles.
pub open spec fn max_tcycles_of(frames: u32) -> u64 {
    ((frames + 1) * CYCLES_PER_FRAME) as u64
}

/// The state at the start of a run: the serial transfer line as the
/// control register shows it (bit 7).
pub open spec fn start_of(sc: u8) -> CaptureState {
    CaptureState {
        frame_count: 0,
        stop_triggered: false,
        remaining_extra: None,
        serial_match_count: 0,
        prev_sc_high: sc & 0x80u8 != 0,
        total_tcycles: 0,
    }
}

/// Why the run stops before the next step, checked in order: the cycle
/// budget's frames, the frame limit, the time budget, the extra frames.
pub open spec fn stop_reason_of(s: CaptureState, l: CaptureLimits) -> Option<StopReason> {
    if sample_frames_of(l.until_tcycle) matches Some(sf) && s.frame_count >= sf {
        Some(StopReason::FrameBudget)
    } else if s.frame_count >= l.frames {
        Some(StopReason::FrameLimit)
    } else if s.total_tcycles >= max_tcycles_of(l.frames) {
        Some(StopReason::TcycleLimit)
    } else if s.remaining_extra == Some(0u32) {
        Some(StopReason::ExtraFramesDone)
    } else {
        None
    }
}

/// The first memory stop condition met, by position.
pub open spec fn first_memory_hit(ws: Seq<StopWhen>, vals: Seq<u8>, n: int) -> Option<int>
    decreases n,
{
    if n <= 0 {
        None
    } else {
        match first_memory_hit(ws, vals, n - 1) {
            Some(i) => Some(i),
            None => if (if ws[n - 1].negate {
                vals[n - 1] != ws[n - 1].value
            } else {
                vals[n - 1] == ws[n - 1].value
            }) {
                Some(n - 1)
            } else {
                None
            },
        }
    }
}

/// The state after the stop conditions of a step, with the events met
/// (while no stop condition has fired yet): the opcode, then the memory
/// conditions (the first met), then the serial byte (counted on each rising
/// transfer line).
pub open spec fn conditions_step(s: CaptureState, l: CaptureLimits, o: StepObservation) -> (CaptureState, Seq<
    StopEvent,
>) {
    if s.stop_triggered {
        (s, Seq::empty())
    } else {
        let s1 = if l.stop_opcode == Some(o.opcode_at_pc) {
            CaptureState { stop_triggered: true, remaining_extra: Some(l.extra_frames), ..s }
        } else {
            s
        };
        let e1: Seq<StopEvent> = if l.stop_opcode == Some(o.opcode_at_pc) {
            seq![StopEvent::Opcode]
        } else {
            Seq::empty()
        };
        let hit = first_memory_hit(l.stop_when@, o.stop_when_values@, l.stop_when@.len() as int);
        let s2 = if hit is Some {
            CaptureState { stop_triggered: true, remaining_extra: Some(l.extra_frames), ..s1 }
        } else {
            s1
        };
        let e2 = match hit {
            Some(i) => e1.push(StopEvent::Memory(i as usize)),
            None => e1,
        };
        match l.stop_on_serial {
            None => (s2, e2),
            Some(byte) => {
                let sc_high = o.sc & 0x80u8 != 0;
                if sc_high && !s2.prev_sc_high && o.sb == byte {
                    let count = (s2.serial_match_count + 1) as u32;
                    if count >= l.stop_serial_count {
                        (
                            CaptureState {
                                serial_match_count: count,
                                stop_triggered: true,
                                remaining_extra: Some(l.extra_frames),
                                prev_sc_high: sc_high,
                                ..s2
                            },
                            e2.push(StopEvent::Serial(count)),
                        )
                    } else {
                        (CaptureState { serial_match_count: count, prev_sc_high: sc_high, ..s2 }, e2)
                    }
                } else {
                    (CaptureState { prev_sc_high: sc_high, ..s2 }, e2)
                }
            },
        }
    }
}

/// The state after a step, with the events met: the time taken counts, the
/// stop conditions are checked, a frame that matches the reference stops
/// the run (and is reported even after another condition), and a completed
/// frame counts and uses up one extra frame.
pub open spec fn step_of(s: CaptureState, l: CaptureLimits, o: StepObservation) -> (CaptureState, Seq<StopEvent>) {
    let s0 = CaptureState { total_tcycles: (s.total_tcycles + o.tcycles) as u64, ..s };
    let c = conditions_step(s0, l, o);
    let matched = o.new_screen && l.has_reference && o.reference_match;
    let s3 = if matched && !c.0.stop_triggered {
        CaptureState { stop_triggered: true, remaining_extra: Some(l.extra_frames), ..c.0 }
    } else {
        c.0
    };
    let e3 = if matched {
        c.1.push(StopEvent::Reference((s.frame_count + 1) as u32))
    } else {
        c.1
    };
    if o.new_screen {
        (
            CaptureState {
                frame_count: (s3.frame_count + 1) as u32,
                remaining_extra: match s3.remaining_extra {
                    Some(r) => Some(if r > 0 {
                        (r - 1) as u32
                    } else {
                        0
                    }),
                    None => None,
                },
                ..s3
            },
            e3,
        )
    } else {
        (s3, e3)
    }
}

/// Frames the cycle budget allows.
pub fn sample_frames(until_tcycle: Option<u64>) -> (r: Option<u32>)
    ensures
        r == sample_frames_of(until_tcycle),
{
    match until_tcycle {
        Some(b) => Some(#[verifier::truncate] ((b / CYCLES_PER_FRAME) as u32)),
        None => None,
    }
}

/// The time budget for a frame limit.
pub fn max_tcycles(frames: u32) -> (r: u64)
    ensures
        r == max_tcycles_of(frames),
{
    let f = (frames as u64) + 1;
    f * CYCLES_PER_FRAME
}

/// The state at the start of a run.
pub fn start_state(sc: u8) -> (r: CaptureState)
    ensures
        r == start_of(sc),
{
    CaptureState {
        frame_count: 0,
        stop_triggered: false,
        remaining_extra: None,
        serial_match_count: 0,
        prev_sc_high: (sc & 0x80) != 0,
        total_tcycles: 0,
    }
}

/// Why the run stops before the next step, if it does.
pub fn stop_reason(s: &CaptureState, l: &CaptureLimits) -> (r: Option<StopReason>)
    ensures
        r == stop_reason_of(*s, *l),
{
    if let Some(sf) = sample_frames(l.until_tcycle) {
        if s.frame_count >= sf {
            return Some(StopReason::FrameBudget);
        }
    }
    if s.frame_count >= l.frames {
        return Some(StopReason::FrameLimit);
    }
    if s.total_tcycles >= max_tcycles(l.frames) {
        return Some(StopReason::TcycleLimit);
    }
    if s.remaining_extra == Some(0u32) {
        return Some(StopReason::ExtraFramesDone);
    }
    None
}

/// The state after a step that did not stop the run before it, with the
/// stop conditions the step met.
pub fn step(s: &CaptureState, l: &CaptureLimits, o: &StepObservation) -> (r: (CaptureState, Vec<StopEvent>))
    requires
        stop_reason_of(*s, *l) is None,
        s.total_tcycles + o.tcycles <= u64::MAX,
        s.serial_match_count < u32::MAX,
        o.stop_when_values@.len() == l.stop_when@.len(),
    ensures
        r.0 == step_of(*s, *l, *o).0,
        r.1@ == step_of(*s, *l, *o).1,
{
    let mut st = *s;
    st.total_tcycles = s.total_tcycles + o.tcycles;
    let ghost s0 = st;
    let mut events: Vec<StopEvent> = Vec::new();
    if !st.stop_triggered {
        if l.stop_opcode == Some(o.opcode_at_pc) {
            st.stop_triggered = true;
            st.remaining_extra = Some(l.extra_frames);
            events.push(StopEvent::Opcode);
        }
        let n = l.stop_when.len();
        let mut i: usize = 0;
        let mut hit: Option<usize> = None;
        while i < n
            invariant_except_break
                i <= n,
                n == l.stop_when@.len(),
                o.stop_when_values@.len() == n,
                hit is None,
                first_memory_hit(l.stop_when@, o.stop_when_values@, i as int) is None,
            ensures
                hit is None ==> first_memory_hit(l.stop_when@, o.stop_when_values@, n as int) is None,
                hit matches Some(h) ==> first_memory_hit(l.stop_when@, o.stop_when_values@, n as int) == Some(
                    h as int,
                ),
            decreases n - i,
        {
            let w = l.stop_when[i];
            let actual = o.stop_when_values[i];
            assert(w == l.stop_when@[i as int]);
            assert(actual == o.stop_when_values@[i as int]);
            let met = if w.negate {
                actual != w.value
            } else {
                actual == w.value
            };
            if met {
                assert(first_memory_hit(l.stop_when@, o.stop_when_values@, i + 1) == Some(i as int));
                proof {
                    lemma_first_hit_stable(l.stop_when@, o.stop_when_values@, i + 1, n as int);
                }
                hit = Some(i);
                break;
            }
            i += 1;
        }
        if let Some(h) = hit {
            st.stop_triggered = true;
            st.remaining_extra = Some(l.extra_frames);
            events.push(StopEvent::Memory(h));
        }
        if let Some(byte) = l.stop_on_serial {
            let sc_high = (o.sc & 0x80) != 0;
            if sc_high && !st.prev_sc_high && o.sb == byte {
                st.serial_match_count = st.serial_match_count + 1;
                if st.serial_match_count >= l.stop_serial_count {
                    st.stop_triggered = true;
                    st.remaining_extra = Some(l.extra_frames);
                    events.push(StopEvent::Serial(st.serial_match_count));
                }
            }
            st.prev_sc_high = sc_high;
        }
    }
    assert(st == conditions_step(s0, *l, *o).0);
    assert(events@ =~= conditions_step(s0, *l, *o).1);
    let matched = o.new_screen && l.has_reference && o.reference_match;
    if matched {
        if !st.stop_triggered {
            st.stop_triggered = true;
            st.remaining_extra = Some(l.extra_frames);
        }
        events.push(StopEvent::Reference(s.frame_count + 1));
    }
    if o.new_screen {
        st.frame_count = st.frame_count + 1;
        st.remaining_extra = match st.remaining_extra {
            Some(r) => Some(
                if r > 0 {
                    r - 1
                } else {
                    0
                },
            ),
            None => None,
        };
    }
    (st, events)
}

proof fn lemma_first_hit_stable(ws: Seq<StopWhen>, vals: Seq<u8>, n: int, m: int)
    requires
        n <= m,
        first_memory_hit(ws, vals, n) is Some,
    ensures
        first_memory_hit(ws, vals, m) == first_memory_hit(ws, vals, n),
    decreases m - n,
{
    if m > n {
        lemma_first_hit_stable(ws, vals, n, m - 1);
    }
}

/// Once a stop condition has fired it stays fired, and the extra frames
/// left never grow; each step that completes a frame counts it.
pub proof fn law_stop_is_final(s: CaptureState, l: CaptureLimits, o: StepObservation)
    requires
        s.stop_triggered,
        s.remaining_extra is Some,
        s.frame_count < u32::MAX,
    ensures
        step_of(s, l, o).0.stop_triggered,
        step_of(s, l, o).0.remaining_extra matches Some(r) && r <= s.remaining_extra.unwrap(),
        step_of(s, l, o).0.frame_count == s.frame_count + (if o.new_screen {
            1int
        } else {
            0int
        }),
{
}

} // verus!
