//! Editing a trace entry by entry: stripping the boot ROM part, and
//! trimming at the first entry that meets a condition. Each edit is a
//! state machine that takes one entry at a time and says what to write;
//! the functions over a whole list of entries run it and state the result.
use vstd::prelude::*;

use crate::diff::{boot_end, pc_of};
use crate::entry::{entries_view, value_u64, FieldValue, FieldValueView, TraceEntry};
use crate::query::{entry_eval, entry_shifts_ok, Condition, ConditionEvaluator};

verus! {

/// An entry's numeric `cy`, when it has one.
pub open spec fn cy_opt(e: Map<Seq<char>, FieldValueView>) -> Option<u64> {
    if e.contains_key("cy"@) {
        value_u64(e["cy"@])
    } else {
        None
    }
}

/// An entry with its cycle counted from `base` (unchanged without a
/// numeric `cy` or a base).
pub open spec fn rebased_entry(e: Map<Seq<char>, FieldValueView>, base: Option<u64>) -> Map<
    Seq<char>,
    FieldValueView,
> {
    match (cy_opt(e), base) {
        (Some(cy), Some(b)) => e.insert("cy"@, FieldValueView::Number((cy - b) as u64)),
        _ => e,
    }
}

/// The cycle base of a trace whose boot part ends at `b`: the first kept
/// entry's cycle.
pub open spec fn boot_base(es: Seq<Map<Seq<char>, FieldValueView>>) -> Option<u64> {
    let b = boot_end(es, 0);
    if b < es.len() {
        cy_opt(es[b as int])
    } else {
        None
    }
}

/// A trace without its boot part: the entries from the first at pc 0x0100,
/// each with its cycle counted from that entry's (none when no entry is at
/// 0x0100).
pub open spec fn stripped(es: Seq<Map<Seq<char>, FieldValueView>>) -> Seq<Map<Seq<char>, FieldValueView>> {
    let b = boot_end(es, 0);
    Seq::new((es.len() - b) as nat, |k: int| rebased_entry(es[b + k], boot_base(es)))
}

/// Whether stripping a trace counts no cycle below its base.
pub open spec fn strip_ok(es: Seq<Map<Seq<char>, FieldValueView>>) -> bool {
    let b = boot_end(es, 0);
    forall|k: int|
        b <= k < es.len() ==> match (cy_opt(#[trigger] es[k]), boot_base(es)) {
            (Some(cy), Some(base)) => cy >= base,
            _ => true,
        }
}

/// The state of boot stripping: whether entries are still being skipped,
/// the cycle base once found, and the entries skipped and written.
pub struct BootStripper {
    skipping: bool,
    cy_base: Option<u64>,
    skipped: u64,
    written: u64,
}

impl BootStripper {
    /// Whether entries are still being skipped.
    pub closed spec fn is_skipping(&self) -> bool {
        self.skipping
    }

    /// The cycle base, once the first entry at 0x0100 is met.
    pub closed spec fn base(&self) -> Option<u64> {
        self.cy_base
    }

    /// Entries skipped so far.
    pub closed spec fn skipped_count(&self) -> u64 {
        self.skipped
    }

    /// Entries written so far.
    pub closed spec fn written_count(&self) -> u64 {
        self.written
    }

    pub fn new() -> (r: BootStripper)
        ensures
            r.is_skipping(),
            r.base() is None,
            r.skipped_count() == 0,
            r.written_count() == 0,
    {
        BootStripper { skipping: true, cy_base: None, skipped: 0, written: 0 }
    }

    /// Take the next entry: skip it while no entry at pc 0x0100 has been
    /// met; else give it back with its cycle counted from that entry's.
    pub fn step(&mut self, entry: TraceEntry) -> (r: Option<TraceEntry>)
        requires
            old(self).skipped_count() < u64::MAX,
            old(self).written_count() < u64::MAX,
            ({
                let base = if old(self).is_skipping() {
                    cy_opt(entry@)
                } else {
                    old(self).base()
                };
                (old(self).is_skipping() && pc_of(entry@) != Some(0x0100u16)) || match (cy_opt(entry@), base) {
                    (Some(cy), Some(b)) => cy >= b,
                    _ => true,
                }
            }),
        ensures
            if old(self).is_skipping() && pc_of(entry@) != Some(0x0100u16) {
                &&& r is None
                &&& final(self).is_skipping()
                &&& final(self).base() == old(self).base()
                &&& final(self).skipped_count() == old(self).skipped_count() + 1
                &&& final(self).written_count() == old(self).written_count()
            } else {
                let base = if old(self).is_skipping() {
                    cy_opt(entry@)
                } else {
                    old(self).base()
                };
                &&& r matches Some(e) && e@ == rebased_entry(entry@, base)
                &&& !final(self).is_skipping()
                &&& final(self).base() == base
                &&& final(self).skipped_count() == old(self).skipped_count()
                &&& final(self).written_count() == old(self).written_count() + 1
            },
    {
        let mut entry = entry;
        if self.skipping {
            let at_start = match entry.get_u16("pc") {
                Some(p) => p == 0x0100u16,
                None => false,
            };
            if at_start {
                self.skipping = false;
                self.cy_base = entry.cy();
            } else {
                self.skipped = self.skipped + 1;
                return None;
            }
        }
        match (entry.cy(), self.cy_base) {
            (Some(cy), Some(base)) => {
                entry.set_cy(cy - base);
            },
            _ => {},
        }
        self.written = self.written + 1;
        Some(entry)
    }

    /// Whether no entry at pc 0x0100 has been met yet.
    pub fn still_skipping(&self) -> (r: bool)
        ensures
            r == self.is_skipping(),
    {
        self.skipping
    }

    /// The entries skipped so far.
    pub fn skipped(&self) -> (r: u64)
        ensures
            r == self.skipped_count(),
    {
        self.skipped
    }

    /// The entries written so far.
    pub fn written(&self) -> (r: u64)
        ensures
            r == self.written_count(),
    {
        self.written
    }
}

proof fn lemma_boot_end_skip(es: Seq<Map<Seq<char>, FieldValueView>>, i: nat)
    requires
        i <= es.len(),
        forall|k: int| 0 <= k < i ==> pc_of(#[trigger] es[k]) != Some(0x0100u16),
    ensures
        boot_end(es, 0) == boot_end(es, i),
    decreases i,
{
    if i > 0 {
        lemma_boot_end_skip(es, (i - 1) as nat);
    }
}

proof fn lemma_boot_end_at(es: Seq<Map<Seq<char>, FieldValueView>>, i: nat)
    requires
        i <= es.len(),
    ensures
        i <= boot_end(es, i) <= es.len(),
        boot_end(es, i) < es.len() ==> pc_of(es[boot_end(es, i) as int]) == Some(0x0100u16),
        forall|k: int| i <= k < boot_end(es, i) ==> pc_of(#[trigger] es[k]) != Some(0x0100u16),
    decreases es.len() - i,
{
    if i < es.len() && pc_of(es[i as int]) != Some(0x0100u16) {
        lemma_boot_end_at(es, i + 1);
    }
}

/// Strip the boot part of a trace: the entries from the first at pc 0x0100,
/// each with its cycle counted from that entry's; and the number skipped.
pub fn strip_boot(entries: Vec<TraceEntry>) -> (r: (Vec<TraceEntry>, u64))
    requires
        entries@.len() < u64::MAX,
        strip_ok(entries_view(entries@)),
    ensures
        entries_view(r.0@) == stripped(entries_view(entries@)),
        r.1 == boot_end(entries_view(entries@), 0),
{
    let ghost es = entries_view(entries@);
    proof {
        lemma_boot_end_at(es, 0);
    }
    let ghost b = boot_end(es, 0);
    let mut s = BootStripper::new();
    let mut out: Vec<TraceEntry> = Vec::new();
    let mut i: usize = 0;
    while i < entries.len()
        invariant
            i <= entries@.len(),
            entries@.len() < u64::MAX,
            es == entries_view(entries@),
            b == boot_end(es, 0),
            b <= es.len(),
            b < es.len() ==> pc_of(es[b as int]) == Some(0x0100u16),
            forall|k: int| 0 <= k < b ==> pc_of(#[trigger] es[k]) != Some(0x0100u16),
            strip_ok(es),
            s.is_skipping() == (i <= b),
            s.skipped_count() == (if i <= b {
                i as int
            } else {
                b as int
            }),
            s.written_count() == out@.len(),
            !s.is_skipping() ==> s.base() == boot_base(es),
            out@.len() == (if i <= b {
                0
            } else {
                i - b
            }),
            forall|k: int| 0 <= k < out@.len() ==> (#[trigger] out@[k])@ == rebased_entry(es[b + k], boot_base(es)),
        decreases entries@.len() - i,
    {
        let e = entries[i].duplicate();
        assert(e@ == es[i as int]);
        proof {
            if i >= b {
                assert(b <= i < es.len());
                assert(match (cy_opt(es[i as int]), boot_base(es)) {
                    (Some(cy), Some(base)) => cy >= base,
                    _ => true,
                });
            }
        }
        let ghost before = out@;
        match s.step(e) {
            Some(x) => {
                out.push(x);
                assert forall|k: int| 0 <= k < out@.len() implies (#[trigger] out@[k])@ == rebased_entry(
                    es[b + k],
                    boot_base(es),
                ) by {
                    if k < before.len() {
                        assert(out@[k] == before[k]);
                    }
                }
            },
            None => {},
        }
        i += 1;
    }
    assert(entries_view(out@) =~= stripped(es));
    let skipped = s.skipped();
    (out, skipped)
}

// ---------------------------------------------------------------------------
// Trimming
// ---------------------------------------------------------------------------

/// Whether the shifts of evaluating a condition on entry `k` of a trace,
/// read after entry `k - 1`, are by less than 8.
pub open spec fn shifts_ok_at(c: Condition, es: Seq<Map<Seq<char>, FieldValueView>>, k: int) -> bool {
    entry_shifts_ok(c, es[k], if k > 0 {
        Some(es[k - 1])
    } else {
        None
    })
}

/// Whether the shifts of evaluating a condition on each entry up to the
/// first that meets it are by less than 8.
pub open spec fn shifts_ok_until_met(c: Condition, es: Seq<Map<Seq<char>, FieldValueView>>) -> bool {
    forall|k: int|
        0 <= k < es.len() && (first_meeting(c, es, 0) matches Some(m) ==> k <= m) ==> #[trigger] shifts_ok_at(
            c,
            es,
            k,
        )
}

/// Whether entry `k` of a trace meets a condition, read after entry `k - 1`.
pub open spec fn meets(c: Condition, es: Seq<Map<Seq<char>, FieldValueView>>, k: int) -> bool {
    entry_eval(c, es[k], if k > 0 {
        Some(es[k - 1])
    } else {
        None
    })
}

/// The first entry from `i` on that meets a condition.
pub open spec fn first_meeting(c: Condition, es: Seq<Map<Seq<char>, FieldValueView>>, i: int) -> Option<int>
    decreases es.len() - i,
{
    if i < 0 || i >= es.len() {
        None
    } else if meets(c, es, i) {
        Some(i)
    } else {
        first_meeting(c, es, i + 1)
    }
}

/// A trimmed trace: with `keep_before`, the entries up to and including
/// the first that meets the condition (all when none does); else the
/// entries from it on (none when none does).
pub open spec fn trimmed(c: Condition, es: Seq<Map<Seq<char>, FieldValueView>>, keep_before: bool) -> Seq<
    Map<Seq<char>, FieldValueView>,
> {
    match first_meeting(c, es, 0) {
        Some(k) => if keep_before {
            es.take(k + 1)
        } else {
            es.skip(k)
        },
        None => if keep_before {
            es
        } else {
            Seq::empty()
        },
    }
}

/// What trimming does with one entry: whether to write it, and whether it
/// is the first that meets the condition.
pub struct TrimStep {
    pub write: bool,
    pub matched: bool,
}

/// The state of trimming: the condition's evaluator, whether entries up to
/// (or from) the first match are kept, and whether it has been met.
pub struct Trimmer {
    evaluator: ConditionEvaluator,
    keep_before: bool,
    found_match: bool,
}

impl Trimmer {
    /// The trimming condition.
    pub closed spec fn condition(&self) -> Condition {
        self.evaluator.condition()
    }

    /// The entry evaluated last.
    pub closed spec fn previous(&self) -> Option<Map<Seq<char>, FieldValueView>> {
        self.evaluator.previous()
    }

    /// Whether the entries up to the first match are kept.
    pub closed spec fn keeps_before(&self) -> bool {
        self.keep_before
    }

    /// Whether the condition has been met.
    pub closed spec fn found(&self) -> bool {
        self.found_match
    }

    pub fn new(condition: Condition, keep_before: bool) -> (r: Trimmer)
        ensures
            r.condition() == condition,
            r.previous() is None,
            r.keeps_before() == keep_before,
            !r.found(),
    {
        Trimmer { evaluator: ConditionEvaluator::new(condition), keep_before, found_match: false }
    }

    /// Take the next entry. Until the condition is met, each entry is
    /// evaluated; with `keep_before` entries are written up to and
    /// including the first match, else from it on.
    pub fn step(&mut self, entry: &TraceEntry) -> (r: TrimStep)
        requires
            !old(self).found() ==> entry_shifts_ok(old(self).condition(), entry@, old(self).previous()),
        ensures
            final(self).condition() == old(self).condition(),
            final(self).keeps_before() == old(self).keeps_before(),
            r.matched == (!old(self).found() && entry_eval(old(self).condition(), entry@, old(self).previous())),
            final(self).found() == (old(self).found() || r.matched),
            !old(self).found() ==> final(self).previous() == Some(entry@),
            old(self).found() ==> final(self).previous() == old(self).previous(),
            r.write == (if old(self).keeps_before() {
                !old(self).found()
            } else {
                final(self).found()
            }),
    {
        let is_match = !self.found_match && self.evaluator.evaluate(entry);
        if is_match {
            self.found_match = true;
        }
        let write = if self.keep_before {
            !(self.found_match && !is_match)
        } else {
            self.found_match
        };
        TrimStep { write, matched: is_match }
    }
}

/// Trim a trace at the first entry that meets a condition: keep the
/// entries up to and including it (`keep_before`), or from it on; and the
/// position of that entry.
pub fn trim(entries: &Vec<TraceEntry>, condition: Condition, keep_before: bool) -> (r: (Vec<TraceEntry>, Option<usize>))
    requires
        shifts_ok_until_met(condition, entries_view(entries@)),
    ensures
        entries_view(r.0@) == trimmed(condition, entries_view(entries@), keep_before),
        match first_meeting(condition, entries_view(entries@), 0) {
            Some(k) => r.1 == Some(k as usize),
            None => r.1 is None,
        },
{
    let ghost es = entries_view(entries@);
    let ghost c = condition;
    let mut t = Trimmer::new(condition, keep_before);
    let mut out: Vec<TraceEntry> = Vec::new();
    let mut first: Option<usize> = None;
    let mut i: usize = 0;
    while i < entries.len()
        invariant
            i <= entries@.len(),
            es == entries_view(entries@),
            shifts_ok_until_met(c, es),
            t.condition() == c,
            t.keeps_before() == keep_before,
            t.found() == (first is Some),
            first matches Some(k) ==> k < i && first_meeting(c, es, 0) == Some(k as int),
            first is None ==> first_meeting(c, es, 0) == first_meeting(c, es, i as int),
            first is None ==> (t.previous() == if i > 0 {
                Some(es[i - 1])
            } else {
                None
            }),
            entries_view(out@) == (match first {
                Some(k) => if keep_before {
                    es.take(k + 1)
                } else {
                    es.subrange(k as int, i as int)
                },
                None => if keep_before {
                    es.take(i as int)
                } else {
                    Seq::empty()
                },
            }),
        decreases entries@.len() - i,
    {
        proof {
            if first is None {
                lemma_first_meeting_bound(c, es, i as int);
                assert(shifts_ok_at(c, es, i as int));
            }
        }
        let st = t.step(&entries[i]);
        assert(entries@[i as int]@ == es[i as int]);
        let ghost before = out@;
        if st.write {
            let d = entries[i].duplicate();
            assert(d@ == es[i as int]);
            out.push(d);
            assert(entries_view(out@) =~= entries_view(before).push(es[i as int]));
        }
        if st.matched {
            first = Some(i);
        }
        proof {
            match first {
                Some(k) => {
                    if k == i {
                        assert(meets(c, es, i as int));
                    }
                    if keep_before {
                        if k == i {
                            assert(entries_view(out@) =~= es.take(k + 1));
                        } else {
                            assert(entries_view(out@) =~= entries_view(before));
                        }
                    } else {
                        assert(entries_view(out@) =~= es.subrange(k as int, i + 1));
                    }
                },
                None => {
                    assert(!meets(c, es, i as int));
                    if keep_before {
                        assert(entries_view(out@) =~= es.take(i + 1));
                    } else {
                        assert(entries_view(out@) =~= Seq::<Map<Seq<char>, FieldValueView>>::empty());
                    }
                },
            }
        }
        i += 1;
    }
    proof {
        assert(first_meeting(c, es, entries@.len() as int) is None);
        if let Some(k) = first {
            assert(es.subrange(k as int, es.len() as int) =~= es.skip(k as int));
        } else {
            assert(es.take(es.len() as int) =~= es);
        }
    }
    (out, first)
}

/// Along a trace, whether an entry meets a condition (and which shifts its
/// evaluation runs) depends only on that entry and the one before it.
pub proof fn law_meets_is_local(
    c: Condition,
    es1: Seq<Map<Seq<char>, FieldValueView>>,
    k1: int,
    es2: Seq<Map<Seq<char>, FieldValueView>>,
    k2: int,
)
    requires
        0 <= k1 < es1.len(),
        0 <= k2 < es2.len(),
        es1[k1] == es2[k2],
        (k1 > 0) == (k2 > 0),
        k1 > 0 ==> es1[k1 - 1] == es2[k2 - 1],
    ensures
        meets(c, es1, k1) == meets(c, es2, k2),
        shifts_ok_at(c, es1, k1) == shifts_ok_at(c, es2, k2),
{
}

/// Trimming the same trace at the same condition both ways splits it at
/// the first match: the entries kept up to the match, followed by those
/// kept from it on without the match itself, are the whole trace.
pub proof fn law_trim_partition(c: Condition, es: Seq<Map<Seq<char>, FieldValueView>>)
    requires
        first_meeting(c, es, 0) is Some,
    ensures
        trimmed(c, es, true) + trimmed(c, es, false).drop_first() == es,
        trimmed(c, es, true).last() == trimmed(c, es, false)[0],
{
    let k = first_meeting(c, es, 0)->0;
    lemma_first_meeting_bound(c, es, 0);
    assert(es.take(k + 1) + es.skip(k).drop_first() =~= es);
}

proof fn lemma_first_meeting_bound(c: Condition, es: Seq<Map<Seq<char>, FieldValueView>>, i: int)
    requires
        0 <= i,
    ensures
        first_meeting(c, es, i) matches Some(k) ==> i <= k < es.len() && meets(c, es, k),
    decreases es.len() - i,
{
    if i < es.len() && !meets(c, es, i) {
        lemma_first_meeting_bound(c, es, i + 1);
    }
}

} // verus!
