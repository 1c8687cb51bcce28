use gbtrace::edit::{strip_boot, trim, BootStripper, Trimmer};
use gbtrace::entry::{FieldValue, TraceEntry};
use gbtrace::query::parse_condition;

fn entry(cy: u64, pc: u16) -> TraceEntry {
    let mut e = TraceEntry::new();
    e.set_cy(cy);
    e.set("pc", FieldValue::Number(pc as u64));
    e
}

fn cys(es: &[TraceEntry]) -> Vec<u64> {
    es.iter().map(|e| e.cy().unwrap()).collect()
}

#[test]
fn strip_boot_keeps_post_boot_entries_rebased() {
    let es = vec![entry(0, 0x0), entry(10, 0x50), entry(20, 0x100), entry(24, 0x101), entry(30, 0x0)];
    let (out, skipped) = strip_boot(es);
    assert_eq!(skipped, 2);
    assert_eq!(cys(&out), vec![0, 4, 10]);
    assert_eq!(out[1].get_u16("pc"), Some(0x101));
}

#[test]
fn strip_boot_without_boot_end_keeps_nothing() {
    let (out, skipped) = strip_boot(vec![entry(0, 1), entry(4, 2)]);
    assert!(out.is_empty());
    assert_eq!(skipped, 2);
}

#[test]
fn boot_stripper_steps() {
    let mut s = BootStripper::new();
    assert!(s.step(entry(5, 0x10)).is_none());
    assert!(s.still_skipping());
    let e = s.step(entry(8, 0x100)).unwrap();
    assert_eq!(e.cy(), Some(0));
    let e = s.step(entry(12, 0x7)).unwrap();
    assert_eq!(e.cy(), Some(4));
    assert_eq!((s.skipped(), s.written(), s.still_skipping()), (1, 2, false));
    // An entry without a cycle count passes unchanged.
    let mut bare = TraceEntry::new();
    bare.set("x", FieldValue::Bool(true));
    assert!(s.step(bare).unwrap().cy().is_none());
}

#[test]
fn trim_until_and_after() {
    let es: Vec<TraceEntry> = (0..6u16).map(|i| entry(i as u64 * 4, 0x100 + i)).collect();
    let cond = parse_condition("pc=0x0103").unwrap();
    let (until, at) = trim(&es, cond, true);
    assert_eq!(at, Some(3));
    assert_eq!(cys(&until), vec![0, 4, 8, 12]);
    let cond = parse_condition("pc=0x0103").unwrap();
    let (after, _) = trim(&es, cond, false);
    assert_eq!(cys(&after), vec![12, 16, 20]);
    // Never met: everything up to, nothing from.
    let (until, at) = trim(&es, parse_condition("pc=0x0999").unwrap(), true);
    assert_eq!((until.len(), at), (6, None));
    let (after, _) = trim(&es, parse_condition("pc=0x0999").unwrap(), false);
    assert!(after.is_empty());
}

#[test]
fn trimmer_uses_the_previous_entry() {
    let es: Vec<TraceEntry> = [1u16, 1, 2, 2, 3].iter().enumerate().map(|(i, pc)| entry(i as u64, *pc)).collect();
    let mut t = Trimmer::new(parse_condition("pc changes from 1").unwrap(), false);
    let steps: Vec<(bool, bool)> = es.iter().map(|e| {
        let s = t.step(e);
        (s.write, s.matched)
    }).collect();
    assert_eq!(steps, vec![(false, false), (false, false), (true, true), (true, false), (true, false)]);
}

#[test]
fn a_change_matches_the_first_entry() {
    // With no entry before it, the first entry's field counts as changed.
    let es: Vec<TraceEntry> = [1u16, 1, 2].iter().enumerate().map(|(i, pc)| entry(i as u64, *pc)).collect();
    let (until, at) = trim(&es, parse_condition("pc changes").unwrap(), true);
    assert_eq!((until.len(), at), (1, Some(0)));
}

#[test]
fn trimming_both_ways_splits_the_trace() {
    let es: Vec<TraceEntry> = (0..7u16).map(|i| entry(i as u64, 0x200 + i)).collect();
    let (until, _) = trim(&es, parse_condition("pc=0x0204").unwrap(), true);
    let (after, _) = trim(&es, parse_condition("pc=0x0204").unwrap(), false);
    let mut joined = cys(&until);
    joined.extend(cys(&after[1..]));
    assert_eq!(joined, cys(&es));
    assert_eq!(until.last().unwrap().cy(), after[0].cy());
}
