use gbtrace::diff::{
    align_cycle, align_sequence, classify, compute_field_divergences, divergent_fields, divergent_rows,
    group_divergence_ranges, is_divergent, AlignmentStrategy, DiffConfig, DivergenceClass, FieldDivergence, MergedRow,
    TraceDiffer,
};
use gbtrace::entry::FieldValue;

fn num(v: u64) -> Option<FieldValue> {
    Some(FieldValue::Number(v))
}

fn row(cy: u64, vals: &[u64]) -> (u64, Vec<Option<FieldValue>>) {
    (cy, vals.iter().map(|v| num(*v)).collect())
}

fn divergence(field: &str, first_index: u64) -> FieldDivergence {
    FieldDivergence {
        field: field.into(),
        count: 1,
        first_index,
        first_val_a: FieldValue::Null,
        first_val_b: FieldValue::Null,
    }
}

fn merged(index: u64, a: &[u64], b: &[u64]) -> MergedRow {
    MergedRow {
        index,
        vals_a: a.iter().map(|v| num(*v)).collect(),
        vals_b: b.iter().map(|v| num(*v)).collect(),
    }
}

#[test]
fn defaults() {
    let c = DiffConfig::default();
    assert_eq!(c.alignment, AlignmentStrategy::Auto);
    assert_eq!(AlignmentStrategy::default(), AlignmentStrategy::Auto);
    assert_eq!((c.max_regions, c.context, c.skip_boot), (10, 2, false));
    assert!(c.include_fields.is_none() && c.exclude_fields.is_none());
    let d = TraceDiffer::new(c);
    assert_eq!(d.config().context, 2);
}

#[test]
fn class_names() {
    assert_eq!(DivergenceClass::Identical.to_string(), "identical");
    assert_eq!(DivergenceClass::FlagOnly.to_string(), "flag-only");
    assert_eq!(DivergenceClass::ExecutionPathSplit.to_string(), "execution-path-split");
    assert_eq!(DivergenceClass::RegisterDrift.to_string(), "register-drift");
    assert_eq!(DivergenceClass::TimingOnly.to_string(), "timing-only");
    assert_eq!(DivergenceClass::Mixed.to_string(), "mixed");
}

#[test]
fn classification_by_diverging_fields() {
    let none: Vec<String> = vec![];
    assert_eq!(classify(&vec![], &none), DivergenceClass::Identical);
    assert_eq!(classify(&vec![divergence("f", 0), divergence("fz", 1)], &none), DivergenceClass::FlagOnly);
    assert_eq!(classify(&vec![divergence("pc", 0), divergence("a", 1)], &none), DivergenceClass::ExecutionPathSplit);
    assert_eq!(classify(&vec![divergence("a", 0), divergence("f", 1)], &none), DivergenceClass::RegisterDrift);
    assert_eq!(classify(&vec![divergence("op", 0), divergence("a", 1)], &none), DivergenceClass::Mixed);
}

#[test]
fn sequence_alignment_pairs_by_position() {
    let a = vec![row(0, &[1]), row(4, &[2]), row(8, &[3])];
    let b = vec![row(100, &[1]), row(104, &[5])];
    let m = align_sequence(&a, &b);
    assert_eq!(m.len(), 2);
    assert_eq!(m[1].index, 1);
    assert!(matches!(m[1].vals_b[0], Some(FieldValue::Number(5))));
}

#[test]
fn cycle_alignment_is_a_merge_join() {
    let a = vec![row(0, &[1]), row(4, &[2]), row(8, &[3]), row(12, &[4])];
    let b = vec![row(4, &[2]), row(6, &[9]), row(12, &[7])];
    let m = align_cycle(&a, &b);
    let idx: Vec<u64> = m.iter().map(|r| r.index).collect();
    assert_eq!(idx, vec![4, 12]);
    assert!(matches!(m[1].vals_a[0], Some(FieldValue::Number(4))));
    assert!(matches!(m[1].vals_b[0], Some(FieldValue::Number(7))));
}

#[test]
fn divergent_rows_and_fields() {
    let names = vec!["a".to_string(), "f".to_string()];
    let m = vec![merged(0, &[1, 2], &[1, 2]), merged(1, &[1, 2], &[1, 3]), merged(2, &[5, 2], &[1, 3])];
    assert!(!is_divergent(&m[0].vals_a, &m[0].vals_b, 2));
    assert!(is_divergent(&m[1].vals_a, &m[1].vals_b, 2));
    assert!(!is_divergent(&m[1].vals_a, &m[1].vals_b, 1));
    assert_eq!(divergent_fields(&m[2].vals_a, &m[2].vals_b, &names), vec!["a".to_string(), "f".to_string()]);
    assert_eq!(divergent_rows(&m, 2), vec![1, 2]);
    // A missing value differs from a present one.
    assert!(is_divergent(&vec![None], &vec![num(0)], 1));
    assert!(!is_divergent(&vec![None], &vec![None], 1));
}

#[test]
fn divergent_rows_group_into_regions() {
    let m: Vec<MergedRow> = (0..12).map(|i| merged(100 + i, &[0], &[0])).collect();
    let regions = group_divergence_ranges(&m, &vec![1, 2, 4, 8, 11]);
    let got: Vec<(u64, u64, usize)> = regions.iter().map(|r| (r.start_index, r.end_index, r.count)).collect();
    assert_eq!(got, vec![(101, 104, 3), (108, 108, 1), (111, 111, 1)]);
    assert!(group_divergence_ranges(&m, &vec![]).is_empty());
    let total: usize = regions.iter().map(|r| r.count).sum();
    assert_eq!(total, 5);
}

#[test]
fn field_divergences_sorted_by_first_index() {
    let names = vec!["a".to_string(), "f".to_string(), "pc".to_string()];
    let m = vec![
        merged(10, &[1, 1, 5], &[1, 2, 5]),
        merged(11, &[2, 1, 5], &[3, 2, 5]),
        merged(12, &[2, 1, 5], &[3, 1, 5]),
    ];
    let d = compute_field_divergences(&m, &names);
    let got: Vec<(String, u64, u64)> = d.iter().map(|x| (x.field.clone(), x.count, x.first_index)).collect();
    assert_eq!(got, vec![("f".to_string(), 2, 10), ("a".to_string(), 2, 11)]);
    assert!(matches!(d[1].first_val_a, FieldValue::Number(2)));
    assert!(matches!(d[1].first_val_b, FieldValue::Number(3)));
    assert_eq!(classify(&d, &names), DivergenceClass::RegisterDrift);
}

#[test]
fn context_window_around_first_divergence() {
    let names = vec!["a".to_string()];
    let m: Vec<MergedRow> = (0..20).map(|i| merged(i, &[i], &[if i == 6 { 0 } else { i }])).collect();
    let d = TraceDiffer::new(DiffConfig::default());
    let w = d.build_context_window(&m, &names, 6);
    let idx: Vec<u64> = w.iter().map(|e| e.index).collect();
    assert_eq!(idx, vec![4, 5, 6, 7, 8, 9, 10, 11, 12]);
    assert!(w[2].is_divergent);
    assert_eq!(w[2].divergent_fields, vec!["a".to_string()]);
    assert!(!w[0].is_divergent);
    let w = d.build_context_window(&m, &names, 1);
    assert_eq!(w.first().unwrap().index, 0);
    assert_eq!(w.len(), 8);
}
