//! Pairwise trace comparison: alignment of two row sequences, per-field
//! divergence counts, grouping of divergent rows into regions, and a
//! classification of the divergence.
use vstd::prelude::*;

use crate::entry::{entries_view, value_u16, value_u64, FieldValue, FieldValueView, TraceEntry};
use crate::error::Error;
use crate::header::{contains_name, string_texts, TraceHeader};
use crate::names::{opt_texts, select_names, selected, strictly_sorted};
use crate::text::{chars_of, str_eq, string_of};

verus! {

// ---------------------------------------------------------------------------
// Configuration
// ---------------------------------------------------------------------------

/// How to align entries from two traces for comparison.
#[derive(Debug, Clone, Copy, PartialEq, Eq, Structural)]
pub enum AlignmentStrategy {
    /// Merge-join by normalised T-cycle count.
    Cycle,
    /// Match by instruction index (1st vs 1st, 2nd vs 2nd).
    Sequence,
    /// Use Sequence if either trace counts instructions, otherwise Cycle.
    Auto,
}

impl Default for AlignmentStrategy {
    fn default() -> (r: Self)
        ensures
            r == AlignmentStrategy::Auto,
    {
        AlignmentStrategy::Auto
    }
}

impl AlignmentStrategy {
    /// The strategy a name selects: `sequence`, `cycle`, and anything else
    /// `auto`.
    pub fn from_name(s: &str) -> (r: AlignmentStrategy)
        ensures
            r == (if s@ == "sequence"@ {
                AlignmentStrategy::Sequence
            } else if s@ == "cycle"@ {
                AlignmentStrategy::Cycle
            } else {
                AlignmentStrategy::Auto
            }),
    {
        if str_eq(s, "sequence") {
            AlignmentStrategy::Sequence
        } else if str_eq(s, "cycle") {
            AlignmentStrategy::Cycle
        } else {
            AlignmentStrategy::Auto
        }
    }
}

/// Configuration for a trace diff.
#[derive(Debug, Clone)]
pub struct DiffConfig {
    /// Only compare these fields (if `Some`). Applied after intersection.
    pub include_fields: Option<Vec<String>>,
    /// Exclude these fields from comparison.
    pub exclude_fields: Option<Vec<String>>,
    /// Alignment strategy.
    pub alignment: AlignmentStrategy,
    /// Skip boot ROM entries (advance to the first pc=0x0100).
    pub skip_boot: bool,
    /// Max divergence regions to report.
    pub max_regions: usize,
    /// Context entries around the first divergence.
    pub context: usize,
}

impl Default for DiffConfig {
    fn default() -> (r: Self)
        ensures
            r.include_fields is None,
            r.exclude_fields is None,
            r.alignment == AlignmentStrategy::Auto,
            !r.skip_boot,
            r.max_regions == 10,
            r.context == 2,
    {
        DiffConfig {
            include_fields: None,
            exclude_fields: None,
            alignment: AlignmentStrategy::Auto,
            skip_boot: false,
            max_regions: 10,
            context: 2,
        }
    }
}

// ---------------------------------------------------------------------------
// Rows
// ---------------------------------------------------------------------------

/// An optional value's value.
pub open spec fn opt_value(v: Option<FieldValue>) -> Option<FieldValueView> {
    match v {
        Some(x) => Some(x@),
        None => None,
    }
}

/// A row: the values of the compared fields, in field order (`None` for a
/// field the entry lacks).
pub open spec fn row_view(r: Seq<Option<FieldValue>>) -> Seq<Option<FieldValueView>> {
    Seq::new(r.len(), |i: int| opt_value(r[i]))
}

fn same_value(a: &Option<FieldValue>, b: &Option<FieldValue>) -> (r: bool)
    ensures
        r == (opt_value(*a) == opt_value(*b)),
{
    match (a, b) {
        (None, None) => true,
        (Some(x), Some(y)) => x.same_as(y),
        _ => false,
    }
}

fn copy_value(v: &Option<FieldValue>) -> (r: Option<FieldValue>)
    ensures
        opt_value(r) == opt_value(*v),
{
    match v {
        Some(x) => Some(x.duplicate()),
        None => None,
    }
}

fn copy_row(r: &Vec<Option<FieldValue>>) -> (c: Vec<Option<FieldValue>>)
    ensures
        row_view(c@) == row_view(r@),
{
    let mut c: Vec<Option<FieldValue>> = Vec::new();
    let mut i: usize = 0;
    while i < r.len()
        invariant
            i <= r@.len(),
            c@.len() == i,
            forall|k: int| 0 <= k < i ==> opt_value(#[trigger] c@[k]) == opt_value(r@[k]),
        decreases r@.len() - i,
    {
        c.push(copy_value(&r[i]));
        i += 1;
    }
    assert(row_view(c@) =~= row_view(r@));
    c
}

// ---------------------------------------------------------------------------
// Results
// ---------------------------------------------------------------------------

/// Per-field divergence statistics.
#[derive(Debug, Clone)]
pub struct FieldDivergence {
    pub field: String,
    pub count: u64,
    pub first_index: u64,
    pub first_val_a: FieldValue,
    pub first_val_b: FieldValue,
}

/// A contiguous range of divergent entries.
#[derive(Debug, Clone)]
pub struct DivergenceRegion {
    pub start_index: u64,
    pub end_index: u64,
    pub count: usize,
}

/// High-level classification of a divergence.
#[derive(Debug, Clone, Copy, PartialEq, Eq, Structural)]
pub enum DivergenceClass {
    /// Traces are identical on all compared fields.
    Identical,
    /// Only the F register (flags) diverges; pc/op match.
    FlagOnly,
    /// The program counter diverges: the emulators took different code paths.
    ExecutionPathSplit,
    /// Registers differ but the instruction sequence (pc, op) matches.
    RegisterDrift,
    /// Only cycle counts differ.
    TimingOnly,
    /// A combination of the above.
    Mixed,
}

/// The name of a class.
pub open spec fn class_label(c: DivergenceClass) -> Seq<char> {
    match c {
        DivergenceClass::Identical => "identical"@,
        DivergenceClass::FlagOnly => "flag-only"@,
        DivergenceClass::ExecutionPathSplit => "execution-path-split"@,
        DivergenceClass::RegisterDrift => "register-drift"@,
        DivergenceClass::TimingOnly => "timing-only"@,
        DivergenceClass::Mixed => "mixed"@,
    }
}

impl DivergenceClass {
    /// The class's name, as it is displayed.
    pub fn to_string(&self) -> (r: String)
        ensures
            r@ == class_label(*self),
    {
        let s = match self {
            DivergenceClass::Identical => "identical",
            DivergenceClass::FlagOnly => "flag-only",
            DivergenceClass::ExecutionPathSplit => "execution-path-split",
            DivergenceClass::RegisterDrift => "register-drift",
            DivergenceClass::TimingOnly => "timing-only",
            DivergenceClass::Mixed => "mixed",
        };
        string_of(&chars_of(s))
    }
}

// ---------------------------------------------------------------------------
// The differ
// ---------------------------------------------------------------------------

/// Compares traces.
pub struct TraceDiffer {
    config: DiffConfig,
}

impl TraceDiffer {
    /// The differ's configuration.
    pub closed spec fn config_view(&self) -> DiffConfig {
        self.config
    }

    pub fn new(config: DiffConfig) -> (r: Self)
        ensures
            r.config_view() == config,
    {
        TraceDiffer { config }
    }

    /// The differ's configuration.
    pub fn config(&self) -> (r: &DiffConfig)
        ensures
            *r == self.config_view(),
    {
        &self.config
    }
}

// ---------------------------------------------------------------------------
// Alignment
// ---------------------------------------------------------------------------

/// Two aligned rows: the index (instruction index or cycle) and the values
/// of each trace.
pub struct MergedRow {
    pub index: u64,
    pub vals_a: Vec<Option<FieldValue>>,
    pub vals_b: Vec<Option<FieldValue>>,
}

/// The value of a [`MergedRow`].
pub struct MergedRowView {
    pub index: u64,
    pub vals_a: Seq<Option<FieldValueView>>,
    pub vals_b: Seq<Option<FieldValueView>>,
}

impl View for MergedRow {
    type V = MergedRowView;

    open spec fn view(&self) -> MergedRowView {
        MergedRowView { index: self.index, vals_a: row_view(self.vals_a@), vals_b: row_view(self.vals_b@) }
    }
}

/// The values of a list of merged rows.
pub open spec fn merged_view(m: Seq<MergedRow>) -> Seq<MergedRowView> {
    Seq::new(m.len(), |i: int| m[i]@)
}

/// The values of a list of rows: each row's cycle and field values.
pub open spec fn rows_view(rows: Seq<(u64, Vec<Option<FieldValue>>)>) -> Seq<(u64, Seq<Option<FieldValueView>>)> {
    Seq::new(rows.len(), |i: int| (rows[i].0, row_view(rows[i].1@)))
}

/// The cycles of a list of rows.
pub open spec fn cycles_of(rows: Seq<(u64, Seq<Option<FieldValueView>>)>) -> Seq<u64> {
    Seq::new(rows.len(), |i: int| rows[i].0)
}

/// The merged row of row `i` of `a` and row `j` of `b`, with an index.
pub open spec fn merge_at(
    a: Seq<(u64, Seq<Option<FieldValueView>>)>,
    b: Seq<(u64, Seq<Option<FieldValueView>>)>,
    i: int,
    j: int,
    index: u64,
) -> MergedRowView {
    MergedRowView { index, vals_a: a[i].1, vals_b: b[j].1 }
}

/// Sequence alignment: the k-th row of each, for as many rows as the
/// shorter has.
pub open spec fn sequence_aligned(
    a: Seq<(u64, Seq<Option<FieldValueView>>)>,
    b: Seq<(u64, Seq<Option<FieldValueView>>)>,
) -> Seq<MergedRowView> {
    Seq::new(
        if a.len() < b.len() {
            a.len()
        } else {
            b.len()
        },
        |k: int| merge_at(a, b, k, k, k as u64),
    )
}

/// The pairs of row positions the merge-join of two cycle lists meets,
/// from positions `i` and `j`: equal cycles pair up, and the side with
/// the smaller cycle moves on.
pub open spec fn merge_join(ca: Seq<u64>, cb: Seq<u64>, i: int, j: int) -> Seq<(int, int)>
    decreases ca.len() - i + cb.len() - j,
{
    if i < 0 || j < 0 || i >= ca.len() || j >= cb.len() {
        Seq::empty()
    } else if ca[i] == cb[j] {
        seq![(i, j)] + merge_join(ca, cb, i + 1, j + 1)
    } else if ca[i] < cb[j] {
        merge_join(ca, cb, i + 1, j)
    } else {
        merge_join(ca, cb, i, j + 1)
    }
}

/// Cycle alignment: the rows with equal cycles, met by a merge-join,
/// indexed by their cycle.
pub open spec fn cycle_aligned(
    a: Seq<(u64, Seq<Option<FieldValueView>>)>,
    b: Seq<(u64, Seq<Option<FieldValueView>>)>,
) -> Seq<MergedRowView> {
    let pairs = merge_join(cycles_of(a), cycles_of(b), 0, 0);
    Seq::new(pairs.len(), |k: int| merge_at(a, b, pairs[k].0, pairs[k].1, a[pairs[k].0].0))
}

/// Rows of `a` and `b` by position.
pub fn align_sequence(rows_a: &Vec<(u64, Vec<Option<FieldValue>>)>, rows_b: &Vec<(u64, Vec<Option<FieldValue>>)>) -> (r: Vec<
    MergedRow,
>)
    ensures
        merged_view(r@) == sequence_aligned(rows_view(rows_a@), rows_view(rows_b@)),
{
    let len = if rows_a.len() < rows_b.len() {
        rows_a.len()
    } else {
        rows_b.len()
    };
    let mut merged: Vec<MergedRow> = Vec::new();
    let mut idx: usize = 0;
    while idx < len
        invariant
            idx <= len,
            len <= rows_a@.len(),
            len <= rows_b@.len(),
            len == (if rows_a@.len() < rows_b@.len() {
                rows_a@.len()
            } else {
                rows_b@.len()
            }),
            merged@.len() == idx,
            forall|k: int|
                0 <= k < idx ==> (#[trigger] merged@[k])@ == merge_at(rows_view(rows_a@), rows_view(rows_b@), k, k, k as u64),
        decreases len - idx,
    {
        merged.push(
            MergedRow {
                index: idx as u64,
                vals_a: copy_row(&rows_a[idx].1),
                vals_b: copy_row(&rows_b[idx].1),
            },
        );
        idx += 1;
    }
    assert(merged_view(merged@) =~= sequence_aligned(rows_view(rows_a@), rows_view(rows_b@)));
    merged
}

/// Rows of `a` and `b` with equal cycles, by a merge-join of the two
/// cycle sequences.
pub fn align_cycle(rows_a: &Vec<(u64, Vec<Option<FieldValue>>)>, rows_b: &Vec<(u64, Vec<Option<FieldValue>>)>) -> (r: Vec<
    MergedRow,
>)
    ensures
        merged_view(r@) == cycle_aligned(rows_view(rows_a@), rows_view(rows_b@)),
{
    let ghost ra = rows_view(rows_a@);
    let ghost rb = rows_view(rows_b@);
    let ghost ca = cycles_of(ra);
    let ghost cb = cycles_of(rb);
    let ghost all = merge_join(ca, cb, 0, 0);
    let mut merged: Vec<MergedRow> = Vec::new();
    let mut i: usize = 0;
    let mut j: usize = 0;
    let ghost mut done: Seq<(int, int)> = Seq::empty();
    while i < rows_a.len() && j < rows_b.len()
        invariant
            i <= rows_a@.len(),
            j <= rows_b@.len(),
            ra == rows_view(rows_a@),
            rb == rows_view(rows_b@),
            ca == cycles_of(ra),
            cb == cycles_of(rb),
            all == merge_join(ca, cb, 0, 0),
            all == done + merge_join(ca, cb, i as int, j as int),
            merged@.len() == done.len(),
            forall|k: int|
                0 <= k < done.len() ==> (#[trigger] merged@[k])@ == merge_at(
                    ra,
                    rb,
                    done[k].0,
                    done[k].1,
                    ra[done[k].0].0,
                ),
        decreases rows_a@.len() - i + rows_b@.len() - j,
    {
        let cy_a = rows_a[i].0;
        let cy_b = rows_b[j].0;
        if cy_a == cy_b {
            merged.push(
                MergedRow { index: cy_a, vals_a: copy_row(&rows_a[i].1), vals_b: copy_row(&rows_b[j].1) },
            );
            proof {
                assert(done + merge_join(ca, cb, i as int, j as int) =~= done.push((i as int, j as int))
                    + merge_join(ca, cb, i + 1, j + 1));
                done = done.push((i as int, j as int));
            }
            i += 1;
            j += 1;
        } else if cy_a < cy_b {
            i += 1;
        } else {
            j += 1;
        }
    }
    assert(done =~= all);
    assert(merged_view(merged@) =~= cycle_aligned(ra, rb));
    merged
}


// ---------------------------------------------------------------------------
// Divergences
// ---------------------------------------------------------------------------

/// Whether field `f` differs between two rows.
pub open spec fn differs(va: Seq<Option<FieldValueView>>, vb: Seq<Option<FieldValueView>>, f: int) -> bool {
    va[f] != vb[f]
}

/// Whether any of the first `n` fields differs between two rows.
pub open spec fn row_divergent(va: Seq<Option<FieldValueView>>, vb: Seq<Option<FieldValueView>>, n: int) -> bool {
    exists|f: int| 0 <= f < n && #[trigger] differs(va, vb, f)
}

/// Whether every merged row has a value slot for each of the first `n`
/// fields.
pub open spec fn rows_have(m: Seq<MergedRowView>, n: int) -> bool {
    forall|r: int| 0 <= r < m.len() ==> #[trigger] m[r].vals_a.len() >= n && m[r].vals_b.len() >= n
}

/// Whether any of the first `n` fields differs between two rows.
pub fn is_divergent(a: &Vec<Option<FieldValue>>, b: &Vec<Option<FieldValue>>, n: usize) -> (r: bool)
    requires
        a@.len() >= n,
        b@.len() >= n,
    ensures
        r == row_divergent(row_view(a@), row_view(b@), n as int),
{
    let mut f: usize = 0;
    while f < n
        invariant
            f <= n,
            a@.len() >= n,
            b@.len() >= n,
            forall|g: int| 0 <= g < f ==> !differs(row_view(a@), row_view(b@), g),
        decreases n - f,
    {
        if !same_value(&a[f], &b[f]) {
            assert(differs(row_view(a@), row_view(b@), f as int));
            return true;
        }
        f += 1;
    }
    false
}

/// The names of the fields that differ between two rows, in field order.
pub open spec fn divergent_names(
    va: Seq<Option<FieldValueView>>,
    vb: Seq<Option<FieldValueView>>,
    fields: Seq<Seq<char>>,
    n: int,
) -> Seq<Seq<char>>
    decreases n,
{
    if n <= 0 {
        Seq::empty()
    } else if differs(va, vb, n - 1) {
        divergent_names(va, vb, fields, n - 1).push(fields[n - 1])
    } else {
        divergent_names(va, vb, fields, n - 1)
    }
}

/// The names of the fields that differ between two rows.
pub fn divergent_fields(a: &Vec<Option<FieldValue>>, b: &Vec<Option<FieldValue>>, fields: &Vec<String>) -> (r: Vec<
    String,
>)
    requires
        a@.len() >= fields@.len(),
        b@.len() >= fields@.len(),
    ensures
        crate::header::string_texts(r@) == divergent_names(
            row_view(a@),
            row_view(b@),
            crate::header::string_texts(fields@),
            fields@.len() as int,
        ),
{
    let ghost names = crate::header::string_texts(fields@);
    let mut out: Vec<String> = Vec::new();
    let mut f: usize = 0;
    while f < fields.len()
        invariant
            f <= fields@.len(),
            a@.len() >= fields@.len(),
            b@.len() >= fields@.len(),
            names == crate::header::string_texts(fields@),
            crate::header::string_texts(out@) == divergent_names(row_view(a@), row_view(b@), names, f as int),
        decreases fields@.len() - f,
    {
        if !same_value(&a[f], &b[f]) {
            let ghost before = out@;
            out.push(fields[f].clone());
            assert(crate::header::string_texts(out@) =~= crate::header::string_texts(before).push(names[f as int]));
        }
        f += 1;
    }
    out
}

/// The positions of the divergent rows among the first `n`.
pub open spec fn divergent_rows_upto(m: Seq<MergedRowView>, nf: int, n: int) -> Seq<usize>
    decreases n,
{
    if n <= 0 {
        Seq::empty()
    } else if row_divergent(m[n - 1].vals_a, m[n - 1].vals_b, nf) {
        divergent_rows_upto(m, nf, n - 1).push((n - 1) as usize)
    } else {
        divergent_rows_upto(m, nf, n - 1)
    }
}

/// The positions of the rows where one of the first `nf` fields differs.
pub fn divergent_rows(merged: &Vec<MergedRow>, nf: usize) -> (r: Vec<usize>)
    requires
        rows_have(merged_view(merged@), nf as int),
    ensures
        r@ == divergent_rows_upto(merged_view(merged@), nf as int, merged@.len() as int),
{
    let ghost mv = merged_view(merged@);
    let mut out: Vec<usize> = Vec::new();
    let mut i: usize = 0;
    while i < merged.len()
        invariant
            i <= merged@.len(),
            mv == merged_view(merged@),
            rows_have(mv, nf as int),
            out@ == divergent_rows_upto(mv, nf as int, i as int),
        decreases merged@.len() - i,
    {
        assert(mv[i as int].vals_a.len() >= nf);
        if is_divergent(&merged[i].vals_a, &merged[i].vals_b, nf) {
            out.push(i);
        }
        i += 1;
    }
    out
}


// ---------------------------------------------------------------------------
// Regions
// ---------------------------------------------------------------------------

/// The value of a [`DivergenceRegion`].
pub struct RegionView {
    pub start_index: u64,
    pub end_index: u64,
    pub count: nat,
}

impl View for DivergenceRegion {
    type V = RegionView;

    open spec fn view(&self) -> RegionView {
        RegionView { start_index: self.start_index, end_index: self.end_index, count: self.count as nat }
    }
}

/// The values of a list of regions.
pub open spec fn regions_view(r: Seq<DivergenceRegion>) -> Seq<RegionView> {
    Seq::new(r.len(), |i: int| r[i]@)
}

/// The runs of the first `n` divergent positions (`n >= 1`), as first and
/// last position in `div`: a position within 2 rows of the one before
/// extends the current run, a larger gap starts a new one.
pub open spec fn ranges_of(div: Seq<usize>, n: int) -> Seq<(int, int)>
    decreases n,
{
    if n <= 1 {
        seq![(0, 0)]
    } else {
        let prev = ranges_of(div, n - 1);
        if div[n - 1] - div[n - 2] <= 2 {
            prev.update(prev.len() - 1, (prev.last().0, n - 1))
        } else {
            prev.push((n - 1, n - 1))
        }
    }
}

/// The region of a run: the indices of its first and last rows, and how
/// many divergent rows it holds.
pub open spec fn region_of(m: Seq<MergedRowView>, div: Seq<usize>, r: (int, int)) -> RegionView {
    RegionView {
        start_index: m[div[r.0] as int].index,
        end_index: m[div[r.1] as int].index,
        count: (r.1 - r.0 + 1) as nat,
    }
}

/// The regions of a list of runs.
pub open spec fn regions_from_runs(m: Seq<MergedRowView>, div: Seq<usize>, rs: Seq<(int, int)>) -> Seq<RegionView>
    decreases rs.len(),
{
    if rs.len() == 0 {
        Seq::empty()
    } else {
        regions_from_runs(m, div, rs.drop_last()).push(region_of(m, div, rs.last()))
    }
}

/// `group_divergence_ranges`: the regions of the divergent rows `div`.
pub open spec fn regions_of(m: Seq<MergedRowView>, div: Seq<usize>) -> Seq<RegionView> {
    if div.len() == 0 {
        Seq::empty()
    } else {
        regions_from_runs(m, div, ranges_of(div, div.len() as int))
    }
}

/// Whether a list of positions is ascending and names rows of `m`.
pub open spec fn positions_ok(m_len: int, div: Seq<usize>) -> bool {
    &&& forall|k: int| 0 <= k < div.len() ==> #[trigger] div[k] < m_len
    &&& forall|k: int| 0 < k < div.len() ==> div[k - 1] <= #[trigger] div[k]
}

/// The runs are non-empty and consecutive: each starts where the one
/// before ended, the first at 0 and the last ending at `n - 1`.
pub proof fn lemma_ranges_shape(div: Seq<usize>, n: int)
    requires
        n >= 1,
    ensures
        ranges_of(div, n).len() >= 1,
        ranges_of(div, n)[0].0 == 0,
        ranges_of(div, n).last().1 == n - 1,
        forall|k: int| 0 <= k < ranges_of(div, n).len() ==> #[trigger] ranges_of(div, n)[k].0 <= ranges_of(div, n)[k].1,
        forall|k: int|
            0 < k < ranges_of(div, n).len() ==> #[trigger] ranges_of(div, n)[k].0 == ranges_of(div, n)[k - 1].1 + 1,
    decreases n,
{
    if n > 1 {
        lemma_ranges_shape(div, n - 1);
        let prev = ranges_of(div, n - 1);
        let cur = ranges_of(div, n);
        if div[n - 1] - div[n - 2] <= 2 {
            assert forall|k: int| 0 < k < cur.len() implies #[trigger] cur[k].0 == cur[k - 1].1 + 1 by {
                assert(prev[k].0 == prev[k - 1].1 + 1);
            }
        } else {
            assert forall|k: int| 0 < k < cur.len() implies #[trigger] cur[k].0 == cur[k - 1].1 + 1 by {
                if k < prev.len() {
                    assert(prev[k].0 == prev[k - 1].1 + 1);
                }
            }
        }
    }
}

/// The sum of the counts of a list of regions.
pub open spec fn total_count(rs: Seq<RegionView>) -> nat
    decreases rs.len(),
{
    if rs.len() == 0 {
        0
    } else {
        total_count(rs.drop_last()) + rs.last().count
    }
}

/// The sum of the sizes of the first `k` runs.
pub open spec fn runs_size(rs: Seq<(int, int)>, k: int) -> int
    decreases k,
{
    if k <= 0 {
        0
    } else {
        runs_size(rs, k - 1) + (rs[k - 1].1 - rs[k - 1].0 + 1)
    }
}

proof fn lemma_runs_size(div: Seq<usize>, n: int)
    requires
        n >= 1,
    ensures
        runs_size(ranges_of(div, n), ranges_of(div, n).len() as int) == n,
    decreases n,
{
    lemma_ranges_shape(div, n);
    if n == 1 {
        let rs = ranges_of(div, 1);
        assert(rs == seq![(0int, 0int)]);
        assert(runs_size(rs, 0) == 0);
        assert(runs_size(rs, 1) == runs_size(rs, 0) + 1);
    } else {
        lemma_runs_size(div, n - 1);
        lemma_ranges_shape(div, n - 1);
        let prev = ranges_of(div, n - 1);
        let cur = ranges_of(div, n);
        let l = prev.len() as int;
        assert(prev.last().1 == n - 2);
        if div[n - 1] - div[n - 2] <= 2 {
            assert(cur == prev.update(l - 1, (prev.last().0, n - 1)));
            assert(cur.len() == l);
            lemma_runs_size_prefix(prev, cur, l - 1);
            assert(runs_size(cur, l) == runs_size(cur, l - 1) + (cur[l - 1].1 - cur[l - 1].0 + 1));
            assert(runs_size(prev, l) == runs_size(prev, l - 1) + (prev[l - 1].1 - prev[l - 1].0 + 1));
            assert(runs_size(prev, l) == n - 1);
            assert(runs_size(cur, l) == n);
        } else {
            assert(cur == prev.push((n - 1, n - 1)));
            lemma_runs_size_prefix(prev, cur, l);
            assert(runs_size(cur, l + 1) == runs_size(cur, l) + (cur[l].1 - cur[l].0 + 1));
            assert(cur.len() == l + 1);
            assert(runs_size(cur, l + 1) == n);
        }
    }
}

proof fn lemma_runs_size_prefix(a: Seq<(int, int)>, b: Seq<(int, int)>, k: int)
    requires
        0 <= k <= a.len(),
        k <= b.len(),
        forall|i: int| 0 <= i < k ==> a[i] == b[i],
    ensures
        runs_size(a, k) == runs_size(b, k),
    decreases k,
{
    if k > 0 {
        lemma_runs_size_prefix(a, b, k - 1);
    }
}

proof fn lemma_total_count(m: Seq<MergedRowView>, div: Seq<usize>, rs: Seq<(int, int)>)
    requires
        forall|i: int| 0 <= i < rs.len() ==> #[trigger] rs[i].0 <= rs[i].1,
    ensures
        total_count(regions_from_runs(m, div, rs)) == runs_size(rs, rs.len() as int),
    decreases rs.len(),
{
    if rs.len() > 0 {
        let l = rs.len() as int;
        lemma_total_count(m, div, rs.drop_last());
        lemma_runs_size_prefix(rs.drop_last(), rs, l - 1);
        assert(rs[l - 1].0 <= rs[l - 1].1);
        assert(regions_from_runs(m, div, rs).drop_last() =~= regions_from_runs(m, div, rs.drop_last()));
    }
}

/// Every divergent row lands in exactly one region: the counts of the
/// regions add up to the number of divergent rows.
pub proof fn law_regions_cover_divergent_rows(m: Seq<MergedRowView>, div: Seq<usize>)
    ensures
        total_count(regions_of(m, div)) == div.len(),
{
    if div.len() > 0 {
        let n = div.len() as int;
        let rs = ranges_of(div, n);
        lemma_ranges_shape(div, n);
        lemma_runs_size(div, n);
        lemma_total_count(m, div, rs);
    }
}

/// Group the divergent rows `div_indices` (ascending positions in `merged`)
/// into regions: a row within 2 positions of the previous divergent row
/// extends its region.
#[verifier::rlimit(40)]
#[verifier::spinoff_prover]
pub fn group_divergence_ranges(merged: &Vec<MergedRow>, div_indices: &Vec<usize>) -> (r: Vec<DivergenceRegion>)
    requires
        positions_ok(merged@.len() as int, div_indices@),
    ensures
        regions_view(r@) == regions_of(merged_view(merged@), div_indices@),
{
    let ghost mv = merged_view(merged@);
    let ghost div = div_indices@;
    let n = div_indices.len();
    if n == 0 {
        let r: Vec<DivergenceRegion> = Vec::new();
        assert(regions_view(r@) =~= regions_of(mv, div));
        return r;
    }
    let mut ranges: Vec<DivergenceRegion> = Vec::new();
    let mut range_start: usize = 0;
    let mut range_end: usize = 0;
    let mut k: usize = 1;
    while k < n
        invariant
            1 <= k <= n,
            n == div.len(),
            div == div_indices@,
            mv == merged_view(merged@),
            positions_ok(merged@.len() as int, div),
            range_start <= range_end < k,
            ranges_of(div, k as int).len() >= 1,
            ranges_of(div, k as int).last() == (range_start as int, range_end as int),
            regions_view(ranges@) == regions_from_runs(mv, div, ranges_of(div, k as int).drop_last()),
        decreases n - k,
    {
        proof {
            lemma_ranges_shape(div, k as int);
        }
        let ghost prev = ranges_of(div, k as int);
        assert(div[k - 1] <= div[k as int]);
        if div_indices[k] - div_indices[k - 1] <= 2 {
            range_end = k;
            let ghost cur = ranges_of(div, k + 1);
            assert(cur == prev.update(prev.len() - 1, (prev.last().0, k as int)));
            assert(cur.drop_last() =~= prev.drop_last());
        } else {
            let ghost before = ranges@;
            let ghost cur = ranges_of(div, k + 1);
            assert(cur == prev.push((k as int, k as int)));
            ranges.push(
                DivergenceRegion {
                    start_index: merged[div_indices[range_start]].index,
                    end_index: merged[div_indices[range_end]].index,
                    count: range_end - range_start + 1,
                },
            );
            assert(cur.drop_last() =~= prev);
            assert(prev.drop_last().push(prev.last()) =~= prev);
            assert(regions_view(ranges@) =~= regions_view(before).push(
                region_of(mv, div, (range_start as int, range_end as int)),
            ));
            range_start = k;
            range_end = k;
        }
        k += 1;
    }
    proof {
        lemma_ranges_shape(div, n as int);
    }
    let ghost before = ranges@;
    ranges.push(
        DivergenceRegion {
            start_index: merged[div_indices[range_start]].index,
            end_index: merged[div_indices[range_end]].index,
            count: range_end - range_start + 1,
        },
    );
    proof {
        let rs = ranges_of(div, n as int);
        assert(rs.drop_last().push(rs.last()) =~= rs);
        assert(regions_view(ranges@) =~= regions_view(before).push(
            region_of(mv, div, (range_start as int, range_end as int)),
        ));
    }
    ranges
}

// ---------------------------------------------------------------------------
// Classification
// ---------------------------------------------------------------------------

/// Whether a field name is one of the flag fields.
pub open spec fn is_flag_name(n: Seq<char>) -> bool {
    n == "f"@ || n == "fz"@ || n == "fn"@ || n == "fh"@ || n == "fc"@
}

/// The class of a divergence from the names of the diverging fields:
/// none is identical; only flag fields is flag-only; a diverging `pc` is an
/// execution-path split; without `op` it is register drift; else mixed.
pub open spec fn classify_names(names: Seq<Seq<char>>) -> DivergenceClass {
    if names.len() == 0 {
        DivergenceClass::Identical
    } else if forall|i: int| 0 <= i < names.len() ==> is_flag_name(#[trigger] names[i]) {
        DivergenceClass::FlagOnly
    } else if names.contains("pc"@) {
        DivergenceClass::ExecutionPathSplit
    } else if !names.contains("op"@) {
        DivergenceClass::RegisterDrift
    } else {
        DivergenceClass::Mixed
    }
}

/// The names of the fields of a list of divergences.
pub open spec fn divergence_names(d: Seq<FieldDivergence>) -> Seq<Seq<char>> {
    Seq::new(d.len(), |i: int| d[i].field@)
}

fn is_flag_field(n: &str) -> (r: bool)
    ensures
        r == is_flag_name(n@),
{
    str_eq(n, "f") || str_eq(n, "fz") || str_eq(n, "fn") || str_eq(n, "fh") || str_eq(n, "fc")
}

/// Classify a divergence by which fields diverge.
pub fn classify(field_divergences: &Vec<FieldDivergence>, common_fields: &Vec<String>) -> (r: DivergenceClass)
    ensures
        r == classify_names(divergence_names(field_divergences@)),
{
    let ghost names = divergence_names(field_divergences@);
    let n = field_divergences.len();
    if n == 0 {
        return DivergenceClass::Identical;
    }
    let mut all_flags = true;
    let mut has_pc = false;
    let mut has_op = false;
    let mut i: usize = 0;
    while i < n
        invariant
            i <= n,
            n == field_divergences@.len(),
            names == divergence_names(field_divergences@),
            all_flags == (forall|k: int| 0 <= k < i ==> is_flag_name(#[trigger] names[k])),
            has_pc == (exists|k: int| 0 <= k < i && names[k] == "pc"@),
            has_op == (exists|k: int| 0 <= k < i && names[k] == "op"@),
        decreases n - i,
    {
        let name = field_divergences[i].field.as_str();
        assert(name@ == names[i as int]);
        if !is_flag_field(name) {
            all_flags = false;
        }
        if str_eq(name, "pc") {
            has_pc = true;
        }
        if str_eq(name, "op") {
            has_op = true;
        }
        i += 1;
    }
    proof {
        if has_pc {
            let k = choose|k: int| 0 <= k < n && names[k] == "pc"@;
            assert(names[k] == "pc"@);
        }
        if has_op {
            let k = choose|k: int| 0 <= k < n && names[k] == "op"@;
            assert(names[k] == "op"@);
        }
    }
    if all_flags {
        DivergenceClass::FlagOnly
    } else if has_pc {
        DivergenceClass::ExecutionPathSplit
    } else if !has_op {
        DivergenceClass::RegisterDrift
    } else {
        DivergenceClass::Mixed
    }
}


// ---------------------------------------------------------------------------
// Per-field divergences
// ---------------------------------------------------------------------------

/// The value of a [`FieldDivergence`].
pub struct FieldDivergenceView {
    pub field: Seq<char>,
    pub count: nat,
    pub first_index: u64,
    pub first_val_a: FieldValueView,
    pub first_val_b: FieldValueView,
}

impl View for FieldDivergence {
    type V = FieldDivergenceView;

    open spec fn view(&self) -> FieldDivergenceView {
        FieldDivergenceView {
            field: self.field@,
            count: self.count as nat,
            first_index: self.first_index,
            first_val_a: self.first_val_a@,
            first_val_b: self.first_val_b@,
        }
    }
}

/// The values of a list of divergences.
pub open spec fn divergences_view(d: Seq<FieldDivergence>) -> Seq<FieldDivergenceView> {
    Seq::new(d.len(), |i: int| d[i]@)
}

impl FieldDivergence {
    /// A copy with the same value.
    pub fn duplicate(&self) -> (r: FieldDivergence)
        ensures
            r@ == self@,
    {
        FieldDivergence {
            field: self.field.clone(),
            count: self.count,
            first_index: self.first_index,
            first_val_a: self.first_val_a.duplicate(),
            first_val_b: self.first_val_b.duplicate(),
        }
    }
}

/// Whether field `f` differs at merged row `r`.
pub open spec fn differs_test(m: Seq<MergedRowView>, f: int) -> spec_fn(int) -> bool {
    |r: int| differs(m[r].vals_a, m[r].vals_b, f)
}

/// How many of the first `n` merged rows differ in field `f`.
pub open spec fn diff_count(m: Seq<MergedRowView>, f: int, n: int) -> nat
    decreases n,
{
    if n <= 0 {
        0
    } else {
        diff_count(m, f, n - 1) + if differs(m[n - 1].vals_a, m[n - 1].vals_b, f) {
            1nat
        } else {
            0nat
        }
    }
}

/// A value, or null when the field is missing.
pub open spec fn or_null(v: Option<FieldValueView>) -> FieldValueView {
    match v {
        Some(x) => x,
        None => FieldValueView::Null,
    }
}

/// The divergence of field `f` (named `name`): how many rows differ, and
/// the index and values of the first; none when no row differs.
pub open spec fn divergence_of(m: Seq<MergedRowView>, name: Seq<char>, f: int) -> Option<FieldDivergenceView> {
    match crate::column_store::first_where(m.len() as int, differs_test(m, f)) {
        Some(r) => Some(
            FieldDivergenceView {
                field: name,
                count: diff_count(m, f, m.len() as int),
                first_index: m[r].index,
                first_val_a: or_null(m[r].vals_a[f]),
                first_val_b: or_null(m[r].vals_b[f]),
            },
        ),
        None => None,
    }
}

/// The divergences of the first `n` fields, in field order.
pub open spec fn unsorted_divergences(m: Seq<MergedRowView>, names: Seq<Seq<char>>, n: int) -> Seq<
    FieldDivergenceView,
>
    decreases n,
{
    if n <= 0 {
        Seq::empty()
    } else {
        match divergence_of(m, names[n - 1], n - 1) {
            Some(d) => unsorted_divergences(m, names, n - 1).push(d),
            None => unsorted_divergences(m, names, n - 1),
        }
    }
}

/// `x` inserted into `s` after every element whose first index is not
/// greater than its own.
pub open spec fn insert_by_index(s: Seq<FieldDivergenceView>, x: FieldDivergenceView) -> Seq<FieldDivergenceView>
    decreases s.len(),
{
    if s.len() == 0 {
        seq![x]
    } else if s.last().first_index <= x.first_index {
        s.push(x)
    } else {
        insert_by_index(s.drop_last(), x).push(s.last())
    }
}

/// The stable sort of `s` by first index.
pub open spec fn sort_by_index(s: Seq<FieldDivergenceView>) -> Seq<FieldDivergenceView>
    decreases s.len(),
{
    if s.len() == 0 {
        Seq::empty()
    } else {
        insert_by_index(sort_by_index(s.drop_last()), s.last())
    }
}

/// `compute_field_divergences`: the divergences of the compared fields,
/// stably sorted by the index of their first divergent row.
pub open spec fn field_divergences_of(m: Seq<MergedRowView>, names: Seq<Seq<char>>) -> Seq<FieldDivergenceView> {
    sort_by_index(unsorted_divergences(m, names, names.len() as int))
}

/// Whether a list of divergences is ordered by first index.
pub open spec fn by_first_index(s: Seq<FieldDivergenceView>) -> bool {
    forall|i: int, j: int| 0 <= i < j < s.len() ==> s[i].first_index <= s[j].first_index
}

proof fn lemma_insert_sorted(s: Seq<FieldDivergenceView>, x: FieldDivergenceView)
    requires
        by_first_index(s),
    ensures
        by_first_index(insert_by_index(s, x)),
        insert_by_index(s, x).len() == s.len() + 1,
        insert_by_index(s, x).to_multiset() == s.to_multiset().insert(x),
    decreases s.len(),
{
    broadcast use vstd::multiset::group_multiset_axioms, vstd::seq_lib::group_to_multiset_ensures;

    if s.len() == 0 {
        assert(seq![x] =~= Seq::<FieldDivergenceView>::empty().push(x));
    } else if s.last().first_index <= x.first_index {
    } else {
        let t = s.drop_last();
        lemma_insert_sorted(t, x);
        let r = insert_by_index(t, x);
        assert(s == t.push(s.last()));
        assert forall|i: int, j: int|
            0 <= i < j < r.len() + 1 implies #[trigger] r.push(s.last())[i].first_index <= #[trigger] r.push(
            s.last(),
        )[j].first_index by {
            if j == r.len() {
                let e = r[i];
                assert(r.to_multiset().count(e) > 0);
                assert(t.to_multiset().insert(x).count(e) > 0);
                if e != x {
                    assert(t.to_multiset().count(e) > 0);
                    assert(t.contains(e));
                    let k = choose|k: int| 0 <= k < t.len() && t[k] == e;
                    assert(s[k] == e);
                }
            }
        }
    }
}

/// The stable sort of a list is ordered by first index and holds the
/// same divergences.
pub proof fn law_sorted_divergences(s: Seq<FieldDivergenceView>)
    ensures
        by_first_index(sort_by_index(s)),
        sort_by_index(s).to_multiset() == s.to_multiset(),
    decreases s.len(),
{
    broadcast use vstd::multiset::group_multiset_axioms, vstd::seq_lib::group_to_multiset_ensures;

    if s.len() > 0 {
        law_sorted_divergences(s.drop_last());
        lemma_insert_sorted(sort_by_index(s.drop_last()), s.last());
        assert(s == s.drop_last().push(s.last()));
    }
}

fn insert_sorted(out: &mut Vec<FieldDivergence>, x: FieldDivergence)
    ensures
        divergences_view(final(out)@) == insert_by_index(divergences_view(old(out)@), x@),
{
    let ghost s = divergences_view(out@);
    let ghost xv = x@;
    let mut p = out.len();
    assert(s.take(p as int) =~= s);
    assert(insert_by_index(s, xv) + s.skip(p as int) =~= insert_by_index(s, xv));
    while p > 0 && out[p - 1].first_index > x.first_index
        invariant
            p <= out@.len(),
            s == divergences_view(out@),
            xv == x@,
            insert_by_index(s, xv) == insert_by_index(s.take(p as int), xv) + s.skip(p as int),
        decreases p,
    {
        proof {
            assert(s.take(p as int).drop_last() =~= s.take(p - 1));
            assert(s.take(p as int).last() == s[p - 1]);
            assert(s.skip(p - 1) =~= seq![s[p - 1]] + s.skip(p as int));
            assert(insert_by_index(s.take(p - 1), xv).push(s[p - 1]) + s.skip(p as int) =~= insert_by_index(
                s.take(p - 1),
                xv,
            ) + s.skip(p - 1));
        }
        p -= 1;
    }
    proof {
        if p == 0 {
            assert(s.take(0) =~= Seq::<FieldDivergenceView>::empty());
        } else {
            assert(s.take(p as int).last() == s[p - 1]);
        }
    }
    out.insert(p, x);
    assert(divergences_view(out@) =~= s.take(p as int).push(xv) + s.skip(p as int));
}

/// Count, for each compared field, the merged rows where it differs, and
/// record the first; sort the result stably by that first index.
pub fn compute_field_divergences(merged: &Vec<MergedRow>, compare_fields: &Vec<String>) -> (r: Vec<
    FieldDivergence,
>)
    requires
        rows_have(merged_view(merged@), compare_fields@.len() as int),
    ensures
        divergences_view(r@) == field_divergences_of(
            merged_view(merged@),
            crate::header::string_texts(compare_fields@),
        ),
{
    let ghost mv = merged_view(merged@);
    let ghost names = crate::header::string_texts(compare_fields@);
    let nf = compare_fields.len();
    let n = merged.len();
    let mut divs: Vec<FieldDivergence> = Vec::new();
    let mut f: usize = 0;
    while f < nf
        invariant
            f <= nf,
            nf == compare_fields@.len(),
            n == merged@.len(),
            mv == merged_view(merged@),
            names == crate::header::string_texts(compare_fields@),
            rows_have(mv, nf as int),
            divergences_view(divs@) == unsorted_divergences(mv, names, f as int),
        decreases nf - f,
    {
        let ghost p = differs_test(mv, f as int);
        let mut count: u64 = 0;
        let mut first: Option<(u64, FieldValue, FieldValue)> = None;
        let mut i: usize = 0;
        while i < n
            invariant
                i <= n,
                f < nf,
                n == merged@.len(),
                mv == merged_view(merged@),
                rows_have(mv, nf as int),
                p == differs_test(mv, f as int),
                count == diff_count(mv, f as int, i as int),
                count <= i,
                match first {
                    Some(t) => crate::column_store::first_where(i as int, p) matches Some(r) && t.0
                        == mv[r].index && t.1@ == or_null(mv[r].vals_a[f as int]) && t.2@ == or_null(
                        mv[r].vals_b[f as int],
                    ),
                    None => crate::column_store::first_where(i as int, p) is None,
                },
            decreases n - i,
        {
            assert(mv[i as int].vals_a.len() >= nf);
            let row = &merged[i];
            let a = &row.vals_a[f];
            let b = &row.vals_b[f];
            if !same_value(a, b) {
                assert(p(i as int));
                count += 1;
                if first.is_none() {
                    let va = match a {
                        Some(v) => v.duplicate(),
                        None => FieldValue::Null,
                    };
                    let vb = match b {
                        Some(v) => v.duplicate(),
                        None => FieldValue::Null,
                    };
                    first = Some((row.index, va, vb));
                }
            } else {
                assert(!p(i as int));
            }
            i += 1;
        }
        if let Some((idx, va, vb)) = first {
            let ghost before = divs@;
            divs.push(
                FieldDivergence {
                    field: compare_fields[f].clone(),
                    count,
                    first_index: idx,
                    first_val_a: va,
                    first_val_b: vb,
                },
            );
            assert(divergences_view(divs@) =~= divergences_view(before).push(divs@.last()@));
        }
        f += 1;
    }
    let mut out: Vec<FieldDivergence> = Vec::new();
    let mut k: usize = 0;
    let ghost all = divergences_view(divs@);
    while k < divs.len()
        invariant
            k <= divs@.len(),
            all == divergences_view(divs@),
            divergences_view(out@) == sort_by_index(all.take(k as int)),
        decreases divs@.len() - k,
    {
        assert(all.take(k + 1).drop_last() =~= all.take(k as int));
        insert_sorted(&mut out, divs[k].duplicate());
        k += 1;
    }
    assert(all.take(k as int) =~= all);
    out
}


// ---------------------------------------------------------------------------
// Context window
// ---------------------------------------------------------------------------

/// One entry in the context window around the first divergence.
#[derive(Debug, Clone)]
pub struct ContextEntry {
    /// Index (instruction index or cycle, depending on alignment).
    pub index: u64,
    pub vals_a: Vec<Option<FieldValue>>,
    pub vals_b: Vec<Option<FieldValue>>,
    pub is_divergent: bool,
    pub divergent_fields: Vec<String>,
}

/// The value of a [`ContextEntry`].
pub struct ContextEntryView {
    pub index: u64,
    pub vals_a: Seq<Option<FieldValueView>>,
    pub vals_b: Seq<Option<FieldValueView>>,
    pub is_divergent: bool,
    pub divergent_fields: Seq<Seq<char>>,
}

impl View for ContextEntry {
    type V = ContextEntryView;

    open spec fn view(&self) -> ContextEntryView {
        ContextEntryView {
            index: self.index,
            vals_a: row_view(self.vals_a@),
            vals_b: row_view(self.vals_b@),
            is_divergent: self.is_divergent,
            divergent_fields: crate::header::string_texts(self.divergent_fields@),
        }
    }
}

/// The values of a list of context entries.
pub open spec fn context_view(c: Seq<ContextEntry>) -> Seq<ContextEntryView> {
    Seq::new(c.len(), |i: int| c[i]@)
}

/// The context entry of a merged row.
pub open spec fn context_of(m: MergedRowView, names: Seq<Seq<char>>) -> ContextEntryView {
    let d = divergent_names(m.vals_a, m.vals_b, names, names.len() as int);
    ContextEntryView { index: m.index, vals_a: m.vals_a, vals_b: m.vals_b, is_divergent: d.len() > 0, divergent_fields: d }
}

/// `build_context_window`: the merged rows from `context` before the
/// first divergent row to `5 + context` after it (within the rows there
/// are).
pub open spec fn context_window_of(m: Seq<MergedRowView>, names: Seq<Seq<char>>, first: int, context: int) -> Seq<
    ContextEntryView,
> {
    let start = if first > context {
        first - context
    } else {
        0
    };
    let end = if first + 5 + context < m.len() {
        first + 5 + context
    } else {
        m.len() as int
    };
    Seq::new(
        if end > start {
            (end - start) as nat
        } else {
            0
        },
        |k: int| context_of(m[start + k], names),
    )
}

impl TraceDiffer {
    /// The merged rows around the first divergent one, each with the
    /// fields that differ in it.
    pub fn build_context_window(&self, merged: &Vec<MergedRow>, compare_fields: &Vec<String>, first_div_idx: usize) -> (r: Vec<
        ContextEntry,
    >)
        requires
            rows_have(merged_view(merged@), compare_fields@.len() as int),
            first_div_idx + 5 + self.config_view().context <= usize::MAX,
        ensures
            context_view(r@) == context_window_of(
                merged_view(merged@),
                crate::header::string_texts(compare_fields@),
                first_div_idx as int,
                self.config_view().context as int,
            ),
    {
        let ghost mv = merged_view(merged@);
        let ghost names = crate::header::string_texts(compare_fields@);
        let context = self.config.context;
        let start = if first_div_idx > context {
            first_div_idx - context
        } else {
            0
        };
        let reach = first_div_idx + 5 + context;
        let end = if reach < merged.len() {
            reach
        } else {
            merged.len()
        };
        let mut out: Vec<ContextEntry> = Vec::new();
        let mut idx = start;
        while idx < end
            invariant
                start <= idx,
                idx <= end || idx == start,
                end <= merged@.len(),
                mv == merged_view(merged@),
                names == crate::header::string_texts(compare_fields@),
                rows_have(mv, compare_fields@.len() as int),
                out@.len() == idx - start,
                forall|k: int| 0 <= k < out@.len() ==> (#[trigger] out@[k])@ == context_of(mv[start + k], names),
            decreases end - idx,
        {
            let row = &merged[idx];
            assert(mv[idx as int].vals_a.len() >= compare_fields@.len());
            let divf = divergent_fields(&row.vals_a, &row.vals_b, compare_fields);
            let is_div = divf.len() > 0;
            out.push(
                ContextEntry {
                    index: row.index,
                    vals_a: copy_row(&row.vals_a),
                    vals_b: copy_row(&row.vals_b),
                    is_divergent: is_div,
                    divergent_fields: divf,
                },
            );
            idx += 1;
        }
        assert(context_view(out@) =~= context_window_of(mv, names, first_div_idx as int, context as int));
        out
    }
}


// ---------------------------------------------------------------------------
// Comparing two traces
// ---------------------------------------------------------------------------

/// An entry's `pc` as a 16-bit word, when it has one.
pub open spec fn pc_of(e: Map<Seq<char>, FieldValueView>) -> Option<u16> {
    if e.contains_key("pc"@) {
        value_u16(e["pc"@])
    } else {
        None
    }
}

/// An entry's cycle count: its numeric `cy`, else 0.
pub open spec fn cy_of(e: Map<Seq<char>, FieldValueView>) -> u64 {
    if e.contains_key("cy"@) {
        match value_u64(e["cy"@]) {
            Some(n) => n,
            None => 0,
        }
    } else {
        0
    }
}

/// The position of the first entry from `i` on whose `pc` is 0x0100 (where
/// a cartridge starts after the boot ROM), or the length when none is.
pub open spec fn boot_end(es: Seq<Map<Seq<char>, FieldValueView>>, i: nat) -> nat
    decreases es.len() - i,
{
    if i >= es.len() {
        es.len()
    } else if pc_of(es[i as int]) == Some(0x0100u16) {
        i
    } else {
        boot_end(es, i + 1)
    }
}

/// The position of the first entry a comparison keeps: with `skip_boot`
/// the first at 0x0100 (past the end when none is), else 0.
pub open spec fn first_kept(es: Seq<Map<Seq<char>, FieldValueView>>, skip_boot: bool) -> nat {
    if skip_boot {
        boot_end(es, 0)
    } else {
        0
    }
}

/// The entries a comparison keeps.
pub open spec fn kept_entries(es: Seq<Map<Seq<char>, FieldValueView>>, skip_boot: bool) -> Seq<
    Map<Seq<char>, FieldValueView>,
> {
    es.skip(first_kept(es, skip_boot) as int)
}

/// An entry's values of the given fields (`None` for a field it lacks).
pub open spec fn row_of(e: Map<Seq<char>, FieldValueView>, fields: Seq<Seq<char>>) -> Seq<Option<FieldValueView>> {
    Seq::new(
        fields.len(),
        |k: int|
            if e.contains_key(fields[k]) {
                Some(e[fields[k]])
            } else {
                None
            },
    )
}

/// The cycle of each entry, counted from the first entry's when `rebase`.
pub open spec fn entry_cycles(es: Seq<Map<Seq<char>, FieldValueView>>, rebase: bool) -> Seq<u64> {
    Seq::new(
        es.len(),
        |i: int|
            if rebase {
                (cy_of(es[i]) - cy_of(es[0])) as u64
            } else {
                cy_of(es[i])
            },
    )
}

/// The rows of entries: each entry's cycle (as [`entry_cycles`] counts it)
/// and its values of the fields.
pub open spec fn rows_of(es: Seq<Map<Seq<char>, FieldValueView>>, fields: Seq<Seq<char>>, rebase: bool) -> Seq<
    (u64, Seq<Option<FieldValueView>>),
> {
    Seq::new(es.len(), |i: int| (entry_cycles(es, rebase)[i], row_of(es[i], fields)))
}

/// Whether a comparison counts each trace's cycles from its first kept
/// entry: under cycle alignment with `skip_boot`, when both traces keep
/// entries and their first cycles differ.
pub open spec fn rebases(
    cfg: DiffConfig,
    ka: Seq<Map<Seq<char>, FieldValueView>>,
    kb: Seq<Map<Seq<char>, FieldValueView>>,
) -> bool {
    &&& cfg.alignment != AlignmentStrategy::Sequence
    &&& cfg.skip_boot
    &&& ka.len() > 0
    &&& kb.len() > 0
    &&& cy_of(ka[0]) != cy_of(kb[0])
}

/// Whether no entry's cycle is below the first entry's.
pub open spec fn counts_up_from_first(es: Seq<Map<Seq<char>, FieldValueView>>) -> bool {
    forall|i: int| 0 <= i < es.len() ==> cy_of(#[trigger] es[i]) >= cy_of(es[0])
}

/// The merged rows of a comparison of the kept entries on the given fields.
pub open spec fn merged_of(
    cfg: DiffConfig,
    ka: Seq<Map<Seq<char>, FieldValueView>>,
    kb: Seq<Map<Seq<char>, FieldValueView>>,
    fields: Seq<Seq<char>>,
) -> Seq<MergedRowView> {
    let rb = rebases(cfg, ka, kb);
    if cfg.alignment == AlignmentStrategy::Sequence {
        sequence_aligned(rows_of(ka, fields, rb), rows_of(kb, fields, rb))
    } else {
        cycle_aligned(rows_of(ka, fields, rb), rows_of(kb, fields, rb))
    }
}

/// How many rows a comparison of the kept entries aligns: by sequence, as
/// many as the shorter trace keeps; by cycle, the pairs of equal cycles a
/// merge-join meets.
pub open spec fn aligned_count_of(
    cfg: DiffConfig,
    ka: Seq<Map<Seq<char>, FieldValueView>>,
    kb: Seq<Map<Seq<char>, FieldValueView>>,
) -> nat {
    let rb = rebases(cfg, ka, kb);
    if cfg.alignment == AlignmentStrategy::Sequence {
        if ka.len() < kb.len() {
            ka.len()
        } else {
            kb.len()
        }
    } else {
        merge_join(entry_cycles(ka, rb), entry_cycles(kb, rb), 0, 0).len()
    }
}

proof fn lemma_merged_len(
    cfg: DiffConfig,
    ka: Seq<Map<Seq<char>, FieldValueView>>,
    kb: Seq<Map<Seq<char>, FieldValueView>>,
    fields: Seq<Seq<char>>,
)
    ensures
        merged_of(cfg, ka, kb, fields).len() == aligned_count_of(cfg, ka, kb),
{
    let rb = rebases(cfg, ka, kb);
    assert(cycles_of(rows_of(ka, fields, rb)) =~= entry_cycles(ka, rb));
    assert(cycles_of(rows_of(kb, fields, rb)) =~= entry_cycles(kb, rb));
}

/// Whether a field name is compared: named by both traces, and passing the
/// configuration's allow-list and deny-list.
pub open spec fn in_common(cfg: DiffConfig, fa: Seq<Seq<char>>, fb: Seq<Seq<char>>, n: Seq<char>) -> bool {
    selected(fa, fb, true, opt_texts(cfg.include_fields), opt_texts(cfg.exclude_fields), n)
}

/// Whether two traces have a field to compare.
pub open spec fn has_common(cfg: DiffConfig, fa: Seq<Seq<char>>, fb: Seq<Seq<char>>) -> bool {
    exists|n: Seq<char>| #[trigger] in_common(cfg, fa, fb, n)
}

/// `fields` with `x` added at the end, when it is not there and one of
/// the traces names it.
pub open spec fn with_extra(fields: Seq<Seq<char>>, x: Seq<char>, fa: Seq<Seq<char>>, fb: Seq<Seq<char>>) -> Seq<
    Seq<char>,
> {
    if !fields.contains(x) && (fa.contains(x) || fb.contains(x)) {
        fields.push(x)
    } else {
        fields
    }
}

/// The fields whose values the rows hold: the compared ones, then `pc`,
/// `op` and `a` where a trace has them (for context).
pub open spec fn row_fields(common: Seq<Seq<char>>, fa: Seq<Seq<char>>, fb: Seq<Seq<char>>) -> Seq<Seq<char>> {
    with_extra(with_extra(with_extra(common, "pc"@, fa, fb), "op"@, fa, fb), "a"@, fa, fb)
}

/// Why a comparison fails, when it does: no field to compare, or no row
/// aligned.
pub open spec fn compare_error(
    cfg: DiffConfig,
    ha: TraceHeader,
    ea: Seq<Map<Seq<char>, FieldValueView>>,
    hb: TraceHeader,
    eb: Seq<Map<Seq<char>, FieldValueView>>,
) -> Option<Seq<char>> {
    let ka = kept_entries(ea, cfg.skip_boot);
    let kb = kept_entries(eb, cfg.skip_boot);
    if !has_common(cfg, string_texts(ha.fields@), string_texts(hb.fields@)) {
        Some("no common fields to compare"@)
    } else if aligned_count_of(cfg, ka, kb) == 0 {
        Some("no aligned entries (traces may not overlap)"@)
    } else {
        None
    }
}

/// Whether `cf` lists the compared fields of two traces: those both name
/// that pass the filters, each once, in ascending order.
pub open spec fn is_common_list(cfg: DiffConfig, fa: Seq<Seq<char>>, fb: Seq<Seq<char>>, cf: Seq<Seq<char>>) -> bool {
    &&& strictly_sorted(cf)
    &&& forall|n: Seq<char>| #[trigger] cf.contains(n) <==> in_common(cfg, fa, fb, n)
}

/// Whether, comparing on the fields `cf`, the end of the context window
/// around the first divergent row (its position, plus 5, plus the
/// configured context) fits in a `usize`; true when no row diverges.
pub open spec fn context_fits(
    cfg: DiffConfig,
    fa: Seq<Seq<char>>,
    fb: Seq<Seq<char>>,
    ka: Seq<Map<Seq<char>, FieldValueView>>,
    kb: Seq<Map<Seq<char>, FieldValueView>>,
    cf: Seq<Seq<char>>,
) -> bool {
    let m = merged_of(cfg, ka, kb, row_fields(cf, fa, fb));
    let div = divergent_rows_upto(m, cf.len() as int, m.len() as int);
    div.len() > 0 ==> div[0] + 5 + cfg.context <= usize::MAX
}

/// What a comparison needs of its inputs, once the traces have a field
/// to compare (else it fails before any arithmetic): cycles that do not
/// fall below a trace's first where they are counted from it, and a
/// context window around the first divergent row whose end fits in a
/// `usize`.
pub open spec fn compare_requires(
    cfg: DiffConfig,
    ha: TraceHeader,
    ea: Seq<Map<Seq<char>, FieldValueView>>,
    hb: TraceHeader,
    eb: Seq<Map<Seq<char>, FieldValueView>>,
) -> bool {
    let fa = string_texts(ha.fields@);
    let fb = string_texts(hb.fields@);
    let ka = kept_entries(ea, cfg.skip_boot);
    let kb = kept_entries(eb, cfg.skip_boot);
    has_common(cfg, fa, fb) ==> {
        &&& rebases(cfg, ka, kb) ==> counts_up_from_first(ka) && counts_up_from_first(kb)
        &&& forall|cf: Seq<Seq<char>>| #[trigger] is_common_list(cfg, fa, fb, cf) ==> context_fits(cfg, fa, fb, ka, kb, cf)
    }
}

/// The outcome of comparing two traces.
pub struct DiffResult {
    pub name_a: String,
    pub name_b: String,
    /// Entries each trace keeps (after the boot ROM, with `skip_boot`).
    pub entries_a: usize,
    pub entries_b: usize,
    /// Rows aligned.
    pub aligned_count: usize,
    pub alignment_used: AlignmentStrategy,
    /// The compared fields, in ascending order.
    pub common_fields: Vec<String>,
    /// The fields only one trace has, in ascending order.
    pub only_in_a: Vec<String>,
    pub only_in_b: Vec<String>,
    /// The fields whose values the context rows hold, in their order: the
    /// compared ones, then `pc`, `op` and `a` where a trace has them.
    pub row_fields: Vec<String>,
    pub rom_mismatch: bool,
    pub boot_rom_mismatch: bool,
    pub field_divergences: Vec<FieldDivergence>,
    pub regions: Vec<DivergenceRegion>,
    /// Aligned rows where a compared field differs.
    pub total_divergent: usize,
    pub classification: DivergenceClass,
    pub context_window: Vec<ContextEntry>,
}

impl DiffResult {
    /// Whether the compared fields agree in every aligned row.
    pub fn is_identical(&self) -> (r: bool)
        ensures
            r == (self.classification == DivergenceClass::Identical),
    {
        match self.classification {
            DivergenceClass::Identical => true,
            _ => false,
        }
    }
}

/// Whether `d` is the result of comparing the traces: the names and sizes,
/// the compared fields (those in both traces that pass the filters, sorted)
/// and those only one has, the per-field divergences, the regions, the
/// classification and the context window, all over the rows the traces
/// keep, aligned as configured.
pub open spec fn describes(
    cfg: DiffConfig,
    ha: TraceHeader,
    ea: Seq<Map<Seq<char>, FieldValueView>>,
    hb: TraceHeader,
    eb: Seq<Map<Seq<char>, FieldValueView>>,
    d: DiffResult,
) -> bool {
    let fa = string_texts(ha.fields@);
    let fb = string_texts(hb.fields@);
    let ka = kept_entries(ea, cfg.skip_boot);
    let kb = kept_entries(eb, cfg.skip_boot);
    let cf = string_texts(d.common_fields@);
    let m = merged_of(cfg, ka, kb, row_fields(cf, fa, fb));
    let div = divergent_rows_upto(m, cf.len() as int, m.len() as int);
    &&& d.name_a@ == ha.emulator@
    &&& d.name_b@ == hb.emulator@
    &&& d.entries_a == ka.len()
    &&& d.entries_b == kb.len()
    &&& d.aligned_count == m.len()
    &&& d.alignment_used == (if cfg.alignment == AlignmentStrategy::Sequence {
        AlignmentStrategy::Sequence
    } else {
        AlignmentStrategy::Cycle
    })
    &&& strictly_sorted(cf)
    &&& forall|n: Seq<char>| #[trigger] cf.contains(n) <==> in_common(cfg, fa, fb, n)
    &&& strictly_sorted(string_texts(d.only_in_a@))
    &&& forall|n: Seq<char>|
        #[trigger] string_texts(d.only_in_a@).contains(n) <==> selected(fa, fb, false, None, None, n)
    &&& strictly_sorted(string_texts(d.only_in_b@))
    &&& forall|n: Seq<char>|
        #[trigger] string_texts(d.only_in_b@).contains(n) <==> selected(fb, fa, false, None, None, n)
    &&& string_texts(d.row_fields@) == row_fields(cf, fa, fb)
    &&& d.rom_mismatch == (ha.rom_sha256@ != hb.rom_sha256@)
    &&& d.boot_rom_mismatch == (ha.boot_rom@ != hb.boot_rom@)
    &&& divergences_view(d.field_divergences@) == field_divergences_of(m, cf)
    &&& regions_view(d.regions@) == regions_of(m, div)
    &&& d.total_divergent == div.len()
    &&& d.classification == classify_names(divergence_names(d.field_divergences@))
    &&& context_view(d.context_window@) == (if div.len() > 0 {
        context_window_of(m, cf, div[0] as int, cfg.context as int)
    } else {
        Seq::empty()
    })
}

/// What comparing two traces answers: the error of [`compare_error`] when
/// there is one, else a result that [`describes`] the comparison.
pub open spec fn compared(
    cfg: DiffConfig,
    ha: TraceHeader,
    ea: Seq<Map<Seq<char>, FieldValueView>>,
    hb: TraceHeader,
    eb: Seq<Map<Seq<char>, FieldValueView>>,
    r: Result<DiffResult, Error>,
) -> bool {
    match compare_error(cfg, ha, ea, hb, eb) {
        Some(m) => r matches Err(Error::Diff(s)) && s@ == m,
        None => r matches Ok(d) && describes(cfg, ha, ea, hb, eb, d),
    }
}

proof fn lemma_boot_end_from(es: Seq<Map<Seq<char>, FieldValueView>>, i: nat)
    requires
        i <= es.len(),
        forall|k: int| 0 <= k < i ==> pc_of(#[trigger] es[k]) != Some(0x0100u16),
    ensures
        boot_end(es, 0) == boot_end(es, i),
    decreases i,
{
    if i > 0 {
        lemma_boot_end_from(es, (i - 1) as nat);
    }
}

proof fn lemma_boot_end_bound(es: Seq<Map<Seq<char>, FieldValueView>>, i: nat)
    requires
        i <= es.len(),
    ensures
        i <= boot_end(es, i) <= es.len(),
    decreases es.len() - i,
{
    if i < es.len() && pc_of(es[i as int]) != Some(0x0100u16) {
        lemma_boot_end_bound(es, i + 1);
    }
}

/// Add `x` to the row fields when it is not there and a trace names it.
fn push_extra(all: &mut Vec<String>, x: &str, fields_a: &Vec<String>, fields_b: &Vec<String>)
    ensures
        string_texts(final(all)@) == with_extra(
            string_texts(old(all)@),
            x@,
            string_texts(fields_a@),
            string_texts(fields_b@),
        ),
{
    let ghost before = string_texts(all@);
    let present = contains_name(all, x);
    let in_a = contains_name(fields_a, x);
    let in_b = contains_name(fields_b, x);
    proof {
        lemma_names_field_contains(all@, x@);
        lemma_names_field_contains(fields_a@, x@);
        lemma_names_field_contains(fields_b@, x@);
    }
    if !present && (in_a || in_b) {
        all.push(string_of(&chars_of(x)));
        assert(string_texts(all@) =~= before.push(x@));
    }
}

proof fn lemma_names_field_contains(v: Seq<String>, n: Seq<char>)
    ensures
        crate::header::names_field(v, n) == string_texts(v).contains(n),
{
    if crate::header::names_field(v, n) {
        let i = choose|i: int| 0 <= i < v.len() && #[trigger] v[i]@ == n;
        assert(string_texts(v)[i] == n);
    }
    if string_texts(v).contains(n) {
        let i = choose|i: int| 0 <= i < string_texts(v).len() && string_texts(v)[i] == n;
        assert(v[i]@ == n);
    }
}

/// An entry's values of the fields, in field order (`None` for a field it
/// lacks).
fn entry_to_row(entry: &TraceEntry, fields: &Vec<String>) -> (r: Vec<Option<FieldValue>>)
    ensures
        row_view(r@) == row_of(entry@, string_texts(fields@)),
{
    let ghost fs = string_texts(fields@);
    let mut row: Vec<Option<FieldValue>> = Vec::new();
    let mut f: usize = 0;
    while f < fields.len()
        invariant
            f <= fields@.len(),
            fs == string_texts(fields@),
            row@.len() == f,
            forall|k: int| 0 <= k < f ==> opt_value(#[trigger] row@[k]) == row_of(entry@, fs)[k],
        decreases fields@.len() - f,
    {
        let v = match entry.get(fields[f].as_str()) {
            Some(x) => Some(x.duplicate()),
            None => None,
        };
        assert(fs[f as int] == fields@[f as int]@);
        assert(opt_value(v) == row_of(entry@, fs)[f as int]);
        let ghost before = row@;
        row.push(v);
        assert forall|k: int| 0 <= k < f + 1 implies opt_value(#[trigger] row@[k]) == row_of(entry@, fs)[k] by {
            if k < f {
                assert(row@[k] == before[k]);
            }
        }
        f += 1;
    }
    assert(row_view(row@) =~= row_of(entry@, fs));
    row
}

impl TraceDiffer {
    /// Whether the comparison aligns rows by sequence. The header of this
    /// format records no cycle unit, so `Auto` aligns by cycle.
    fn resolve_alignment(&self) -> (r: bool)
        ensures
            r == (self.config_view().alignment == AlignmentStrategy::Sequence),
    {
        match self.config.alignment {
            AlignmentStrategy::Sequence => true,
            _ => false,
        }
    }

    /// The position of the first entry the comparison keeps.
    fn boot_start(&self, entries: &Vec<TraceEntry>) -> (r: usize)
        ensures
            r == first_kept(entries_view(entries@), self.config_view().skip_boot),
            r <= entries@.len(),
    {
        let ghost es = entries_view(entries@);
        if !self.config.skip_boot {
            return 0;
        }
        let mut i: usize = 0;
        while i < entries.len()
            invariant
                i <= entries@.len(),
                es == entries_view(entries@),
                self.config_view().skip_boot,
                forall|k: int| 0 <= k < i ==> pc_of(#[trigger] es[k]) != Some(0x0100u16),
            decreases entries@.len() - i,
        {
            assert(es[i as int] == entries@[i as int]@);
            let at_start = match entries[i].get_u16("pc") {
                Some(p) => p == 0x0100u16,
                None => false,
            };
            if at_start {
                proof {
                    lemma_boot_end_from(es, i as nat);
                }
                return i;
            }
            i += 1;
        }
        proof {
            lemma_boot_end_from(es, i as nat);
        }
        i
    }

    /// The rows of the entries from `start` on: each entry's cycle less
    /// `base`, and its values of the fields.
    fn load_rows(&self, entries: &Vec<TraceEntry>, start: usize, all_fields: &Vec<String>, base: u64) -> (r: Vec<
        (u64, Vec<Option<FieldValue>>),
    >)
        requires
            start <= entries@.len(),
            forall|k: int| start <= k < entries@.len() ==> cy_of(#[trigger] entries_view(entries@)[k]) >= base,
        ensures
            rows_view(r@) == Seq::new(
                (entries@.len() - start) as nat,
                |i: int|
                    (
                        (cy_of(entries_view(entries@)[start + i]) - base) as u64,
                        row_of(entries_view(entries@)[start + i], string_texts(all_fields@)),
                    ),
            ),
    {
        let ghost es = entries_view(entries@);
        let ghost fs = string_texts(all_fields@);
        let mut rows: Vec<(u64, Vec<Option<FieldValue>>)> = Vec::new();
        let mut i = start;
        while i < entries.len()
            invariant
                start <= i <= entries@.len(),
                es == entries_view(entries@),
                fs == string_texts(all_fields@),
                forall|k: int| start <= k < entries@.len() ==> cy_of(#[trigger] es[k]) >= base,
                rows@.len() == i - start,
                forall|k: int|
                    0 <= k < rows@.len() ==> #[trigger] rows_view(rows@)[k] == (
                        (cy_of(es[start + k]) - base) as u64,
                        row_of(es[start + k], fs),
                    ),
            decreases entries@.len() - i,
        {
            let entry = &entries[i];
            assert(es[i as int] == entry@);
            let cy = match entry.cy() {
                Some(n) => n,
                None => 0,
            };
            assert(cy == cy_of(es[i as int]));
            let row = entry_to_row(entry, all_fields);
            let ghost before = rows@;
            rows.push((cy - base, row));
            assert(rows_view(rows@)[rows@.len() - 1] == ((cy_of(es[i as int]) - base) as u64, row_of(es[i as int], fs)));
            assert forall|k: int| 0 <= k < rows@.len() - 1 implies #[trigger] rows_view(rows@)[k] == rows_view(before)[k] by {
                assert(rows@[k] == before[k]);
            }
            i += 1;
        }
        proof {
            let want = Seq::new(
                (entries@.len() - start) as nat,
                |i: int| ((cy_of(es[start + i]) - base) as u64, row_of(es[start + i], fs)),
            );
            assert(rows_view(rows@) =~= want);
        }
        rows
    }

    /// Compare two traces: align the entries each keeps (by sequence or by
    /// cycle) on the fields both have, and report per-field divergences,
    /// regions of divergent rows, a classification and the rows around the
    /// first divergence.
    #[verifier::rlimit(60)]
    pub fn compare(
        &self,
        header_a: &TraceHeader,
        entries_a: Vec<TraceEntry>,
        header_b: &TraceHeader,
        entries_b: Vec<TraceEntry>,
    ) -> (r: Result<DiffResult, Error>)
        requires
            compare_requires(
                self.config_view(),
                *header_a,
                entries_view(entries_a@),
                *header_b,
                entries_view(entries_b@),
            ),
        ensures
            compared(
                self.config_view(),
                *header_a,
                entries_view(entries_a@),
                *header_b,
                entries_view(entries_b@),
                r,
            ),
    {
        let ghost cfg = self.config_view();
        let ghost fa = string_texts(header_a.fields@);
        let ghost fb = string_texts(header_b.fields@);
        let ghost ea = entries_view(entries_a@);
        let ghost eb = entries_view(entries_b@);
        let ghost ka = kept_entries(ea, cfg.skip_boot);
        let ghost kb = kept_entries(eb, cfg.skip_boot);
        let name_a = header_a.emulator.clone();
        let name_b = header_b.emulator.clone();
        let use_sequence = self.resolve_alignment();
        let alignment_used = if use_sequence {
            AlignmentStrategy::Sequence
        } else {
            AlignmentStrategy::Cycle
        };
        let common_fields = select_names(
            &header_a.fields,
            &header_b.fields,
            true,
            &self.config.include_fields,
            &self.config.exclude_fields,
        );
        let ghost cf = string_texts(common_fields@);
        if common_fields.len() == 0 {
            proof {
                if has_common(cfg, fa, fb) {
                    let n = choose|n: Seq<char>| #[trigger] in_common(cfg, fa, fb, n);
                    assert(cf.contains(n));
                }
            }
            return Err(Error::Diff(string_of(&chars_of("no common fields to compare"))));
        }
        proof {
            assert(cf.contains(cf[0]));
            assert(in_common(cfg, fa, fb, cf[0]));
            assert(is_common_list(cfg, fa, fb, cf));
        }
        let no_filter: Option<Vec<String>> = None;
        let only_in_a = select_names(&header_a.fields, &header_b.fields, false, &no_filter, &no_filter);
        let only_in_b = select_names(&header_b.fields, &header_a.fields, false, &no_filter, &no_filter);
        let mut all_fields = crate::header::copy_strings(&common_fields);
        push_extra(&mut all_fields, "pc", &header_a.fields, &header_b.fields);
        push_extra(&mut all_fields, "op", &header_a.fields, &header_b.fields);
        push_extra(&mut all_fields, "a", &header_a.fields, &header_b.fields);
        let ghost af = string_texts(all_fields@);
        assert(af == row_fields(cf, fa, fb));
        assert(af.len() >= cf.len());

        let start_a = self.boot_start(&entries_a);
        let start_b = self.boot_start(&entries_b);
        proof {
            lemma_boot_end_bound(ea, 0);
            lemma_boot_end_bound(eb, 0);
        }
        let rebase = !use_sequence && self.config.skip_boot && start_a < entries_a.len() && start_b
            < entries_b.len() && {
            let ca = match entries_a[start_a].cy() {
                Some(n) => n,
                None => 0,
            };
            let cb = match entries_b[start_b].cy() {
                Some(n) => n,
                None => 0,
            };
            ca != cb
        };
        let ghost rb = rebases(cfg, ka, kb);
        assert(ka.len() == ea.len() - start_a);
        assert(kb.len() == eb.len() - start_b);
        assert(rebase == rb) by {
            if start_a < entries_a.len() {
                assert(ka[0] == ea[start_a as int]);
            }
            if start_b < entries_b.len() {
                assert(kb[0] == eb[start_b as int]);
            }
        }
        let base_a: u64 = if rebase {
            match entries_a[start_a].cy() {
                Some(n) => n,
                None => 0,
            }
        } else {
            0
        };
        let base_b: u64 = if rebase {
            match entries_b[start_b].cy() {
                Some(n) => n,
                None => 0,
            }
        } else {
            0
        };
        proof {
            if rebase {
                assert(ka[0] == ea[start_a as int]);
                assert(kb[0] == eb[start_b as int]);
                assert forall|k: int| start_a <= k < ea.len() implies cy_of(#[trigger] ea[k]) >= base_a by {
                    assert(ka[k - start_a] == ea[k]);
                }
                assert forall|k: int| start_b <= k < eb.len() implies cy_of(#[trigger] eb[k]) >= base_b by {
                    assert(kb[k - start_b] == eb[k]);
                }
            }
        }
        let rows_a = self.load_rows(&entries_a, start_a, &all_fields, base_a);
        let rows_b = self.load_rows(&entries_b, start_b, &all_fields, base_b);
        proof {
            assert(rows_view(rows_a@) =~= rows_of(ka, af, rb)) by {
                assert forall|i: int| 0 <= i < ka.len() implies ka[i] == ea[start_a + i] by {}
            }
            assert(rows_view(rows_b@) =~= rows_of(kb, af, rb)) by {
                assert forall|i: int| 0 <= i < kb.len() implies kb[i] == eb[start_b + i] by {}
            }
        }
        let merged = if use_sequence {
            align_sequence(&rows_a, &rows_b)
        } else {
            align_cycle(&rows_a, &rows_b)
        };
        let ghost m = merged_view(merged@);
        assert(m == merged_of(cfg, ka, kb, af));
        proof {
            lemma_merged_len(cfg, ka, kb, af);
        }
        if merged.len() == 0 {
            return Err(Error::Diff(string_of(&chars_of("no aligned entries (traces may not overlap)"))));
        }
        let aligned_count = merged.len();
        proof {
            lemma_merged_rows_have(cfg, ka, kb, af, cf.len() as int);
        }
        let field_divergences = compute_field_divergences(&merged, &common_fields);
        let div_indices = divergent_rows(&merged, common_fields.len());
        proof {
            lemma_divergent_rows_positions(m, cf.len() as int, m.len() as int);
        }
        let total_divergent = div_indices.len();
        let regions = group_divergence_ranges(&merged, &div_indices);
        let classification = classify(&field_divergences, &common_fields);
        let context_window = if div_indices.len() > 0 {
            let first = div_indices[0];
            assert(first < m.len());
            assert(context_fits(cfg, fa, fb, ka, kb, cf));
            self.build_context_window(&merged, &common_fields, first)
        } else {
            let empty: Vec<ContextEntry> = Vec::new();
            assert(context_view(empty@) =~= Seq::<ContextEntryView>::empty());
            empty
        };
        let rom_mismatch = !str_eq(header_a.rom_sha256.as_str(), header_b.rom_sha256.as_str());
        let boot_rom_mismatch = !header_a.boot_rom.same_as(&header_b.boot_rom);
        let d = DiffResult {
            name_a,
            name_b,
            entries_a: entries_a.len() - start_a,
            entries_b: entries_b.len() - start_b,
            aligned_count,
            alignment_used,
            common_fields,
            only_in_a,
            only_in_b,
            row_fields: all_fields,
            rom_mismatch,
            boot_rom_mismatch,
            field_divergences,
            regions,
            total_divergent,
            classification,
            context_window,
        };
        Ok(d)
    }
}

proof fn lemma_merged_rows_width(
    cfg: DiffConfig,
    ka: Seq<Map<Seq<char>, FieldValueView>>,
    kb: Seq<Map<Seq<char>, FieldValueView>>,
    fields: Seq<Seq<char>>,
    r: int,
)
    requires
        0 <= r < merged_of(cfg, ka, kb, fields).len(),
    ensures
        merged_of(cfg, ka, kb, fields)[r].vals_a.len() == fields.len(),
        merged_of(cfg, ka, kb, fields)[r].vals_b.len() == fields.len(),
{
    let rb = rebases(cfg, ka, kb);
    if cfg.alignment != AlignmentStrategy::Sequence {
        let pairs = merge_join(cycles_of(rows_of(ka, fields, rb)), cycles_of(rows_of(kb, fields, rb)), 0, 0);
        lemma_merge_join_bounds(cycles_of(rows_of(ka, fields, rb)), cycles_of(rows_of(kb, fields, rb)), 0, 0, r);
    }
}

proof fn lemma_merged_rows_have(
    cfg: DiffConfig,
    ka: Seq<Map<Seq<char>, FieldValueView>>,
    kb: Seq<Map<Seq<char>, FieldValueView>>,
    fields: Seq<Seq<char>>,
    n: int,
)
    requires
        n <= fields.len(),
    ensures
        rows_have(merged_of(cfg, ka, kb, fields), n),
{
    let m = merged_of(cfg, ka, kb, fields);
    assert forall|r: int| 0 <= r < m.len() implies #[trigger] m[r].vals_a.len() >= n && m[r].vals_b.len() >= n by {
        lemma_merged_rows_width(cfg, ka, kb, fields, r);
    }
}

proof fn lemma_merge_join_bounds(ca: Seq<u64>, cb: Seq<u64>, i: int, j: int, k: int)
    requires
        0 <= i,
        0 <= j,
        0 <= k < merge_join(ca, cb, i, j).len(),
    ensures
        0 <= merge_join(ca, cb, i, j)[k].0 < ca.len(),
        0 <= merge_join(ca, cb, i, j)[k].1 < cb.len(),
    decreases ca.len() - i + cb.len() - j,
{
    if i >= ca.len() || j >= cb.len() {
    } else if ca[i] == cb[j] {
        if k > 0 {
            lemma_merge_join_bounds(ca, cb, i + 1, j + 1, k - 1);
        }
    } else if ca[i] < cb[j] {
        lemma_merge_join_bounds(ca, cb, i + 1, j, k);
    } else {
        lemma_merge_join_bounds(ca, cb, i, j + 1, k);
    }
}

proof fn lemma_divergent_rows_positions(m: Seq<MergedRowView>, nf: int, n: int)
    requires
        0 <= n <= m.len(),
        m.len() <= usize::MAX,
    ensures
        positions_ok(m.len() as int, divergent_rows_upto(m, nf, n)),
        forall|k: int|
            0 <= k < divergent_rows_upto(m, nf, n).len() ==> #[trigger] divergent_rows_upto(m, nf, n)[k] < n,
    decreases n,
{
    if n > 0 {
        lemma_divergent_rows_positions(m, nf, n - 1);
        let d = divergent_rows_upto(m, nf, n - 1);
        if row_divergent(m[n - 1].vals_a, m[n - 1].vals_b, nf) {
            let e = d.push((n - 1) as usize);
            assert(divergent_rows_upto(m, nf, n) == e);
            assert forall|k: int| 0 < k < e.len() implies e[k - 1] <= #[trigger] e[k] by {
                if k < d.len() {
                    assert(e[k - 1] == d[k - 1] && e[k] == d[k]);
                } else {
                    assert(e[k - 1] == d[k - 1]);
                    assert(d[k - 1] < n - 1);
                }
            }
            assert forall|k: int| 0 <= k < e.len() implies #[trigger] e[k] < n by {
                if k < d.len() {
                    assert(e[k] == d[k]);
                }
            }
        }
    }
}

/// The pairs of trace positions an N-way comparison meets from position
/// `i` on: each `(i, j)` with `i < j < n`, ordered by `i`, then `j`.
pub open spec fn pairs_from(n: int, i: int) -> Seq<(int, int)>
    decreases n - i,
{
    if i < 0 || i >= n {
        Seq::empty()
    } else {
        Seq::new((n - i - 1) as nat, |k: int| (i, i + 1 + k)) + pairs_from(n, i + 1)
    }
}

/// The outcome of comparing several traces: one result per pair, in the
/// order of [`pairs_from`].
pub struct MultiDiffResult {
    pub pairwise: Vec<DiffResult>,
}

/// The headers and entry values of a list of traces.
pub open spec fn trace_header(t: Seq<(TraceHeader, Vec<TraceEntry>)>, i: int) -> TraceHeader {
    t[i].0
}

/// The entry values of trace `i` of a list.
pub open spec fn trace_entries(t: Seq<(TraceHeader, Vec<TraceEntry>)>, i: int) -> Seq<Map<Seq<char>, FieldValueView>> {
    entries_view(t[i].1@)
}

/// Whether the `k`-th pair of a list of traces compares without error.
pub open spec fn pair_compares(cfg: DiffConfig, t: Seq<(TraceHeader, Vec<TraceEntry>)>, p: (int, int)) -> bool {
    compare_error(cfg, trace_header(t, p.0), trace_entries(t, p.0), trace_header(t, p.1), trace_entries(t, p.1))
        is None
}

/// A copy of a list of entries.
fn copy_entries(v: &Vec<TraceEntry>) -> (r: Vec<TraceEntry>)
    ensures
        entries_view(r@) == entries_view(v@),
{
    let mut r: Vec<TraceEntry> = Vec::new();
    let mut i: usize = 0;
    while i < v.len()
        invariant
            i <= v@.len(),
            r@.len() == i,
            forall|k: int| 0 <= k < i ==> (#[trigger] r@[k])@ == v@[k]@,
        decreases v@.len() - i,
    {
        r.push(v[i].duplicate());
        i += 1;
    }
    assert(entries_view(r@) =~= entries_view(v@));
    r
}

impl TraceDiffer {
    /// Compare every pair of traces, in the order of [`pairs_from`]; the
    /// first pair that fails ends the comparison with its error.
    pub fn compare_multi(&self, traces: Vec<(TraceHeader, Vec<TraceEntry>)>) -> (r: Result<MultiDiffResult, Error>)
        requires
            forall|i: int, j: int|
                0 <= i < j < traces@.len() ==> compare_requires(
                    self.config_view(),
                    #[trigger] trace_header(traces@, i),
                    trace_entries(traces@, i),
                    #[trigger] trace_header(traces@, j),
                    trace_entries(traces@, j),
                ),
        ensures
            ({
                let cfg = self.config_view();
                let t = traces@;
                let ps = pairs_from(t.len() as int, 0);
                &&& (r is Ok) <==> (forall|k: int| 0 <= k < ps.len() ==> #[trigger] pair_compares(cfg, t, ps[k]))
                &&& (r matches Ok(m) ==> {
                    &&& m.pairwise@.len() == ps.len()
                    &&& forall|k: int|
                        0 <= k < ps.len() ==> compared(
                            cfg,
                            trace_header(t, ps[k].0),
                            trace_entries(t, ps[k].0),
                            trace_header(t, ps[k].1),
                            trace_entries(t, ps[k].1),
                            Ok(#[trigger] m.pairwise@[k]),
                        )
                })
                &&& (r matches Err(e) ==> exists|k: int|
                    0 <= k < ps.len() && (forall|q: int| 0 <= q < k ==> #[trigger] pair_compares(cfg, t, ps[q]))
                        && #[trigger] compared(
                        cfg,
                        trace_header(t, ps[k].0),
                        trace_entries(t, ps[k].0),
                        trace_header(t, ps[k].1),
                        trace_entries(t, ps[k].1),
                        Err(e),
                    ))
            }),
    {
        let ghost cfg = self.config_view();
        let ghost t = traces@;
        let n = traces.len();
        let ghost ps = pairs_from(n as int, 0);
        let mut pairwise: Vec<DiffResult> = Vec::new();
        let ghost mut done: Seq<(int, int)> = Seq::empty();
        let mut i: usize = 0;
        while i < n
            invariant
                i <= n,
                n == t.len(),
                t == traces@,
                cfg == self.config_view(),
                ps == pairs_from(n as int, 0),
                ps == done + pairs_from(n as int, i as int),
                pairwise@.len() == done.len(),
                forall|i: int, j: int|
                    0 <= i < j < t.len() ==> compare_requires(
                        cfg,
                        #[trigger] trace_header(t, i),
                        trace_entries(t, i),
                        #[trigger] trace_header(t, j),
                        trace_entries(t, j),
                    ),
                forall|k: int| 0 <= k < done.len() ==> #[trigger] pair_compares(cfg, t, done[k]),
                forall|k: int|
                    0 <= k < done.len() ==> compared(
                        cfg,
                        trace_header(t, done[k].0),
                        trace_entries(t, done[k].0),
                        trace_header(t, done[k].1),
                        trace_entries(t, done[k].1),
                        Ok(#[trigger] pairwise@[k]),
                    ),
            decreases n - i,
        {
            let mut j: usize = i + 1;
            assert(Seq::new((n - (i + 1)) as nat, |k: int| (i as int, j + k)) =~= Seq::new(
                (n - i - 1) as nat,
                |k: int| (i as int, i + 1 + k),
            ));
            while j < n
                invariant
                    i < n,
                    i + 1 <= j <= n,
                    n == t.len(),
                    t == traces@,
                    cfg == self.config_view(),
                    ps == pairs_from(n as int, 0),
                    ps == done + Seq::new((n - j) as nat, |k: int| (i as int, j + k)) + pairs_from(
                        n as int,
                        i + 1,
                    ),
                    pairwise@.len() == done.len(),
                    forall|i: int, j: int|
                        0 <= i < j < t.len() ==> compare_requires(
                            cfg,
                            #[trigger] trace_header(t, i),
                            trace_entries(t, i),
                            #[trigger] trace_header(t, j),
                            trace_entries(t, j),
                        ),
                    forall|k: int| 0 <= k < done.len() ==> #[trigger] pair_compares(cfg, t, done[k]),
                    forall|k: int|
                        0 <= k < done.len() ==> compared(
                            cfg,
                            trace_header(t, done[k].0),
                            trace_entries(t, done[k].0),
                            trace_header(t, done[k].1),
                            trace_entries(t, done[k].1),
                            Ok(#[trigger] pairwise@[k]),
                        ),
                decreases n - j,
            {
                let ghost mid = Seq::new((n - j) as nat, |k: int| (i as int, j + k));
                let ghost rest = pairs_from(n as int, i + 1);
                assert(mid =~= seq![(i as int, j as int)] + Seq::new((n - (j + 1)) as nat, |k: int| (i as int, j + 1 + k)));
                assert(ps[done.len() as int] == (i as int, j as int)) by {
                    assert(ps == done + mid + rest);
                    assert((done + mid + rest)[done.len() as int] == mid[0]);
                }
                let ea = copy_entries(&traces[i].1);
                let eb = copy_entries(&traces[j].1);
                assert(compare_requires(cfg, trace_header(t, i as int), trace_entries(t, i as int), trace_header(t, j as int), trace_entries(t, j as int)));
                let res = self.compare(&traces[i].0, ea, &traces[j].0, eb);
                match res {
                    Ok(d) => {
                        let ghost before = pairwise@;
                        pairwise.push(d);
                        proof {
                            let newdone = done.push((i as int, j as int));
                            assert(ps == newdone + Seq::new((n - (j + 1)) as nat, |k: int| (i as int, j + 1 + k))
                                + rest) by {
                                assert(done + mid + rest =~= newdone + Seq::new(
                                    (n - (j + 1)) as nat,
                                    |k: int| (i as int, j + 1 + k),
                                ) + rest);
                            }
                            assert forall|k: int| 0 <= k < newdone.len() implies #[trigger] pair_compares(cfg, t, newdone[k]) by {
                                if k < done.len() {
                                    assert(newdone[k] == done[k]);
                                }
                            }
                            assert forall|k: int|
                                0 <= k < newdone.len() implies compared(
                                cfg,
                                trace_header(t, newdone[k].0),
                                trace_entries(t, newdone[k].0),
                                trace_header(t, newdone[k].1),
                                trace_entries(t, newdone[k].1),
                                Ok(#[trigger] pairwise@[k]),
                            ) by {
                                if k < done.len() {
                                    assert(newdone[k] == done[k]);
                                    assert(pairwise@[k] == before[k]);
                                }
                            }
                            done = newdone;
                        }
                    },
                    Err(e) => {
                        proof {
                            let k = done.len() as int;
                            assert(ps[k] == (i as int, j as int));
                            assert forall|q: int| 0 <= q < k implies #[trigger] pair_compares(cfg, t, ps[q]) by {
                                assert(ps[q] == done[q]);
                            }
                            assert(compared(
                                cfg,
                                trace_header(t, ps[k].0),
                                trace_entries(t, ps[k].0),
                                trace_header(t, ps[k].1),
                                trace_entries(t, ps[k].1),
                                Err(e),
                            ));
                            assert(!pair_compares(cfg, t, ps[k]));
                        }
                        return Err(e);
                    },
                }
                j += 1;
            }
            assert(Seq::new((n - j) as nat, |k: int| (i as int, j + k)) =~= Seq::<(int, int)>::empty());
            assert(done + Seq::new((n - j) as nat, |k: int| (i as int, j + k)) =~= done);
            i += 1;
        }
        proof {
            assert(pairs_from(n as int, i as int) =~= Seq::<(int, int)>::empty());
            assert(ps =~= done);
        }
        Ok(MultiDiffResult { pairwise })
    }
}


// ---------------------------------------------------------------------------
// Laws of comparison results
// ---------------------------------------------------------------------------

proof fn lemma_first_where_none(n: int, p: spec_fn(int) -> bool)
    ensures
        (first_where_of(n, p) is None) <==> (forall|r: int| 0 <= r < n ==> !#[trigger] p(r)),
    decreases n,
{
    if n > 0 {
        lemma_first_where_none(n - 1, p);
    }
}

/// `first_where` of the column store, named here for the proofs below.
pub open spec fn first_where_of(n: int, p: spec_fn(int) -> bool) -> Option<int> {
    crate::column_store::first_where(n, p)
}

proof fn lemma_sort_len(s: Seq<FieldDivergenceView>)
    ensures
        sort_by_index(s).len() == s.len(),
    decreases s.len(),
{
    if s.len() > 0 {
        lemma_sort_len(s.drop_last());
        law_sorted_divergences(s.drop_last());
        lemma_insert_sorted(sort_by_index(s.drop_last()), s.last());
    }
}

proof fn lemma_unsorted_empty(m: Seq<MergedRowView>, names: Seq<Seq<char>>, n: int)
    ensures
        (unsorted_divergences(m, names, n).len() == 0) <==> (forall|f: int, r: int|
            0 <= f < n && 0 <= r < m.len() ==> !#[trigger] differs(m[r].vals_a, m[r].vals_b, f)),
    decreases n,
{
    if n > 0 {
        lemma_unsorted_empty(m, names, n - 1);
        let f = n - 1;
        lemma_first_where_none(m.len() as int, differs_test(m, f));
        assert(forall|r: int| 0 <= r < m.len() ==> (differs_test(m, f)(r) == differs(m[r].vals_a, m[r].vals_b, f)));
        if divergence_of(m, names[f], f) is None {
            assert forall|g: int, r: int|
                0 <= g < n && 0 <= r < m.len() && (forall|f2: int, r2: int|
                    0 <= f2 < n - 1 && 0 <= r2 < m.len() ==> !#[trigger] differs(m[r2].vals_a, m[r2].vals_b, f2))
                implies !#[trigger] differs(m[r].vals_a, m[r].vals_b, g) by {
                if g == f {
                    assert(!differs_test(m, f)(r));
                }
            }
        } else {
            let r = first_where_of(m.len() as int, differs_test(m, f))->0;
            lemma_first_where_bound(m.len() as int, differs_test(m, f));
            assert(differs(m[r].vals_a, m[r].vals_b, f));
        }
    }
}

proof fn lemma_first_where_bound(n: int, p: spec_fn(int) -> bool)
    ensures
        first_where_of(n, p) matches Some(r) ==> 0 <= r < n && p(r),
    decreases n,
{
    if n > 0 {
        lemma_first_where_bound(n - 1, p);
    }
}

proof fn lemma_div_rows_empty(m: Seq<MergedRowView>, nf: int, n: int)
    ensures
        (divergent_rows_upto(m, nf, n).len() == 0) <==> (forall|r: int|
            0 <= r < n ==> !#[trigger] row_divergent(m[r].vals_a, m[r].vals_b, nf)),
    decreases n,
{
    if n > 0 {
        lemma_div_rows_empty(m, nf, n - 1);
    }
}

/// A comparison calls two traces identical exactly when no aligned row
/// differs in a compared field.
pub proof fn law_identical_iff_no_divergent_row(
    cfg: DiffConfig,
    ha: TraceHeader,
    ea: Seq<Map<Seq<char>, FieldValueView>>,
    hb: TraceHeader,
    eb: Seq<Map<Seq<char>, FieldValueView>>,
    d: DiffResult,
)
    requires
        describes(cfg, ha, ea, hb, eb, d),
    ensures
        (d.classification == DivergenceClass::Identical) <==> (d.total_divergent == 0),
{
    let fa = string_texts(ha.fields@);
    let fb = string_texts(hb.fields@);
    let ka = kept_entries(ea, cfg.skip_boot);
    let kb = kept_entries(eb, cfg.skip_boot);
    let cf = string_texts(d.common_fields@);
    let m = merged_of(cfg, ka, kb, row_fields(cf, fa, fb));
    let nf = cf.len() as int;
    let u = unsorted_divergences(m, cf, nf);
    lemma_sort_len(u);
    lemma_unsorted_empty(m, cf, nf);
    lemma_div_rows_empty(m, nf, m.len() as int);
    assert(d.field_divergences@.len() == divergences_view(d.field_divergences@).len());
    assert(divergence_names(d.field_divergences@).len() == d.field_divergences@.len());
    if d.total_divergent == 0 {
        assert forall|f: int, r: int| 0 <= f < nf && 0 <= r < m.len() implies !#[trigger] differs(
            m[r].vals_a,
            m[r].vals_b,
            f,
        ) by {
            assert(!row_divergent(m[r].vals_a, m[r].vals_b, nf));
        }
        assert(divergence_names(d.field_divergences@).len() == 0);
    } else {
        let r = choose|r: int| 0 <= r < m.len() && #[trigger] row_divergent(m[r].vals_a, m[r].vals_b, nf);
        let f = choose|f: int| 0 <= f < nf && #[trigger] differs(m[r].vals_a, m[r].vals_b, f);
        assert(u.len() != 0);
        let names = divergence_names(d.field_divergences@);
        assert(names.len() > 0);
        assert(classify_names(names) != DivergenceClass::Identical);
    }
}

proof fn lemma_merge_join_self(c: Seq<u64>, i: int)
    requires
        0 <= i <= c.len(),
    ensures
        merge_join(c, c, i, i).len() == c.len() - i,
        forall|k: int|
            0 <= k < c.len() - i ==> #[trigger] merge_join(c, c, i, i)[k] == (i + k, i + k),
    decreases c.len() - i,
{
    if i < c.len() {
        lemma_merge_join_self(c, i + 1);
        let rest = merge_join(c, c, i + 1, i + 1);
        assert(merge_join(c, c, i, i) == seq![(i, i)] + rest);
        assert forall|k: int| 0 <= k < c.len() - i implies #[trigger] merge_join(c, c, i, i)[k] == (i + k, i + k) by {
            if k > 0 {
                assert(merge_join(c, c, i, i)[k] == rest[k - 1]);
            }
        }
    }
}

/// Comparing a trace with itself finds no divergent row, so the traces
/// are identical.
pub proof fn law_compare_self_identical(
    cfg: DiffConfig,
    h: TraceHeader,
    es: Seq<Map<Seq<char>, FieldValueView>>,
    d: DiffResult,
)
    requires
        describes(cfg, h, es, h, es, d),
    ensures
        d.total_divergent == 0,
        d.classification == DivergenceClass::Identical,
        d.regions@.len() == 0,
        d.aligned_count == d.entries_a,
{
    let f = string_texts(h.fields@);
    let k = kept_entries(es, cfg.skip_boot);
    let cf = string_texts(d.common_fields@);
    let fields = row_fields(cf, f, f);
    let rb = rebases(cfg, k, k);
    assert(!rb);
    let rows = rows_of(k, fields, rb);
    let m = merged_of(cfg, k, k, fields);
    let nf = cf.len() as int;
    if cfg.alignment == AlignmentStrategy::Sequence {
        assert(m == sequence_aligned(rows, rows));
    } else {
        let c = cycles_of(rows);
        lemma_merge_join_self(c, 0);
        assert(m == cycle_aligned(rows, rows));
    }
    assert forall|r: int| 0 <= r < m.len() implies m[r].vals_a == m[r].vals_b by {
        if cfg.alignment != AlignmentStrategy::Sequence {
            let c = cycles_of(rows);
            assert(merge_join(c, c, 0, 0)[r] == (r, r));
        }
    }
    lemma_div_rows_empty(m, nf, m.len() as int);
    assert forall|r: int| 0 <= r < m.len() implies !#[trigger] row_divergent(m[r].vals_a, m[r].vals_b, nf) by {
        assert(m[r].vals_a == m[r].vals_b);
    }
    law_identical_iff_no_divergent_row(cfg, h, es, h, es, d);
    let div = divergent_rows_upto(m, nf, m.len() as int);
    assert(regions_of(m, div).len() == 0);
    assert(regions_view(d.regions@).len() == d.regions@.len());
    if cfg.alignment != AlignmentStrategy::Sequence {
        let c = cycles_of(rows);
        lemma_merge_join_self(c, 0);
    }
}

/// The merged rows with the two sides exchanged.
pub open spec fn swapped_rows(m: Seq<MergedRowView>) -> Seq<MergedRowView> {
    Seq::new(m.len(), |k: int| MergedRowView { index: m[k].index, vals_a: m[k].vals_b, vals_b: m[k].vals_a })
}

proof fn lemma_merge_join_swap(ca: Seq<u64>, cb: Seq<u64>, i: int, j: int)
    ensures
        merge_join(cb, ca, j, i).len() == merge_join(ca, cb, i, j).len(),
        forall|k: int|
            0 <= k < merge_join(ca, cb, i, j).len() ==> #[trigger] merge_join(cb, ca, j, i)[k] == (
                merge_join(ca, cb, i, j)[k].1,
                merge_join(ca, cb, i, j)[k].0,
            ),
        forall|k: int|
            0 <= k < merge_join(ca, cb, i, j).len() ==> ca[#[trigger] merge_join(ca, cb, i, j)[k].0] == cb[merge_join(
                ca,
                cb,
                i,
                j,
            )[k].1],
    decreases ca.len() - i + cb.len() - j,
{
    if i < 0 || j < 0 || i >= ca.len() || j >= cb.len() {
    } else if ca[i] == cb[j] {
        lemma_merge_join_swap(ca, cb, i + 1, j + 1);
        let rest = merge_join(ca, cb, i + 1, j + 1);
        let rest2 = merge_join(cb, ca, j + 1, i + 1);
        let all = merge_join(ca, cb, i, j);
        let all2 = merge_join(cb, ca, j, i);
        assert(all == seq![(i, j)] + rest);
        assert(all2 == seq![(j, i)] + rest2);
        assert forall|k: int| 0 <= k < all.len() implies #[trigger] all2[k] == (all[k].1, all[k].0) by {
            if k > 0 {
                assert(all[k] == rest[k - 1] && all2[k] == rest2[k - 1]);
            }
        }
        assert forall|k: int| 0 <= k < all.len() implies ca[#[trigger] all[k].0] == cb[all[k].1] by {
            if k > 0 {
                assert(all[k] == rest[k - 1]);
            }
        }
    } else if ca[i] < cb[j] {
        lemma_merge_join_swap(ca, cb, i + 1, j);
    } else {
        lemma_merge_join_swap(ca, cb, i, j + 1);
    }
}

/// Comparing the traces the other way round aligns the same rows, with
/// the two sides exchanged.
proof fn lemma_merged_swap(
    cfg: DiffConfig,
    ka: Seq<Map<Seq<char>, FieldValueView>>,
    kb: Seq<Map<Seq<char>, FieldValueView>>,
    fields: Seq<Seq<char>>,
)
    ensures
        merged_of(cfg, kb, ka, fields) == swapped_rows(merged_of(cfg, ka, kb, fields)),
{
    let rb = rebases(cfg, ka, kb);
    assert(rebases(cfg, kb, ka) == rb);
    let ra = rows_of(ka, fields, rb);
    let rbb = rows_of(kb, fields, rb);
    if cfg.alignment == AlignmentStrategy::Sequence {
        assert(sequence_aligned(rbb, ra) =~= swapped_rows(sequence_aligned(ra, rbb)));
    } else {
        let ca = cycles_of(ra);
        let cb = cycles_of(rbb);
        lemma_merge_join_swap(ca, cb, 0, 0);
        let p = merge_join(ca, cb, 0, 0);
        let m1 = cycle_aligned(ra, rbb);
        let m2 = cycle_aligned(rbb, ra);
        assert forall|k: int| 0 <= k < m2.len() implies #[trigger] m2[k] == swapped_rows(m1)[k] by {
            lemma_merge_join_bounds(ca, cb, 0, 0, k);
            assert(merge_join(cb, ca, 0, 0)[k] == (p[k].1, p[k].0));
            assert(ca[p[k].0] == cb[p[k].1]);
            assert(ca[p[k].0] == ra[p[k].0].0);
            assert(cb[p[k].1] == rbb[p[k].1].0);
        }
        assert(m2 =~= swapped_rows(m1));
    }
}

proof fn lemma_divergent_rows_swap(m: Seq<MergedRowView>, nf: int, n: int)
    requires
        n <= m.len(),
    ensures
        divergent_rows_upto(swapped_rows(m), nf, n) == divergent_rows_upto(m, nf, n),
    decreases n,
{
    if n > 0 {
        lemma_divergent_rows_swap(m, nf, n - 1);
        let va = m[n - 1].vals_a;
        let vb = m[n - 1].vals_b;
        let sm = swapped_rows(m);
        assert(sm[n - 1].vals_a == vb && sm[n - 1].vals_b == va);
        if row_divergent(va, vb, nf) {
            let f = choose|f: int| 0 <= f < nf && #[trigger] differs(va, vb, f);
            assert(differs(vb, va, f));
        }
        if row_divergent(vb, va, nf) {
            let f = choose|f: int| 0 <= f < nf && #[trigger] differs(vb, va, f);
            assert(differs(va, vb, f));
        }
    }
}

proof fn lemma_ranges_within(div: Seq<usize>, n: int)
    requires
        n >= 1,
    ensures
        forall|k: int|
            0 <= k < ranges_of(div, n).len() ==> 0 <= #[trigger] ranges_of(div, n)[k].0 && ranges_of(div, n)[k].1 < n,
    decreases n,
{
    if n > 1 {
        lemma_ranges_within(div, n - 1);
        lemma_ranges_shape(div, n - 1);
    }
}

proof fn lemma_regions_swap(m: Seq<MergedRowView>, div: Seq<usize>, rs: Seq<(int, int)>)
    requires
        forall|k: int|
            0 <= k < rs.len() ==> 0 <= #[trigger] div[rs[k].0] < m.len() && 0 <= div[rs[k].1] < m.len(),
    ensures
        regions_from_runs(swapped_rows(m), div, rs) == regions_from_runs(m, div, rs),
    decreases rs.len(),
{
    if rs.len() > 0 {
        let l = rs.len() - 1;
        assert(0 <= div[rs[l].0] < m.len());
        lemma_regions_swap(m, div, rs.drop_last());
    }
}

proof fn lemma_diff_count_swap(m: Seq<MergedRowView>, f: int, n: int)
    requires
        n <= m.len(),
    ensures
        diff_count(swapped_rows(m), f, n) == diff_count(m, f, n),
    decreases n,
{
    if n > 0 {
        lemma_diff_count_swap(m, f, n - 1);
    }
}

proof fn lemma_first_where_same(n: int, p: spec_fn(int) -> bool, q: spec_fn(int) -> bool)
    requires
        forall|r: int| 0 <= r < n ==> #[trigger] p(r) == q(r),
    ensures
        first_where_of(n, p) == first_where_of(n, q),
    decreases n,
{
    if n > 0 {
        lemma_first_where_same(n - 1, p, q);
    }
}

/// The field and first index of each divergence.
pub open spec fn divergence_keys(s: Seq<FieldDivergenceView>) -> Seq<(Seq<char>, u64)> {
    Seq::new(s.len(), |i: int| (s[i].field, s[i].first_index))
}

proof fn lemma_unsorted_swap(m: Seq<MergedRowView>, names: Seq<Seq<char>>, n: int)
    ensures
        divergence_keys(unsorted_divergences(swapped_rows(m), names, n)) == divergence_keys(
            unsorted_divergences(m, names, n),
        ),
    decreases n,
{
    if n > 0 {
        lemma_unsorted_swap(m, names, n - 1);
        let f = n - 1;
        let sm = swapped_rows(m);
        lemma_first_where_same(m.len() as int, differs_test(sm, f), differs_test(m, f));
        lemma_diff_count_swap(m, f, m.len() as int);
        lemma_first_where_bound(m.len() as int, differs_test(m, f));
        let a = unsorted_divergences(m, names, n - 1);
        let b = unsorted_divergences(sm, names, n - 1);
        match divergence_of(m, names[f], f) {
            Some(d) => {
                let d2 = divergence_of(sm, names[f], f)->0;
                assert(d2.field == d.field && d2.first_index == d.first_index);
                assert(divergence_keys(a).len() == a.len() && divergence_keys(b).len() == b.len());
                assert(b.len() == a.len());
                assert(divergence_keys(b.push(d2)) =~= divergence_keys(a.push(d))) by {
                    assert forall|i: int| 0 <= i < a.len() implies divergence_keys(b.push(d2))[i] == divergence_keys(
                        a.push(d),
                    )[i] by {
                        assert(divergence_keys(b)[i] == divergence_keys(a)[i]);
                    }
                }
            },
            None => {},
        }
    }
}

proof fn lemma_insert_keys(s: Seq<FieldDivergenceView>, t: Seq<FieldDivergenceView>, x: FieldDivergenceView, y: FieldDivergenceView)
    requires
        divergence_keys(s) == divergence_keys(t),
        x.field == y.field,
        x.first_index == y.first_index,
    ensures
        divergence_keys(insert_by_index(s, x)) == divergence_keys(insert_by_index(t, y)),
    decreases s.len(),
{
    assert(s.len() == divergence_keys(s).len() && t.len() == divergence_keys(t).len());
    if s.len() > 0 {
        let l = s.len() - 1;
        assert(divergence_keys(s)[l] == divergence_keys(t)[l]);
        assert(divergence_keys(s.drop_last()) =~= divergence_keys(t.drop_last())) by {
            assert forall|i: int| 0 <= i < l implies divergence_keys(s.drop_last())[i] == divergence_keys(
                t.drop_last(),
            )[i] by {
                assert(divergence_keys(s)[i] == divergence_keys(t)[i]);
            }
        }
        if s.last().first_index <= x.first_index {
            assert(divergence_keys(s.push(x)) =~= divergence_keys(t.push(y))) by {
                assert forall|i: int| 0 <= i < s.len() implies divergence_keys(s.push(x))[i] == divergence_keys(
                    t.push(y),
                )[i] by {
                    assert(divergence_keys(s)[i] == divergence_keys(t)[i]);
                }
            }
        } else {
            lemma_insert_keys(s.drop_last(), t.drop_last(), x, y);
            let a = insert_by_index(s.drop_last(), x);
            let b = insert_by_index(t.drop_last(), y);
            assert(divergence_keys(a).len() == divergence_keys(b).len());
            assert(divergence_keys(a.push(s.last())) =~= divergence_keys(b.push(t.last()))) by {
                assert forall|i: int| 0 <= i < a.len() implies divergence_keys(a.push(s.last()))[i]
                    == divergence_keys(b.push(t.last()))[i] by {
                    assert(divergence_keys(a)[i] == divergence_keys(b)[i]);
                }
            }
        }
    }
}

proof fn lemma_sort_keys(s: Seq<FieldDivergenceView>, t: Seq<FieldDivergenceView>)
    requires
        divergence_keys(s) == divergence_keys(t),
    ensures
        divergence_keys(sort_by_index(s)) == divergence_keys(sort_by_index(t)),
    decreases s.len(),
{
    assert(s.len() == divergence_keys(s).len() && t.len() == divergence_keys(t).len());
    if s.len() > 0 {
        let l = s.len() - 1;
        assert(divergence_keys(s)[l] == divergence_keys(t)[l]);
        assert(divergence_keys(s.drop_last()) =~= divergence_keys(t.drop_last())) by {
            assert forall|i: int| 0 <= i < l implies divergence_keys(s.drop_last())[i] == divergence_keys(
                t.drop_last(),
            )[i] by {
                assert(divergence_keys(s)[i] == divergence_keys(t)[i]);
            }
        }
        lemma_sort_keys(s.drop_last(), t.drop_last());
        lemma_insert_keys(sort_by_index(s.drop_last()), sort_by_index(t.drop_last()), s.last(), t.last());
    }
}

proof fn lemma_context_fits_swap(
    cfg: DiffConfig,
    fa: Seq<Seq<char>>,
    fb: Seq<Seq<char>>,
    ka: Seq<Map<Seq<char>, FieldValueView>>,
    kb: Seq<Map<Seq<char>, FieldValueView>>,
    cf: Seq<Seq<char>>,
)
    ensures
        context_fits(cfg, fb, fa, kb, ka, cf) == context_fits(cfg, fa, fb, ka, kb, cf),
{
    let fields = row_fields(cf, fa, fb);
    assert(row_fields(cf, fb, fa) == fields);
    let m = merged_of(cfg, ka, kb, fields);
    lemma_merged_swap(cfg, ka, kb, fields);
    lemma_divergent_rows_swap(m, cf.len() as int, m.len() as int);
}

/// Comparing two traces fails in the same way whichever comes first, and
/// may be asked of the traces in either order alike.
pub proof fn law_compare_error_symmetric(
    cfg: DiffConfig,
    ha: TraceHeader,
    ea: Seq<Map<Seq<char>, FieldValueView>>,
    hb: TraceHeader,
    eb: Seq<Map<Seq<char>, FieldValueView>>,
)
    ensures
        compare_error(cfg, hb, eb, ha, ea) == compare_error(cfg, ha, ea, hb, eb),
        compare_requires(cfg, hb, eb, ha, ea) == compare_requires(cfg, ha, ea, hb, eb),
{
    let fa = string_texts(ha.fields@);
    let fb = string_texts(hb.fields@);
    let ka = kept_entries(ea, cfg.skip_boot);
    let kb = kept_entries(eb, cfg.skip_boot);
    assert forall|n: Seq<char>| #[trigger] in_common(cfg, fa, fb, n) == in_common(cfg, fb, fa, n) by {}
    if has_common(cfg, fa, fb) {
        let n = choose|n: Seq<char>| #[trigger] in_common(cfg, fa, fb, n);
        assert(in_common(cfg, fb, fa, n));
    }
    if has_common(cfg, fb, fa) {
        let n = choose|n: Seq<char>| #[trigger] in_common(cfg, fb, fa, n);
        assert(in_common(cfg, fa, fb, n));
    }
    lemma_merged_len(cfg, ka, kb, Seq::empty());
    lemma_merged_len(cfg, kb, ka, Seq::empty());
    lemma_merged_swap(cfg, ka, kb, Seq::empty());
    assert(rebases(cfg, kb, ka) == rebases(cfg, ka, kb));
    assert forall|cf: Seq<Seq<char>>| #[trigger] is_common_list(cfg, fb, fa, cf) == is_common_list(cfg, fa, fb, cf) by {
        assert forall|n: Seq<char>| in_common(cfg, fb, fa, n) == in_common(cfg, fa, fb, n) by {}
    }
    assert forall|cf: Seq<Seq<char>>|
        #[trigger] context_fits(cfg, fb, fa, kb, ka, cf) == context_fits(cfg, fa, fb, ka, kb, cf) by {
        lemma_context_fits_swap(cfg, fa, fb, ka, kb, cf);
    }
    let r1 = compare_requires(cfg, ha, ea, hb, eb);
    let r2 = compare_requires(cfg, hb, eb, ha, ea);
    if r1 && has_common(cfg, fa, fb) {
        assert forall|cf: Seq<Seq<char>>| #[trigger] is_common_list(cfg, fb, fa, cf) implies context_fits(
            cfg,
            fb,
            fa,
            kb,
            ka,
            cf,
        ) by {
            assert(is_common_list(cfg, fa, fb, cf));
            assert(context_fits(cfg, fb, fa, kb, ka, cf) == context_fits(cfg, fa, fb, ka, kb, cf));
        }
    }
    if r2 && has_common(cfg, fb, fa) {
        assert forall|cf: Seq<Seq<char>>| #[trigger] is_common_list(cfg, fa, fb, cf) implies context_fits(
            cfg,
            fa,
            fb,
            ka,
            kb,
            cf,
        ) by {
            assert(is_common_list(cfg, fb, fa, cf));
            assert(context_fits(cfg, fb, fa, kb, ka, cf) == context_fits(cfg, fa, fb, ka, kb, cf));
        }
    }
}

/// Comparing two traces the other way round gives the mirrored result:
/// the same compared fields, the fields only in one trace exchanged, the
/// same number of aligned and divergent rows, the same regions and the
/// same classification.
pub proof fn law_compare_symmetric(
    cfg: DiffConfig,
    ha: TraceHeader,
    ea: Seq<Map<Seq<char>, FieldValueView>>,
    hb: TraceHeader,
    eb: Seq<Map<Seq<char>, FieldValueView>>,
    d1: DiffResult,
    d2: DiffResult,
)
    requires
        describes(cfg, ha, ea, hb, eb, d1),
        describes(cfg, hb, eb, ha, ea, d2),
    ensures
        string_texts(d2.common_fields@) == string_texts(d1.common_fields@),
        string_texts(d2.only_in_a@) == string_texts(d1.only_in_b@),
        string_texts(d2.only_in_b@) == string_texts(d1.only_in_a@),
        d2.entries_a == d1.entries_b,
        d2.entries_b == d1.entries_a,
        d2.aligned_count == d1.aligned_count,
        d2.total_divergent == d1.total_divergent,
        regions_view(d2.regions@) == regions_view(d1.regions@),
        d2.classification == d1.classification,
{
    let fa = string_texts(ha.fields@);
    let fb = string_texts(hb.fields@);
    let ka = kept_entries(ea, cfg.skip_boot);
    let kb = kept_entries(eb, cfg.skip_boot);
    let cf1 = string_texts(d1.common_fields@);
    let cf2 = string_texts(d2.common_fields@);
    assert forall|n: Seq<char>| cf1.contains(n) <==> cf2.contains(n) by {
        assert(in_common(cfg, fa, fb, n) == in_common(cfg, fb, fa, n));
    }
    crate::names::lemma_sorted_unique(cf1, cf2);
    crate::names::lemma_sorted_unique(string_texts(d1.only_in_a@), string_texts(d2.only_in_b@));
    crate::names::lemma_sorted_unique(string_texts(d1.only_in_b@), string_texts(d2.only_in_a@));
    let cf = cf1;
    assert(row_fields(cf, fb, fa) == row_fields(cf, fa, fb));
    let fields = row_fields(cf, fa, fb);
    let m = merged_of(cfg, ka, kb, fields);
    lemma_merged_swap(cfg, ka, kb, fields);
    let sm = swapped_rows(m);
    assert(merged_of(cfg, kb, ka, fields) == sm);
    let nf = cf.len() as int;
    lemma_divergent_rows_swap(m, nf, m.len() as int);
    let div = divergent_rows_upto(m, nf, m.len() as int);
    assert(m.len() <= usize::MAX);
    lemma_divergent_rows_positions(m, nf, m.len() as int);
    if div.len() > 0 {
        let rs = ranges_of(div, div.len() as int);
        lemma_ranges_shape(div, div.len() as int);
        lemma_ranges_within(div, div.len() as int);
        assert forall|k: int| 0 <= k < rs.len() implies 0 <= #[trigger] div[rs[k].0] < m.len() && 0 <= div[rs[
            k
        ].1] < m.len() by {
            assert(0 <= rs[k].0 <= rs[k].1 < div.len());
        }
        lemma_regions_swap(m, div, rs);
    }
    lemma_unsorted_swap(m, cf, nf);
    lemma_sort_keys(unsorted_divergences(sm, cf, nf), unsorted_divergences(m, cf, nf));
    let k1 = divergence_keys(field_divergences_of(m, cf));
    let k2 = divergence_keys(field_divergences_of(sm, cf));
    let n1 = divergence_names(d1.field_divergences@);
    let n2 = divergence_names(d2.field_divergences@);
    assert(n1.len() == k1.len());
    assert(n2.len() == k2.len());
    assert forall|i: int| 0 <= i < n1.len() implies n1[i] == n2[i] by {
        assert(divergences_view(d1.field_divergences@)[i].field == n1[i]);
        assert(divergences_view(d2.field_divergences@)[i].field == n2[i]);
        assert(k1[i] == k2[i]);
    }
    assert(n1 =~= n2);
}


// ---------------------------------------------------------------------------
// Checking a comparison's precondition
// ---------------------------------------------------------------------------

impl TraceDiffer {
    /// The cycle of kept entry `k` of a trace whose kept entries start at
    /// `start`, less `base`.
    fn kept_cycle(entries: &Vec<TraceEntry>, start: usize, k: usize, base: u64) -> (r: u64)
        requires
            start + k < entries@.len(),
            cy_of(entries_view(entries@)[start + k]) >= base,
        ensures
            r == cy_of(entries_view(entries@)[start + k]) - base,
    {
        let n = entries.len();
        assert(start + k < n);
        let e = &entries[start + k];
        assert(e@ == entries_view(entries@)[start + k]);
        let cy = match e.cy() {
            Some(n) => n,
            None => 0,
        };
        cy - base
    }

    /// Whether no kept entry's cycle falls below the first kept entry's.
    fn counts_up(entries: &Vec<TraceEntry>, start: usize) -> (r: bool)
        requires
            start <= entries@.len(),
        ensures
            r == counts_up_from_first(entries_view(entries@).skip(start as int)),
    {
        let ghost k = entries_view(entries@).skip(start as int);
        if start >= entries.len() {
            return true;
        }
        let base = Self::kept_cycle(entries, start, 0, 0);
        assert(base == cy_of(k[0]));
        let n = entries.len() - start;
        let mut i: usize = 0;
        while i < n
            invariant
                i <= n,
                n == entries@.len() - start,
                k == entries_view(entries@).skip(start as int),
                base == cy_of(k[0]),
                forall|j: int| 0 <= j < i ==> cy_of(#[trigger] k[j]) >= cy_of(k[0]),
            decreases n - i,
        {
            let c = Self::kept_cycle(entries, start, i, 0);
            assert(c == cy_of(k[i as int]));
            if c < base {
                return false;
            }
            i += 1;
        }
        true
    }

    /// Whether `compare` may be called on these traces: once they have a
    /// field to compare, cycles do not fall below a trace's first where
    /// they are counted from it, and the context window around the first
    /// divergent row ends within a `usize`.
    pub fn can_compare(
        &self,
        header_a: &TraceHeader,
        entries_a: &Vec<TraceEntry>,
        header_b: &TraceHeader,
        entries_b: &Vec<TraceEntry>,
    ) -> (r: bool)
        ensures
            r == compare_requires(
                self.config_view(),
                *header_a,
                entries_view(entries_a@),
                *header_b,
                entries_view(entries_b@),
            ),
    {
        let ghost cfg = self.config_view();
        let ghost fa = string_texts(header_a.fields@);
        let ghost fb = string_texts(header_b.fields@);
        let ghost ea = entries_view(entries_a@);
        let ghost eb = entries_view(entries_b@);
        let ghost ka = kept_entries(ea, cfg.skip_boot);
        let ghost kb = kept_entries(eb, cfg.skip_boot);
        let common_fields = select_names(
            &header_a.fields,
            &header_b.fields,
            true,
            &self.config.include_fields,
            &self.config.exclude_fields,
        );
        let ghost cf = string_texts(common_fields@);
        if common_fields.len() == 0 {
            proof {
                if has_common(cfg, fa, fb) {
                    let n = choose|n: Seq<char>| #[trigger] in_common(cfg, fa, fb, n);
                    assert(cf.contains(n));
                }
            }
            return true;
        }
        proof {
            assert(cf.contains(cf[0]));
            assert(in_common(cfg, fa, fb, cf[0]));
            assert(is_common_list(cfg, fa, fb, cf));
        }
        let start_a = self.boot_start(entries_a);
        let start_b = self.boot_start(entries_b);
        proof {
            lemma_boot_end_bound(ea, 0);
            lemma_boot_end_bound(eb, 0);
        }
        let use_sequence = self.resolve_alignment();
        let rebase = !use_sequence && self.config.skip_boot && start_a < entries_a.len() && start_b
            < entries_b.len() && {
            let ca = Self::kept_cycle(entries_a, start_a, 0, 0);
            let cb = Self::kept_cycle(entries_b, start_b, 0, 0);
            ca != cb
        };
        assert(ka.len() == ea.len() - start_a);
        assert(kb.len() == eb.len() - start_b);
        proof {
            if start_a < entries_a.len() {
                assert(ka[0] == ea[start_a as int]);
            }
            if start_b < entries_b.len() {
                assert(kb[0] == eb[start_b as int]);
            }
        }
        let ghost rb = rebases(cfg, ka, kb);
        assert(rebase == rb);
        if rebase {
            if !Self::counts_up(entries_a, start_a) || !Self::counts_up(entries_b, start_b) {
                return false;
            }
        }
        let base_a: u64 = if rebase {
            Self::kept_cycle(entries_a, start_a, 0, 0)
        } else {
            0
        };
        let base_b: u64 = if rebase {
            Self::kept_cycle(entries_b, start_b, 0, 0)
        } else {
            0
        };
        proof {
            if rebase {
                assert forall|k: int| start_a <= k < ea.len() implies cy_of(#[trigger] ea[k]) >= base_a by {
                    assert(ka[k - start_a] == ea[k]);
                }
                assert forall|k: int| start_b <= k < eb.len() implies cy_of(#[trigger] eb[k]) >= base_b by {
                    assert(kb[k - start_b] == eb[k]);
                }
            }
        }
        let mut all_fields = crate::header::copy_strings(&common_fields);
        push_extra(&mut all_fields, "pc", &header_a.fields, &header_b.fields);
        push_extra(&mut all_fields, "op", &header_a.fields, &header_b.fields);
        push_extra(&mut all_fields, "a", &header_a.fields, &header_b.fields);
        let ghost af = string_texts(all_fields@);
        assert(af == row_fields(cf, fa, fb));
        assert(af.len() >= cf.len());
        let rows_a = self.load_rows(entries_a, start_a, &all_fields, base_a);
        let rows_b = self.load_rows(entries_b, start_b, &all_fields, base_b);
        proof {
            assert(rows_view(rows_a@) =~= rows_of(ka, af, rb)) by {
                assert forall|i: int| 0 <= i < ka.len() implies ka[i] == ea[start_a + i] by {}
            }
            assert(rows_view(rows_b@) =~= rows_of(kb, af, rb)) by {
                assert forall|i: int| 0 <= i < kb.len() implies kb[i] == eb[start_b + i] by {}
            }
        }
        let merged = if use_sequence {
            align_sequence(&rows_a, &rows_b)
        } else {
            align_cycle(&rows_a, &rows_b)
        };
        let ghost m = merged_view(merged@);
        assert(m == merged_of(cfg, ka, kb, af));
        proof {
            lemma_merged_rows_have(cfg, ka, kb, af, cf.len() as int);
        }
        let div_indices = divergent_rows(&merged, common_fields.len());
        let context = self.config.context;
        let fits = if div_indices.len() == 0 {
            true
        } else {
            context <= usize::MAX - 5 && div_indices[0] <= usize::MAX - 5 - context
        };
        proof {
            assert forall|c2: Seq<Seq<char>>| #[trigger] is_common_list(cfg, fa, fb, c2) implies c2 == cf by {
                crate::names::lemma_sorted_unique(c2, cf);
            }
        }
        fits
    }
}

} // verus!
