//! A comparison view over two column stores: no data is copied; two index
//! maps pair each aligned position with an entry of each store.
use vstd::prelude::*;

use crate::column_store::{
    change_points, col_flag, col_num, col_text, first_where, lemma_first_where_stable, lemma_full_readable,
    lemma_last_named_bound, sync_value_of, ColumnStore, TableView,
};
use crate::error::Error;
use crate::header::Trigger;
use crate::profile::{field_type, type_of_field, FieldType};
use crate::text::{chars_of, str_eq};

verus! {

/// Per-field diff statistics.
#[derive(Debug, Clone)]
pub struct FieldDiffStats {
    pub name: String,
    pub match_count: usize,
    pub diff_count: usize,
}

/// The value of a [`FieldDiffStats`].
pub struct FieldDiffStatsView {
    pub name: Seq<char>,
    pub match_count: nat,
    pub diff_count: nat,
}

impl View for FieldDiffStats {
    type V = FieldDiffStatsView;

    open spec fn view(&self) -> FieldDiffStatsView {
        FieldDiffStatsView {
            name: self.name@,
            match_count: self.match_count as nat,
            diff_count: self.diff_count as nat,
        }
    }
}

/// The values of a list of statistics.
pub open spec fn stats_view(s: Seq<FieldDiffStats>) -> Seq<FieldDiffStatsView> {
    Seq::new(s.len(), |i: int| s[i]@)
}

impl FieldDiffStats {
    /// A copy with the same value.
    pub fn duplicate(&self) -> (r: FieldDiffStats)
        ensures
            r@ == self@,
    {
        FieldDiffStats { name: self.name.clone(), match_count: self.match_count, diff_count: self.diff_count }
    }
}

// ---------------------------------------------------------------------------
// Index maps
// ---------------------------------------------------------------------------

/// The map of all entries: `0, 1, ..., n - 1`.
pub open spec fn all_rows(n: int) -> Seq<usize> {
    Seq::new(n as nat, |k: int| k as usize)
}

/// The map `m` from its position `k` on.
pub open spec fn map_from(m: Seq<usize>, k: int) -> Seq<usize> {
    m.subrange(k, m.len() as int)
}

/// Whether the PC (16 bits) at the entry map position `k` names is `target`.
pub open spec fn map_pc_is(t: TableView, pc: int, m: Seq<usize>, target: u16) -> spec_fn(int) -> bool {
    |k: int| (t.num(pc, m[k] as int) as u16) == target
}

/// The map dropped to its first position whose entry has PC `target`
/// (unchanged when none has).
pub open spec fn skip_map_to_pc(t: TableView, pc: int, m: Seq<usize>, target: u16) -> Seq<usize> {
    match first_where(m.len() as int, map_pc_is(t, pc, m, target)) {
        Some(k) => map_from(m, k),
        None => m,
    }
}

/// Aligning two maps at their first common PC: if the PCs of their first
/// entries differ, look for the other's first PC among the first 100
/// positions of each (first in `a`, then in `b`), and drop each map to its
/// first entry with that PC.
pub open spec fn align_maps_by_pc(ta: TableView, tb: TableView, ma: Seq<usize>, mb: Seq<usize>) -> (
    Seq<usize>,
    Seq<usize>,
) {
    match (ta.col_of("pc"@), tb.col_of("pc"@)) {
        (Some(ca), Some(cb)) => if ma.len() == 0 || mb.len() == 0 {
            (ma, mb)
        } else {
            let pa = ta.num(ca, ma[0] as int) as u16;
            let pb = tb.num(cb, mb[0] as int) as u16;
            if pa == pb {
                (ma, mb)
            } else {
                let target = if first_where(
                    if ma.len() < 100 {
                        ma.len() as int
                    } else {
                        100
                    },
                    map_pc_is(ta, ca, ma, pb),
                ) is Some {
                    Some(pb)
                } else if first_where(
                    if mb.len() < 100 {
                        mb.len() as int
                    } else {
                        100
                    },
                    map_pc_is(tb, cb, mb, pa),
                ) is Some {
                    Some(pa)
                } else {
                    None
                };
                match target {
                    None => (ma, mb),
                    Some(tp) => (
                        if pa != tp {
                            skip_map_to_pc(ta, ca, ma, tp)
                        } else {
                            ma
                        },
                        if pb != tp {
                            skip_map_to_pc(tb, cb, mb, tp)
                        } else {
                            mb
                        },
                    ),
                }
            }
        },
        _ => (ma, mb),
    }
}

/// Whether the entry a map position names matches a sync test: a field
/// the store lacks matches nothing.
pub open spec fn map_cond_is(t: TableView, field: Seq<char>, is_mask: bool, val: u64, m: Seq<usize>) -> spec_fn(
    int,
) -> bool {
    |k: int|
        match t.col_of(field) {
            Some(c) => if is_mask {
                (t.num(c, m[k] as int) & val) != 0
            } else {
                t.num(c, m[k] as int) == val
            },
            None => false,
        }
}

/// The map dropped to its first position that matches (unchanged when none
/// does).
pub open spec fn skip_map_to_cond(t: TableView, field: Seq<char>, is_mask: bool, val: u64, m: Seq<usize>) -> Seq<
    usize,
> {
    match first_where(m.len() as int, map_cond_is(t, field, is_mask, val, m)) {
        Some(k) => map_from(m, k),
        None => m,
    }
}

/// A sync condition `field&mask` (a bit of the mask set) or `field=value`:
/// the field, whether it is a mask test, and the value (hexadecimal after
/// `0x`, else decimal); or the error's message.
pub open spec fn sync_condition_of(cond: Seq<char>) -> Result<(Seq<char>, bool, nat), Seq<char>> {
    let amp = crate::text::find_char(cond, '&');
    let eq = crate::text::find_char(cond, '=');
    if amp is None && eq is None {
        Err("invalid sync condition: "@ + cond)
    } else {
        let is_mask = amp is Some;
        let pos = if is_mask {
            amp.unwrap()
        } else {
            eq.unwrap()
        };
        let value = cond.skip(pos + 1);
        match sync_value_of(value) {
            None => Err("invalid value: "@ + value),
            Some(val) => Ok((cond.take(pos), is_mask, val)),
        }
    }
}

/// Aligning two maps at the first match of a sync condition.
pub open spec fn align_maps_by_condition(
    ta: TableView,
    tb: TableView,
    ma: Seq<usize>,
    mb: Seq<usize>,
    cond: Seq<char>,
) -> Result<(Seq<usize>, Seq<usize>), Seq<char>> {
    match sync_condition_of(cond) {
        Err(m) => Err(m),
        Ok(c) => Ok(
            (
                skip_map_to_cond(ta, c.0, c.1, c.2 as u64, ma),
                skip_map_to_cond(tb, c.0, c.1, c.2 as u64, mb),
            ),
        ),
    }
}

/// The map a store starts from: one position per instruction (the first
/// entry of each run with the same PC) when it is collapsed, else every
/// entry.
pub open spec fn base_map(t: TableView, collapse: bool) -> Result<Seq<usize>, Seq<char>> {
    if collapse {
        match t.col_of("pc"@) {
            None => Err("no pc field for collapse"@),
            Some(pc) => Ok(
                Seq::new(
                    change_points(t, pc, t.rows as int).len(),
                    |k: int| change_points(t, pc, t.rows as int)[k] as usize,
                ),
            ),
        }
    } else {
        Ok(all_rows(t.rows as int))
    }
}

/// `DiffStore::align`: the two index maps, or the error's message.
pub open spec fn aligned_maps(ta: TableView, tb: TableView, sync: Option<Seq<char>>) -> Result<
    (Seq<usize>, Seq<usize>),
    Seq<char>,
> {
    let at = ta.header.trigger == Trigger::Tcycle;
    let bt = tb.header.trigger == Trigger::Tcycle;
    match base_map(ta, at && !bt) {
        Err(m) => Err(m),
        Ok(ma) => match base_map(tb, bt && !at) {
            Err(m) => Err(m),
            Ok(mb) => {
                let mode = match sync {
                    Some(s) => s,
                    None => "pc"@,
                };
                let synced = if mode == "none"@ {
                    Ok((ma, mb))
                } else if mode == "pc"@ {
                    Ok(align_maps_by_pc(ta, tb, ma, mb))
                } else {
                    align_maps_by_condition(ta, tb, ma, mb, mode)
                };
                match synced {
                    Err(m) => Err(m),
                    Ok(p) => {
                        let len = if p.0.len() < p.1.len() {
                            p.0.len()
                        } else {
                            p.1.len()
                        };
                        Ok((p.0.take(len as int), p.1.take(len as int)))
                    },
                }
            },
        },
    }
}

proof fn lemma_first_where_found(n: int, p: spec_fn(int) -> bool, k: int)
    requires
        0 <= k < n,
        p(k),
    ensures
        first_where(n, p) is Some,
    decreases n,
{
    if k < n - 1 {
        lemma_first_where_found(n - 1, p, k);
    }
}

proof fn lemma_first_where_holds(n: int, p: spec_fn(int) -> bool)
    ensures
        first_where(n, p) matches Some(r) ==> 0 <= r < n && p(r),
    decreases n,
{
    if n > 0 {
        lemma_first_where_holds(n - 1, p);
    }
}

/// Skipping a map to a PC that one of its positions has starts it at a
/// position with that PC.
proof fn lemma_skip_map_to_pc_starts(t: TableView, pc: int, m: Seq<usize>, target: u16, k: int)
    requires
        0 <= k < m.len(),
        map_pc_is(t, pc, m, target)(k),
    ensures
        skip_map_to_pc(t, pc, m, target).len() > 0,
        (t.num(pc, skip_map_to_pc(t, pc, m, target)[0] as int) as u16) == target,
{
    let p = map_pc_is(t, pc, m, target);
    lemma_first_where_found(m.len() as int, p, k);
    lemma_first_where_holds(m.len() as int, p);
    let r = first_where(m.len() as int, p)->0;
    assert(map_from(m, r)[0] == m[r]);
}

proof fn lemma_first_where_first(n: int, p: spec_fn(int) -> bool)
    ensures
        first_where(n, p) matches Some(r) ==> forall|j: int| 0 <= j < r ==> !#[trigger] p(j),
        first_where(n, p) is None ==> forall|j: int| 0 <= j < n ==> !#[trigger] p(j),
    decreases n,
{
    if n > 0 {
        lemma_first_where_first(n - 1, p);
    }
}

/// Where aligning two traces of the same kind by PC (no sync condition)
/// starts each trace. With equal first PCs, both start at their first
/// entry. Otherwise, when `a` has `b`'s first PC among its first 100
/// entries, `b` starts at its first entry and `a` at its first entry with
/// that PC; else, when `b` has `a`'s first PC among its first 100 entries,
/// `a` starts at its first entry and `b` at its first entry with that PC;
/// else both start at their first entry.
pub proof fn law_pc_alignment_start(ta: TableView, tb: TableView, ca: int, cb: int)
    requires
        ta.col_of("pc"@) == Some(ca),
        tb.col_of("pc"@) == Some(cb),
        (ta.header.trigger == Trigger::Tcycle) == (tb.header.trigger == Trigger::Tcycle),
        0 < ta.rows <= usize::MAX,
        0 < tb.rows <= usize::MAX,
    ensures
        aligned_maps(ta, tb, None) matches Ok(p) && p.0.len() > 0 && p.1.len() > 0 && {
            let pa = ta.num(ca, 0) as u16;
            let pb = tb.num(cb, 0) as u16;
            let a_has = exists|k: int| 0 <= k < ta.rows && k < 100 && (#[trigger] ta.num(ca, k) as u16) == pb;
            let b_has = exists|k: int| 0 <= k < tb.rows && k < 100 && (#[trigger] tb.num(cb, k) as u16) == pa;
            if pa != pb && a_has {
                &&& p.1[0] == 0
                &&& (ta.num(ca, p.0[0] as int) as u16) == pb
                &&& forall|j: int| 0 <= j < p.0[0] ==> (#[trigger] ta.num(ca, j) as u16) != pb
            } else if pa != pb && b_has {
                &&& p.0[0] == 0
                &&& (tb.num(cb, p.1[0] as int) as u16) == pa
                &&& forall|j: int| 0 <= j < p.1[0] ==> (#[trigger] tb.num(cb, j) as u16) != pa
            } else {
                p.0[0] == 0 && p.1[0] == 0
            }
        },
{
    reveal_strlit("pc");
    reveal_strlit("none");
    assert("pc"@ != "none"@) by {
        assert("pc"@.len() != "none"@.len());
    }
    let ma = all_rows(ta.rows as int);
    let mb = all_rows(tb.rows as int);
    assert(base_map(ta, false) == Ok::<Seq<usize>, Seq<char>>(ma));
    assert(base_map(tb, false) == Ok::<Seq<usize>, Seq<char>>(mb));
    let pa = ta.num(ca, 0) as u16;
    let pb = tb.num(cb, 0) as u16;
    assert(ma[0] as int == 0 && mb[0] as int == 0);
    let la = if ma.len() < 100 { ma.len() as int } else { 100 };
    let lb = if mb.len() < 100 { mb.len() as int } else { 100 };
    let q = align_maps_by_pc(ta, tb, ma, mb);
    let pta = map_pc_is(ta, ca, ma, pb);
    let ptb = map_pc_is(tb, cb, mb, pa);
    let a_has = exists|k: int| 0 <= k < ta.rows && k < 100 && (#[trigger] ta.num(ca, k) as u16) == pb;
    let b_has = exists|k: int| 0 <= k < tb.rows && k < 100 && (#[trigger] tb.num(cb, k) as u16) == pa;
    assert forall|k: int| 0 <= k < ma.len() implies #[trigger] pta(k) == ((ta.num(ca, k) as u16) == pb) by {
        assert(ma[k] as int == k);
    }
    assert forall|k: int| 0 <= k < mb.len() implies #[trigger] ptb(k) == ((tb.num(cb, k) as u16) == pa) by {
        assert(mb[k] as int == k);
    }
    lemma_first_where_first(la, pta);
    lemma_first_where_first(lb, ptb);
    lemma_first_where_holds(la, pta);
    lemma_first_where_holds(lb, ptb);
    if a_has {
        let k = choose|k: int| 0 <= k < ta.rows && k < 100 && (#[trigger] ta.num(ca, k) as u16) == pb;
        assert(pta(k));
        lemma_first_where_found(la, pta, k);
    } else {
        if first_where(la, pta) is Some {
            let r = first_where(la, pta)->0;
            assert(pta(r));
            assert((ta.num(ca, r) as u16) == pb);
        }
    }
    if b_has {
        let k = choose|k: int| 0 <= k < tb.rows && k < 100 && (#[trigger] tb.num(cb, k) as u16) == pa;
        assert(ptb(k));
        lemma_first_where_found(lb, ptb, k);
    } else {
        if first_where(lb, ptb) is Some {
            let r = first_where(lb, ptb)->0;
            assert(ptb(r));
            assert((tb.num(cb, r) as u16) == pa);
        }
    }
    if pa != pb && a_has {
        let r = first_where(la, pta)->0;
        lemma_first_where_stable(la, ma.len() as int, pta);
        lemma_first_where_first(ma.len() as int, pta);
        assert(q == (map_from(ma, r), mb));
        assert(map_from(ma, r)[0] as int == r);
        assert forall|j: int| 0 <= j < r implies (#[trigger] ta.num(ca, j) as u16) != pb by {
            assert(!pta(j));
        }
    } else if pa != pb && b_has {
        let r = first_where(lb, ptb)->0;
        lemma_first_where_stable(lb, mb.len() as int, ptb);
        lemma_first_where_first(mb.len() as int, ptb);
        assert(q == (ma, map_from(mb, r)));
        assert(map_from(mb, r)[0] as int == r);
        assert forall|j: int| 0 <= j < r implies (#[trigger] tb.num(cb, j) as u16) != pa by {
            assert(!ptb(j));
        }
    } else {
        assert(q == (ma, mb));
    }
    let len = if q.0.len() < q.1.len() { q.0.len() } else { q.1.len() };
    assert(aligned_maps(ta, tb, None) == Ok::<(Seq<usize>, Seq<usize>), Seq<char>>((q.0.take(len as int), q.1.take(len as int))));
    assert(q.0.take(len as int)[0] == q.0[0]);
    assert(q.1.take(len as int)[0] == q.1[0]);
}

/// Aligning two traces of the same kind by PC (no sync condition, so
/// neither is collapsed): when one trace holds the other's first PC among
/// its first 100 entries, the aligned traces start at two entries with the
/// same PC (16 bits).
pub proof fn law_pc_alignment_meets(ta: TableView, tb: TableView, ca: int, cb: int)
    requires
        ta.col_of("pc"@) == Some(ca),
        tb.col_of("pc"@) == Some(cb),
        (ta.header.trigger == Trigger::Tcycle) == (tb.header.trigger == Trigger::Tcycle),
        0 < ta.rows <= usize::MAX,
        0 < tb.rows <= usize::MAX,
        (exists|k: int| 0 <= k < ta.rows && k < 100 && (#[trigger] ta.num(ca, k) as u16) == (tb.num(cb, 0) as u16))
            || (exists|k: int| 0 <= k < tb.rows && k < 100 && (#[trigger] tb.num(cb, k) as u16) == (ta.num(ca, 0) as u16)),
    ensures
        aligned_maps(ta, tb, None) matches Ok(p) && p.0.len() > 0 && p.1.len() > 0 && (ta.num(ca, p.0[0] as int) as u16)
            == (tb.num(cb, p.1[0] as int) as u16),
{
    reveal_strlit("pc");
    reveal_strlit("none");
    assert("pc"@ != "none"@) by {
        assert("pc"@.len() != "none"@.len());
    }
    let ma = all_rows(ta.rows as int);
    let mb = all_rows(tb.rows as int);
    assert(base_map(ta, false) == Ok::<Seq<usize>, Seq<char>>(ma));
    assert(base_map(tb, false) == Ok::<Seq<usize>, Seq<char>>(mb));
    let pa = ta.num(ca, 0) as u16;
    let pb = tb.num(cb, 0) as u16;
    assert(ma[0] as int == 0 && mb[0] as int == 0);
    let la = if ma.len() < 100 { ma.len() as int } else { 100 };
    let lb = if mb.len() < 100 { mb.len() as int } else { 100 };
    let q = align_maps_by_pc(ta, tb, ma, mb);
    if pa != pb {
        let fa = first_where(la, map_pc_is(ta, ca, ma, pb));
        let fb = first_where(lb, map_pc_is(tb, cb, mb, pa));
        if exists|k: int| 0 <= k < ta.rows && k < 100 && (#[trigger] ta.num(ca, k) as u16) == pb {
            let k = choose|k: int| 0 <= k < ta.rows && k < 100 && (#[trigger] ta.num(ca, k) as u16) == pb;
            assert(ma[k] as int == k);
            assert(map_pc_is(ta, ca, ma, pb)(k));
            lemma_first_where_found(la, map_pc_is(ta, ca, ma, pb), k);
        } else {
            let k = choose|k: int| 0 <= k < tb.rows && k < 100 && (#[trigger] tb.num(cb, k) as u16) == pa;
            assert(mb[k] as int == k);
            assert(map_pc_is(tb, cb, mb, pa)(k));
            lemma_first_where_found(lb, map_pc_is(tb, cb, mb, pa), k);
        }
        if fa is Some {
            lemma_first_where_holds(la, map_pc_is(ta, ca, ma, pb));
            let k = fa->0;
            lemma_skip_map_to_pc_starts(ta, ca, ma, pb, k);
            assert(q == (skip_map_to_pc(ta, ca, ma, pb), mb));
        } else {
            assert(fb is Some);
            lemma_first_where_holds(lb, map_pc_is(tb, cb, mb, pa));
            let k = fb->0;
            lemma_skip_map_to_pc_starts(tb, cb, mb, pa, k);
            assert(q == (ma, skip_map_to_pc(tb, cb, mb, pa)));
        }
    }
    assert(q.0.len() > 0 && q.1.len() > 0);
    assert((ta.num(ca, q.0[0] as int) as u16) == (tb.num(cb, q.1[0] as int) as u16));
    let len = if q.0.len() < q.1.len() { q.0.len() } else { q.1.len() };
    assert(aligned_maps(ta, tb, None) == Ok::<(Seq<usize>, Seq<usize>), Seq<char>>((q.0.take(len as int), q.1.take(len as int))));
    assert(q.0.take(len as int)[0] == q.0[0]);
    assert(q.1.take(len as int)[0] == q.1[0]);
}

/// Whether every position of a map names an entry of `t`, in increasing
/// order.
pub open spec fn map_ok(t: TableView, m: Seq<usize>) -> bool {
    &&& forall|k: int| 0 <= k < m.len() ==> #[trigger] m[k] < t.rows
    &&& forall|i: int, j: int| 0 <= i < j < m.len() ==> m[i] < m[j]
}

// ---------------------------------------------------------------------------
// Comparing fields
// ---------------------------------------------------------------------------

/// Whether field column `ca` of `ta` at row `ra` holds the same value as
/// column `cb` of `tb` at row `rb`, compared as the field's type says.
pub open spec fn same_value(ta: TableView, ca: int, ra: int, tb: TableView, cb: int, rb: int, ft: FieldType) -> bool {
    match ft {
        FieldType::Bool => col_flag(ta.columns[ca], ra) == col_flag(tb.columns[cb], rb),
        FieldType::Str => col_text(ta.columns[ca], ra) == col_text(tb.columns[cb], rb),
        _ => col_num(ta.columns[ca], ra) == col_num(tb.columns[cb], rb),
    }
}

/// `DiffStore::field_differs`: whether a field present in both stores
/// differs at aligned position `k`.
pub open spec fn field_differs_at(
    ta: TableView,
    tb: TableView,
    ma: Seq<usize>,
    mb: Seq<usize>,
    field: Seq<char>,
    k: int,
) -> bool {
    match (ta.col_of(field), tb.col_of(field)) {
        (Some(ca), Some(cb)) => !same_value(ta, ca, ma[k] as int, tb, cb, mb[k] as int, type_of_field(field)),
        _ => false,
    }
}

/// How many of the first `n` aligned positions hold the same value of the
/// field in both stores.
pub open spec fn same_count(
    ta: TableView,
    tb: TableView,
    ma: Seq<usize>,
    mb: Seq<usize>,
    ca: int,
    cb: int,
    ft: FieldType,
    n: int,
) -> nat
    decreases n,
{
    if n <= 0 {
        0
    } else {
        same_count(ta, tb, ma, mb, ca, cb, ft, n - 1) + if same_value(
            ta,
            ca,
            ma[n - 1] as int,
            tb,
            cb,
            mb[n - 1] as int,
            ft,
        ) {
            1nat
        } else {
            0nat
        }
    }
}

/// The statistics of the first `n` fields of `a` that `b` has too, in the
/// order of `a`'s fields.
pub open spec fn stats_upto(ta: TableView, tb: TableView, ma: Seq<usize>, mb: Seq<usize>, n: int) -> Seq<
    FieldDiffStatsView,
>
    decreases n,
{
    if n <= 0 {
        Seq::empty()
    } else {
        let prev = stats_upto(ta, tb, ma, mb, n - 1);
        let f = ta.header.fields[n - 1];
        match (ta.col_of(f), tb.col_of(f)) {
            (Some(ca), Some(cb)) => {
                let same = same_count(ta, tb, ma, mb, ca, cb, type_of_field(f), ma.len() as int);
                prev.push(
                    FieldDiffStatsView {
                        name: f,
                        match_count: same,
                        diff_count: (ma.len() - same) as nat,
                    },
                )
            },
            _ => prev,
        }
    }
}

/// Whether the text values the comparison reads can be read: a text column
/// of a field both stores have holds a value for every entry.
pub open spec fn common_texts_readable(ta: TableView, tb: TableView) -> bool {
    &&& forall|c: int|
        0 <= c < ta.columns.len() && ta.columns[c].kind == FieldType::Str && tb.col_of(ta.header.fields[c])
            is Some ==> #[trigger] ta.columns[c].cells.len() >= ta.rows
    &&& forall|c: int|
        0 <= c < tb.columns.len() && tb.columns[c].kind == FieldType::Str && ta.col_of(tb.header.fields[c])
            is Some ==> #[trigger] tb.columns[c].cells.len() >= tb.rows
}

// ---------------------------------------------------------------------------
// The store
// ---------------------------------------------------------------------------

/// A comparison view over two trace stores.
pub struct DiffStore<'a> {
    pub store_a: &'a ColumnStore,
    pub store_b: &'a ColumnStore,
    /// Maps aligned index to original entry index in store A.
    pub map_a: Vec<usize>,
    /// Maps aligned index to original entry index in store B.
    pub map_b: Vec<usize>,
    /// Cached per-field diff stats.
    field_stats: Option<Vec<FieldDiffStats>>,
}

impl<'a> DiffStore<'a> {
    /// The table of store A.
    pub closed spec fn table_a(&self) -> TableView {
        self.store_a.table()
    }

    /// The table of store B.
    pub closed spec fn table_b(&self) -> TableView {
        self.store_b.table()
    }

    /// The index map of store A.
    pub closed spec fn ma(&self) -> Seq<usize> {
        self.map_a@
    }

    /// The index map of store B.
    pub closed spec fn mb(&self) -> Seq<usize> {
        self.map_b@
    }

    /// The store's invariant: both stores are well-formed and complete,
    /// the maps have one length and name entries in increasing order, and a
    /// cached statistic is the one `compute_stats` gives.
    pub closed spec fn wf(&self) -> bool {
        &&& self.store_a.wf()
        &&& self.store_b.wf()
        &&& self.store_a.table().full()
        &&& self.store_b.table().full()
        &&& self.map_a@.len() == self.map_b@.len()
        &&& map_ok(self.store_a.table(), self.map_a@)
        &&& map_ok(self.store_b.table(), self.map_b@)
        &&& match self.field_stats {
            Some(s) => stats_view(s@) == stats_of(self.table_a(), self.table_b(), self.ma(), self.mb()),
            None => true,
        }
    }
}

/// The per-field statistics of two tables under two maps.
pub open spec fn stats_of(ta: TableView, tb: TableView, ma: Seq<usize>, mb: Seq<usize>) -> Seq<FieldDiffStatsView> {
    stats_upto(ta, tb, ma, mb, ta.header.fields.len() as int)
}


/// How many of the first `n` aligned positions a field differs at.
pub open spec fn differing_count(
    ta: TableView,
    tb: TableView,
    ma: Seq<usize>,
    mb: Seq<usize>,
    field: Seq<char>,
    n: int,
) -> nat
    decreases n,
{
    if n <= 0 {
        0
    } else {
        differing_count(ta, tb, ma, mb, field, n - 1) + if field_differs_at(ta, tb, ma, mb, field, n - 1) {
            1nat
        } else {
            0nat
        }
    }
}

proof fn lemma_same_and_differing(
    ta: TableView,
    tb: TableView,
    ma: Seq<usize>,
    mb: Seq<usize>,
    f: Seq<char>,
    ca: int,
    cb: int,
    n: int,
)
    requires
        0 <= n,
        ta.col_of(f) == Some(ca),
        tb.col_of(f) == Some(cb),
    ensures
        same_count(ta, tb, ma, mb, ca, cb, type_of_field(f), n) + differing_count(ta, tb, ma, mb, f, n) == n,
    decreases n,
{
    if n > 0 {
        lemma_same_and_differing(ta, tb, ma, mb, f, ca, cb, n - 1);
    }
}

proof fn lemma_stats_upto_counts(ta: TableView, tb: TableView, ma: Seq<usize>, mb: Seq<usize>, n: int)
    requires
        0 <= n <= ta.header.fields.len(),
    ensures
        forall|j: int|
            0 <= j < stats_upto(ta, tb, ma, mb, n).len() ==> {
                let st = #[trigger] stats_upto(ta, tb, ma, mb, n)[j];
                &&& st.match_count + st.diff_count == ma.len()
                &&& st.diff_count == differing_count(ta, tb, ma, mb, st.name, ma.len() as int)
                &&& ta.col_of(st.name) is Some && tb.col_of(st.name) is Some
            },
    decreases n,
{
    if n > 0 {
        lemma_stats_upto_counts(ta, tb, ma, mb, n - 1);
        let f = ta.header.fields[n - 1];
        match (ta.col_of(f), tb.col_of(f)) {
            (Some(ca), Some(cb)) => {
                lemma_same_and_differing(ta, tb, ma, mb, f, ca, cb, ma.len() as int);
                let prev = stats_upto(ta, tb, ma, mb, n - 1);
                assert forall|j: int| 0 <= j < prev.len() implies stats_upto(ta, tb, ma, mb, n)[j] == prev[j] by {}
            },
            _ => {},
        }
    }
}

/// The statistics agree with `field_differs`: each compared field's diff
/// count is the number of aligned positions where it differs, and its
/// match and diff counts add up to the number of aligned positions.
pub proof fn law_stats_count_differences(ta: TableView, tb: TableView, ma: Seq<usize>, mb: Seq<usize>, j: int)
    requires
        0 <= j < stats_of(ta, tb, ma, mb).len(),
    ensures
        stats_of(ta, tb, ma, mb)[j].diff_count == differing_count(
            ta,
            tb,
            ma,
            mb,
            stats_of(ta, tb, ma, mb)[j].name,
            ma.len() as int,
        ),
        stats_of(ta, tb, ma, mb)[j].match_count + stats_of(ta, tb, ma, mb)[j].diff_count == ma.len(),
{
    lemma_stats_upto_counts(ta, tb, ma, mb, ta.header.fields.len() as int);
    let st = stats_of(ta, tb, ma, mb)[j];
    assert(st.match_count + st.diff_count == ma.len());
}

// ---------------------------------------------------------------------------
// Building the maps
// ---------------------------------------------------------------------------

/// The rows `change_points` picks lie among the first `n` rows, in
/// increasing order.
pub proof fn lemma_change_points_ordered(t: TableView, c: int, n: int)
    ensures
        forall|k: int|
            0 <= k < change_points(t, c, n).len() ==> 0 <= #[trigger] change_points(t, c, n)[k] < n,
        forall|i: int, j: int|
            0 <= i < j < change_points(t, c, n).len() ==> change_points(t, c, n)[i] < change_points(
                t,
                c,
                n,
            )[j],
    decreases n,
{
    if n > 1 {
        lemma_change_points_ordered(t, c, n - 1);
        let prev = change_points(t, c, n - 1);
        let cur = change_points(t, c, n);
        if t.num(c, n - 1) != t.num(c, n - 2) {
            assert(cur == prev.push(n - 1));
            assert forall|k: int| 0 <= k < cur.len() implies 0 <= #[trigger] cur[k] < n by {
                if k < prev.len() {
                    assert(cur[k] == prev[k]);
                }
            }
            assert forall|i: int, j: int| 0 <= i < j < cur.len() implies cur[i] < cur[j] by {
                assert(cur[i] == prev[i]);
                if j < prev.len() {
                    assert(cur[j] == prev[j]);
                }
            }
        } else {
            assert(cur == prev);
        }
    }
}

/// Dropping the front of a well-ordered map keeps it well-ordered.
pub proof fn lemma_map_from_ok(t: TableView, m: Seq<usize>, k: int)
    requires
        map_ok(t, m),
        0 <= k <= m.len(),
    ensures
        map_ok(t, map_from(m, k)),
{
    let r = map_from(m, k);
    assert forall|i: int, j: int| 0 <= i < j < r.len() implies r[i] < r[j] by {
        assert(r[i] == m[i + k] && r[j] == m[j + k]);
    }
    assert forall|i: int| 0 <= i < r.len() implies #[trigger] r[i] < t.rows by {
        assert(r[i] == m[i + k]);
    }
}

/// A prefix of a well-ordered map is well-ordered.
pub proof fn lemma_map_take_ok(t: TableView, m: Seq<usize>, k: int)
    requires
        map_ok(t, m),
        0 <= k <= m.len(),
    ensures
        map_ok(t, m.take(k)),
{
}

fn collapse_indices(store: &ColumnStore) -> (r: Result<Vec<usize>, Error>)
    requires
        store.wf(),
        store.table().full(),
    ensures
        match r {
            Ok(v) => base_map(store.table(), true) == Ok::<Seq<usize>, Seq<char>>(v@) && map_ok(
                store.table(),
                v@,
            ),
            Err(e) => e is Diff && base_map(store.table(), true) == Err::<Seq<usize>, Seq<char>>(
                e->Diff_0@,
            ),
        },
{
    let ghost t = store.table();
    let pc = match store.field_col("pc") {
        Some(c) => c,
        None => {
            return Err(Error::Diff(crate::text::string_of(&chars_of("no pc field for collapse"))));
        },
    };
    proof {
        lemma_last_named_bound(t.header.fields, "pc"@);
    }
    let count = store.entry_count();
    let mut indices: Vec<usize> = Vec::new();
    if count > 0 {
        proof {
            lemma_full_readable(t, 0);
        }
        indices.push(0);
        assert(crate::column_store::as_ints(indices@) =~= change_points(t, pc as int, 1));
        assert(crate::column_store::col_readable(t.columns[pc as int], 0));
        let mut prev = store.column(pc).get_numeric(0);
        let mut i: usize = 1;
        while i < count
            invariant
                1 <= i <= count,
                count == t.rows,
                t == store.table(),
                store.wf(),
                t.full(),
                pc < t.columns.len(),
                prev == t.num(pc as int, i - 1),
                crate::column_store::as_ints(indices@) == change_points(t, pc as int, i as int),
            decreases count - i,
        {
            proof {
                lemma_full_readable(t, i as int);
            }
            assert(crate::column_store::col_readable(t.columns[pc as int], i as int));
            let cur = store.column(pc).get_numeric(i);
            if cur != prev {
                indices.push(i);
                assert(crate::column_store::as_ints(indices@) =~= change_points(t, pc as int, i as int).push(
                    i as int,
                ));
            }
            prev = cur;
            i += 1;
        }
    } else {
        assert(crate::column_store::as_ints(indices@) =~= change_points(t, pc as int, 0));
    }
    proof {
        let cp = change_points(t, pc as int, t.rows as int);
        lemma_change_points_ordered(t, pc as int, t.rows as int);
        assert(crate::column_store::as_ints(indices@) == cp);
        assert(indices@.len() == cp.len());
        assert forall|k: int| 0 <= k < cp.len() implies indices@[k] == cp[k] as usize by {
            assert(crate::column_store::as_ints(indices@)[k] == indices@[k] as int);
        }
        assert(indices@ =~= Seq::new(cp.len(), |k: int| cp[k] as usize));
    }
    Ok(indices)
}

fn every_row(n: usize) -> (r: Vec<usize>)
    ensures
        r@ == all_rows(n as int),
{
    let mut v: Vec<usize> = Vec::new();
    let mut i: usize = 0;
    while i < n
        invariant
            i <= n,
            v@ == all_rows(i as int),
        decreases n - i,
    {
        v.push(i);
        i += 1;
        assert(v@ =~= all_rows(i as int));
    }
    v
}

fn drop_front(m: &Vec<usize>, k: usize) -> (r: Vec<usize>)
    requires
        k <= m@.len(),
    ensures
        r@ == map_from(m@, k as int),
{
    let mut v: Vec<usize> = Vec::new();
    let mut i = k;
    while i < m.len()
        invariant
            k <= i <= m@.len(),
            v@ == m@.subrange(k as int, i as int),
        decreases m@.len() - i,
    {
        v.push(m[i]);
        i += 1;
        assert(v@ =~= m@.subrange(k as int, i as int));
    }
    v
}

/// The first position among the first `limit` of a map whose entry has
/// PC `target`.
fn find_pc(store: &ColumnStore, pc: usize, m: &Vec<usize>, limit: usize, target: u16) -> (r: Option<usize>)
    requires
        store.wf(),
        store.table().full(),
        pc < store.table().columns.len(),
        map_ok(store.table(), m@),
        limit <= m@.len(),
    ensures
        match r {
            Some(k) => first_where(limit as int, map_pc_is(store.table(), pc as int, m@, target)) == Some(
                k as int,
            ) && k < limit,
            None => first_where(limit as int, map_pc_is(store.table(), pc as int, m@, target)) is None,
        },
{
    let ghost t = store.table();
    let ghost p = map_pc_is(t, pc as int, m@, target);
    let mut i: usize = 0;
    while i < limit
        invariant
            i <= limit,
            limit <= m@.len(),
            t == store.table(),
            store.wf(),
            t.full(),
            pc < t.columns.len(),
            map_ok(t, m@),
            p == map_pc_is(t, pc as int, m@, target),
            first_where(i as int, p) is None,
        decreases limit - i,
    {
        let row = m[i];
        proof {
            lemma_full_readable(t, row as int);
        }
        assert(crate::column_store::col_readable(t.columns[pc as int], row as int));
        if #[verifier::truncate] (store.column(pc).get_numeric(row) as u16) == target {
            assert(first_where(i + 1, p) == Some(i as int));
            proof {
                lemma_first_where_stable(i + 1, limit as int, p);
            }
            return Some(i);
        }
        i += 1;
    }
    None
}

fn align_by_pc(store_a: &ColumnStore, store_b: &ColumnStore, map_a: &mut Vec<usize>, map_b: &mut Vec<usize>)
    requires
        store_a.wf(),
        store_b.wf(),
        store_a.table().full(),
        store_b.table().full(),
        map_ok(store_a.table(), old(map_a)@),
        map_ok(store_b.table(), old(map_b)@),
    ensures
        (final(map_a)@, final(map_b)@) == align_maps_by_pc(
            store_a.table(),
            store_b.table(),
            old(map_a)@,
            old(map_b)@,
        ),
        map_ok(store_a.table(), final(map_a)@),
        map_ok(store_b.table(), final(map_b)@),
{
    let ghost ta = store_a.table();
    let ghost tb = store_b.table();
    let (ca, cb) = match (store_a.field_col("pc"), store_b.field_col("pc")) {
        (Some(ca), Some(cb)) => (ca, cb),
        _ => return ,
    };
    proof {
        lemma_last_named_bound(ta.header.fields, "pc"@);
        lemma_last_named_bound(tb.header.fields, "pc"@);
    }
    if map_a.len() == 0 || map_b.len() == 0 {
        return ;
    }
    proof {
        lemma_full_readable(ta, map_a@[0] as int);
        lemma_full_readable(tb, map_b@[0] as int);
    }
    assert(crate::column_store::col_readable(ta.columns[ca as int], map_a@[0] as int));
    assert(crate::column_store::col_readable(tb.columns[cb as int], map_b@[0] as int));
    let pa = #[verifier::truncate] (store_a.column(ca).get_numeric(map_a[0]) as u16);
    let pb = #[verifier::truncate] (store_b.column(cb).get_numeric(map_b[0]) as u16);
    if pa == pb {
        return ;
    }
    let la = if map_a.len() < 100 {
        map_a.len()
    } else {
        100
    };
    let lb = if map_b.len() < 100 {
        map_b.len()
    } else {
        100
    };
    let target = if find_pc(store_a, ca, map_a, la, pb).is_some() {
        Some(pb)
    } else if find_pc(store_b, cb, map_b, lb, pa).is_some() {
        Some(pa)
    } else {
        None
    };
    let tp = match target {
        Some(tp) => tp,
        None => return ,
    };
    if pa != tp {
        let n = map_a.len();
        if let Some(pos) = find_pc(store_a, ca, map_a, n, tp) {
            proof {
                lemma_map_from_ok(ta, map_a@, pos as int);
            }
            *map_a = drop_front(map_a, pos);
        }
    }
    if pb != tp {
        let n = map_b.len();
        if let Some(pos) = find_pc(store_b, cb, map_b, n, tp) {
            proof {
                lemma_map_from_ok(tb, map_b@, pos as int);
            }
            *map_b = drop_front(map_b, pos);
        }
    }
}

/// The first position of a map whose entry matches a sync test.
fn find_cond(store: &ColumnStore, field: &str, is_mask: bool, val: u64, m: &Vec<usize>) -> (r: Option<usize>)
    requires
        store.wf(),
        store.table().full(),
        map_ok(store.table(), m@),
    ensures
        match r {
            Some(k) => first_where(m@.len() as int, map_cond_is(store.table(), field@, is_mask, val, m@))
                == Some(k as int) && k < m@.len(),
            None => first_where(m@.len() as int, map_cond_is(store.table(), field@, is_mask, val, m@)) is None,
        },
{
    let ghost t = store.table();
    let ghost p = map_cond_is(t, field@, is_mask, val, m@);
    let col = store.field_col(field);
    proof {
        lemma_last_named_bound(t.header.fields, field@);
    }
    let n = m.len();
    let mut i: usize = 0;
    while i < n
        invariant
            i <= n,
            n == m@.len(),
            t == store.table(),
            store.wf(),
            t.full(),
            col matches Some(c) ==> c < t.columns.len() && t.col_of(field@) == Some(c as int),
            col is None ==> t.col_of(field@) is None,
            map_ok(t, m@),
            p == map_cond_is(t, field@, is_mask, val, m@),
            first_where(i as int, p) is None,
        decreases n - i,
    {
        let hit = match col {
            Some(c) => {
                let row = m[i];
                proof {
                    lemma_full_readable(t, row as int);
                }
                assert(crate::column_store::col_readable(t.columns[c as int], row as int));
                let v = store.column(c).get_numeric(row);
                if is_mask {
                    (v & val) != 0
                } else {
                    v == val
                }
            },
            None => false,
        };
        if hit {
            assert(first_where(i + 1, p) == Some(i as int));
            proof {
                lemma_first_where_stable(i + 1, n as int, p);
            }
            return Some(i);
        }
        i += 1;
    }
    None
}

/// A sync condition `field&mask` or `field=value`: the field, whether it
/// is a mask test, and the value.
fn parse_sync(cond: &str) -> (r: Result<(String, bool, u64), Error>)
    ensures
        match r {
            Ok(p) => sync_condition_of(cond@) == Ok::<(Seq<char>, bool, nat), Seq<char>>(
                (p.0@, p.1, p.2 as nat),
            ),
            Err(e) => e is Diff && sync_condition_of(cond@) == Err::<(Seq<char>, bool, nat), Seq<char>>(
                e->Diff_0@,
            ),
        },
{
    let cv = chars_of(cond);
    let amp = crate::text::find_char_exec(&cv, '&');
    let eq = crate::text::find_char_exec(&cv, '=');
    proof {
        crate::text::lemma_find_char_bound(cv@, '&');
        crate::text::lemma_find_char_bound(cv@, '=');
    }
    let (is_mask, pos) = match amp {
        Some(p) => (true, p),
        None => match eq {
            Some(p) => (false, p),
            None => {
                let mut m = chars_of("invalid sync condition: ");
                crate::text::append_chars(&mut m, &cv);
                return Err(Error::Diff(crate::text::string_of(&m)));
            },
        },
    };
    let n = cv.len();
    let field = crate::text::slice_chars(&cv, 0, pos);
    let value = crate::text::slice_chars(&cv, pos + 1, n);
    assert(field@ =~= cv@.take(pos as int));
    assert(value@ =~= cv@.skip(pos + 1));
    let parsed = match crate::text::strip_prefix_chars(&value, &chars_of("0x")) {
        Some(hex) => {
            proof {
                reveal_strlit("0x");
            }
            assert(hex@ =~= value@.skip(2));
            crate::text::parse_unsigned_exec(&hex, 16, u64::MAX)
        },
        None => crate::text::parse_unsigned_exec(&value, 10, u64::MAX),
    };
    match parsed {
        None => {
            let mut m = chars_of("invalid value: ");
            crate::text::append_chars(&mut m, &value);
            Err(Error::Diff(crate::text::string_of(&m)))
        },
        Some(v) => Ok((crate::text::string_of(&field), is_mask, v)),
    }
}

fn align_by_condition(
    store_a: &ColumnStore,
    store_b: &ColumnStore,
    map_a: &mut Vec<usize>,
    map_b: &mut Vec<usize>,
    condition: &str,
) -> (r: Result<(), Error>)
    requires
        store_a.wf(),
        store_b.wf(),
        store_a.table().full(),
        store_b.table().full(),
        map_ok(store_a.table(), old(map_a)@),
        map_ok(store_b.table(), old(map_b)@),
    ensures
        match r {
            Ok(_) => align_maps_by_condition(
                store_a.table(),
                store_b.table(),
                old(map_a)@,
                old(map_b)@,
                condition@,
            ) == Ok::<(Seq<usize>, Seq<usize>), Seq<char>>((final(map_a)@, final(map_b)@)),
            Err(e) => e is Diff && align_maps_by_condition(
                store_a.table(),
                store_b.table(),
                old(map_a)@,
                old(map_b)@,
                condition@,
            ) == Err::<(Seq<usize>, Seq<usize>), Seq<char>>(e->Diff_0@),
        },
        map_ok(store_a.table(), final(map_a)@),
        map_ok(store_b.table(), final(map_b)@),
{
    let (field, is_mask, val) = match parse_sync(condition) {
        Ok(p) => p,
        Err(e) => return Err(e),
    };
    if let Some(pos) = find_cond(store_a, field.as_str(), is_mask, val, map_a) {
        proof {
            lemma_map_from_ok(store_a.table(), map_a@, pos as int);
        }
        *map_a = drop_front(map_a, pos);
    }
    if let Some(pos) = find_cond(store_b, field.as_str(), is_mask, val, map_b) {
        proof {
            lemma_map_from_ok(store_b.table(), map_b@, pos as int);
        }
        *map_b = drop_front(map_b, pos);
    }
    Ok(())
}


// ---------------------------------------------------------------------------
// Reading and comparing
// ---------------------------------------------------------------------------

/// Whether the values of one field at two rows are the same.
fn same_at(
    a: &ColumnStore,
    ca: usize,
    ra: usize,
    b: &ColumnStore,
    cb: usize,
    rb: usize,
    ft: FieldType,
) -> (r: bool)
    requires
        ca < a.table().columns.len(),
        cb < b.table().columns.len(),
        a.table().columns[ca as int].kind == ft,
        b.table().columns[cb as int].kind == ft,
        ra < a.table().columns[ca as int].cells.len(),
        rb < b.table().columns[cb as int].cells.len(),
    ensures
        r == same_value(a.table(), ca as int, ra as int, b.table(), cb as int, rb as int, ft),
{
    match ft {
        FieldType::Bool => a.column(ca).get_bool(ra) == b.column(cb).get_bool(rb),
        FieldType::Str => str_eq(a.column(ca).get_str(ra), b.column(cb).get_str(rb)),
        _ => a.column(ca).get_numeric(ra) == b.column(cb).get_numeric(rb),
    }
}

/// Whether row `r` of column `c` can be read whatever its type.
pub open spec fn cell_readable(t: TableView, c: int, r: int) -> bool {
    0 <= r < t.columns[c].cells.len()
}

/// In a complete table a column that is not text has every completed row.
proof fn lemma_cell_readable(t: TableView, c: int, r: int)
    requires
        t.full(),
        0 <= c < t.columns.len(),
        0 <= r < t.rows,
        t.columns[c].kind != FieldType::Str,
    ensures
        cell_readable(t, c, r),
{
}

fn compute_field_stats(a: &ColumnStore, b: &ColumnStore, ma: &Vec<usize>, mb: &Vec<usize>) -> (r: Vec<FieldDiffStats>)
    requires
        a.wf(),
        b.wf(),
        a.table().full(),
        b.table().full(),
        ma@.len() == mb@.len(),
        map_ok(a.table(), ma@),
        map_ok(b.table(), mb@),
        ma@.len() == 0 || common_texts_readable(a.table(), b.table()),
    ensures
        stats_view(r@) == stats_of(a.table(), b.table(), ma@, mb@),
{
    let ghost ta = a.table();
    let ghost tb = b.table();
    let fields = &a.header().fields;
    assert(ta.header.fields == crate::header::string_texts(fields@));
    let nf = fields.len();
    let n = ma.len();
    let mut stats: Vec<FieldDiffStats> = Vec::new();
    let mut f: usize = 0;
    while f < nf
        invariant
            f <= nf,
            nf == ta.header.fields.len(),
            ta.header.fields == crate::header::string_texts(fields@),
            n == ma@.len(),
            n == mb@.len(),
            ta == a.table(),
            tb == b.table(),
            a.wf(),
            b.wf(),
            ta.full(),
            tb.full(),
            map_ok(ta, ma@),
            map_ok(tb, mb@),
            n == 0 || common_texts_readable(ta, tb),
            stats_view(stats@) == stats_upto(ta, tb, ma@, mb@, f as int),
        decreases nf - f,
    {
        let name = fields[f].as_str();
        assert(name@ == ta.header.fields[f as int]);
        let ca = a.field_col(name);
        let cb = b.field_col(name);
        proof {
            lemma_last_named_bound(ta.header.fields, name@);
            lemma_last_named_bound(tb.header.fields, name@);
        }
        if let (Some(ca), Some(cb)) = (ca, cb) {
            let ft = field_type(name);
            let mut same: usize = 0;
            let mut k: usize = 0;
            while k < n
                invariant
                    k <= n,
                    n == ma@.len(),
                    n == mb@.len(),
                    ta == a.table(),
                    tb == b.table(),
                    ta.full(),
                    tb.full(),
                    map_ok(ta, ma@),
                    map_ok(tb, mb@),
                    n == 0 || common_texts_readable(ta, tb),
                    ca < ta.columns.len(),
                    cb < tb.columns.len(),
                    ta.col_of(name@) == Some(ca as int),
                    tb.col_of(name@) == Some(cb as int),
                    ta.header.fields[ca as int] == name@,
                    tb.header.fields[cb as int] == name@,
                    ta.columns[ca as int].kind == ft,
                    tb.columns[cb as int].kind == ft,
                    ft == type_of_field(name@),
                    same <= k,
                    same == same_count(ta, tb, ma@, mb@, ca as int, cb as int, ft, k as int),
                decreases n - k,
            {
                let ra = ma[k];
                let rb = mb[k];
                proof {
                    if ft != FieldType::Str {
                        lemma_cell_readable(ta, ca as int, ra as int);
                        lemma_cell_readable(tb, cb as int, rb as int);
                    } else {
                        assert(ta.columns[ca as int].cells.len() >= ta.rows);
                        assert(tb.columns[cb as int].cells.len() >= tb.rows);
                    }
                }
                if same_at(a, ca, ra, b, cb, rb, ft) {
                    same += 1;
                }
                k += 1;
            }
            let ghost before = stats@;
            stats.push(FieldDiffStats { name: fields[f].clone(), match_count: same, diff_count: n - same });
            assert(stats_view(stats@) =~= stats_view(before).push(stats@.last()@));
        }
        f += 1;
    }
    stats
}

impl<'a> DiffStore<'a> {
    /// Create a comparison view by aligning two traces. A T-cycle trace is
    /// read one entry per instruction when the other is not T-cycle; then
    /// `None` or `"pc"` aligns at the first common PC, `"none"` compares
    /// from the start, and `"field=value"` or `"field&mask"` aligns both at
    /// their first match. Both maps are cut to the shorter.
    pub fn align(store_a: &'a ColumnStore, store_b: &'a ColumnStore, sync: Option<&str>) -> (r: Result<
        DiffStore<'a>,
        Error,
    >)
        requires
            store_a.wf(),
            store_b.wf(),
            store_a.table().full(),
            store_b.table().full(),
        ensures
            match r {
                Ok(d) => {
                    &&& d.wf()
                    &&& d.table_a() == store_a.table()
                    &&& d.table_b() == store_b.table()
                    &&& aligned_maps(store_a.table(), store_b.table(), crate::column_store::opt_text(sync))
                        == Ok::<(Seq<usize>, Seq<usize>), Seq<char>>((d.ma(), d.mb()))
                },
                Err(e) => e is Diff && aligned_maps(
                    store_a.table(),
                    store_b.table(),
                    crate::column_store::opt_text(sync),
                ) == Err::<(Seq<usize>, Seq<usize>), Seq<char>>(e->Diff_0@),
            },
    {
        let ghost ta = store_a.table();
        let ghost tb = store_b.table();
        let at = matches!(store_a.header().trigger, Trigger::Tcycle);
        let bt = matches!(store_b.header().trigger, Trigger::Tcycle);
        let mut map_a = if at && !bt {
            match collapse_indices(store_a) {
                Ok(v) => v,
                Err(e) => return Err(e),
            }
        } else {
            every_row(store_a.entry_count())
        };
        let mut map_b = if bt && !at {
            match collapse_indices(store_b) {
                Ok(v) => v,
                Err(e) => return Err(e),
            }
        } else {
            every_row(store_b.entry_count())
        };
        assert(map_ok(ta, map_a@));
        assert(map_ok(tb, map_b@));
        let mode: &str = match sync {
            Some(s) => s,
            None => "pc",
        };
        if str_eq(mode, "none") {
        } else if str_eq(mode, "pc") {
            align_by_pc(store_a, store_b, &mut map_a, &mut map_b);
        } else {
            match align_by_condition(store_a, store_b, &mut map_a, &mut map_b, mode) {
                Ok(_) => {},
                Err(e) => return Err(e),
            }
        }
        let len = if map_a.len() < map_b.len() {
            map_a.len()
        } else {
            map_b.len()
        };
        proof {
            lemma_map_take_ok(ta, map_a@, len as int);
            lemma_map_take_ok(tb, map_b@, len as int);
        }
        map_a.truncate(len);
        map_b.truncate(len);
        Ok(DiffStore { store_a, store_b, map_a, map_b, field_stats: None })
    }

    /// Number of aligned entry pairs.
    pub fn len(&self) -> (r: usize)
        ensures
            r == self.ma().len(),
    {
        self.map_a.len()
    }

    /// The original entry index in store A of an aligned index.
    pub fn original_a(&self, aligned_idx: usize) -> (r: usize)
        requires
            aligned_idx < self.ma().len(),
        ensures
            r == self.ma()[aligned_idx as int],
    {
        self.map_a[aligned_idx]
    }

    /// The original entry index in store B of an aligned index.
    pub fn original_b(&self, aligned_idx: usize) -> (r: usize)
        requires
            aligned_idx < self.mb().len(),
        ensures
            r == self.mb()[aligned_idx as int],
    {
        self.map_b[aligned_idx]
    }

    /// Whether a field differs at an aligned index (a field missing from
    /// either store never does).
    pub fn field_differs(&self, field: &str, aligned_idx: usize) -> (r: bool)
        requires
            self.wf(),
            aligned_idx < self.ma().len(),
            type_of_field(field@) == FieldType::Str ==> common_texts_readable(self.table_a(), self.table_b()),
        ensures
            r == field_differs_at(self.table_a(), self.table_b(), self.ma(), self.mb(), field@, aligned_idx as int),
    {
        let ghost ta = self.table_a();
        let ghost tb = self.table_b();
        let col_a = self.store_a.field_col(field);
        let col_b = self.store_b.field_col(field);
        proof {
            lemma_last_named_bound(ta.header.fields, field@);
            lemma_last_named_bound(tb.header.fields, field@);
        }
        match (col_a, col_b) {
            (Some(ca), Some(cb)) => {
                let row_a = self.map_a[aligned_idx];
                let row_b = self.map_b[aligned_idx];
                let ft = field_type(field);
                proof {
                    if ft != FieldType::Str {
                        lemma_cell_readable(ta, ca as int, row_a as int);
                        lemma_cell_readable(tb, cb as int, row_b as int);
                    } else {
                        assert(ta.columns[ca as int].cells.len() >= ta.rows);
                        assert(tb.columns[cb as int].cells.len() >= tb.rows);
                    }
                }
                !same_at(self.store_a, ca, row_a, self.store_b, cb, row_b, ft)
            },
            _ => false,
        }
    }

    /// Per-field diff statistics for every field of A that B has too, in
    /// A's field order (computed once, then cached).
    pub fn compute_stats(&mut self) -> (r: &[FieldDiffStats])
        requires
            old(self).wf(),
            old(self).ma().len() == 0 || common_texts_readable(old(self).table_a(), old(self).table_b()),
        ensures
            stats_view(r@) == stats_of(old(self).table_a(), old(self).table_b(), old(self).ma(), old(self).mb()),
            final(self).wf(),
            final(self).table_a() == old(self).table_a(),
            final(self).table_b() == old(self).table_b(),
            final(self).ma() == old(self).ma(),
            final(self).mb() == old(self).mb(),
    {
        if self.field_stats.is_none() {
            let stats = compute_field_stats(self.store_a, self.store_b, &self.map_a, &self.map_b);
            self.field_stats = Some(stats);
        }
        match &self.field_stats {
            Some(s) => s.as_slice(),
            None => &[],
        }
    }
}


/// The matches of a list of statistics, summed.
pub open spec fn sum_matches(s: Seq<FieldDiffStatsView>) -> nat
    decreases s.len(),
{
    if s.len() == 0 {
        0
    } else {
        sum_matches(s.drop_last()) + s.last().match_count
    }
}

/// The differences of a list of statistics, summed.
pub open spec fn sum_diffs(s: Seq<FieldDiffStatsView>) -> nat
    decreases s.len(),
{
    if s.len() == 0 {
        0
    } else {
        sum_diffs(s.drop_last()) + s.last().diff_count
    }
}

proof fn lemma_sums_grow(s: Seq<FieldDiffStatsView>, i: int)
    requires
        0 <= i <= s.len(),
    ensures
        sum_matches(s.take(i)) <= sum_matches(s),
        sum_diffs(s.take(i)) <= sum_diffs(s),
    decreases s.len() - i,
{
    if i < s.len() {
        lemma_sums_grow(s, i + 1);
        assert(s.take(i + 1).drop_last() =~= s.take(i));
    } else {
        assert(s.take(i) =~= s);
    }
}

impl<'a> DiffStore<'a> {
    /// The matches and the differences over every compared field, summed:
    /// the overall match percentage is the first over their sum (100 when
    /// both are 0).
    pub fn overall_match_counts(&mut self) -> (r: (usize, usize))
        requires
            old(self).wf(),
            old(self).ma().len() == 0 || common_texts_readable(old(self).table_a(), old(self).table_b()),
            sum_matches(stats_of(old(self).table_a(), old(self).table_b(), old(self).ma(), old(self).mb()))
                + sum_diffs(stats_of(old(self).table_a(), old(self).table_b(), old(self).ma(), old(self).mb()))
                <= usize::MAX,
        ensures
            r.0 == sum_matches(stats_of(old(self).table_a(), old(self).table_b(), old(self).ma(), old(self).mb())),
            r.1 == sum_diffs(stats_of(old(self).table_a(), old(self).table_b(), old(self).ma(), old(self).mb())),
            final(self).wf(),
    {
        let stats = self.compute_stats();
        let ghost sv = stats_view(stats@);
        let mut matches: usize = 0;
        let mut diffs: usize = 0;
        let mut i: usize = 0;
        while i < stats.len()
            invariant
                i <= stats@.len(),
                sv == stats_view(stats@),
                sum_matches(sv) + sum_diffs(sv) <= usize::MAX,
                matches == sum_matches(sv.take(i as int)),
                diffs == sum_diffs(sv.take(i as int)),
            decreases stats@.len() - i,
        {
            proof {
                assert(sv.take(i + 1).drop_last() =~= sv.take(i as int));
                lemma_sums_grow(sv, i + 1);
            }
            matches = matches + stats[i].match_count;
            diffs = diffs + stats[i].diff_count;
            i += 1;
        }
        assert(sv.take(i as int) =~= sv);
        (matches, diffs)
    }
}

} // verus!
