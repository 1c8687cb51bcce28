//! Row groups of a partitioned trace: the index from a global row to its
//! group and offset, and the small most-recently-used cache that holds the
//! few decoded groups in memory.
use vstd::prelude::*;

use crate::column_store::ColumnStore;

verus! {

// ---------------------------------------------------------------------------
// Row group index
// ---------------------------------------------------------------------------

/// The number of rows in the first `n` groups.
pub open spec fn rows_before(counts: Seq<usize>, n: int) -> int
    decreases n,
{
    if n <= 0 {
        0
    } else {
        rows_before(counts, n - 1) + counts[n - 1]
    }
}

/// Whether a sequence never decreases.
pub open spec fn ascending(s: Seq<usize>) -> bool {
    forall|i: int, j: int| 0 <= i <= j < s.len() ==> s[i] <= s[j]
}

/// Index mapping global row indices to row groups.
pub struct RowGroupIndex {
    /// Cumulative row count at the end of each row group.
    cumulative: Vec<usize>,
}

impl RowGroupIndex {
    /// The cumulative row count at the end of each group.
    pub closed spec fn ends(&self) -> Seq<usize> {
        self.cumulative@
    }

    /// The first row of group `rg`.
    pub open spec fn start_of(&self, rg: int) -> int {
        if rg <= 0 {
            0
        } else {
            self.ends()[rg - 1] as int
        }
    }

    /// The ends never decrease.
    pub open spec fn wf(&self) -> bool {
        ascending(self.ends())
    }

    /// An index of groups with the given row counts, in order.
    pub fn new(counts: &Vec<usize>) -> (r: RowGroupIndex)
        requires
            rows_before(counts@, counts@.len() as int) <= usize::MAX,
        ensures
            r.wf(),
            r.ends().len() == counts@.len(),
            forall|i: int| 0 <= i < counts@.len() ==> #[trigger] r.ends()[i] == rows_before(counts@, i + 1),
    {
        let mut cumulative: Vec<usize> = Vec::new();
        let mut total: usize = 0;
        let mut i: usize = 0;
        while i < counts.len()
            invariant
                i <= counts@.len(),
                rows_before(counts@, counts@.len() as int) <= usize::MAX,
                total == rows_before(counts@, i as int),
                cumulative@.len() == i,
                forall|k: int| 0 <= k < i ==> #[trigger] cumulative@[k] == rows_before(counts@, k + 1),
                ascending(cumulative@),
            decreases counts@.len() - i,
        {
            proof {
                lemma_rows_before_grows(counts@, i as int + 1, counts@.len() as int);
            }
            total = total + counts[i];
            cumulative.push(total);
            i += 1;
            assert forall|a: int, b: int| 0 <= a <= b < cumulative@.len() implies cumulative@[a] <= cumulative@[b] by {
                if b == i - 1 && a < b {
                    lemma_rows_before_grows(counts@, a + 1, i as int);
                }
            }
        }
        RowGroupIndex { cumulative }
    }

    /// The total number of rows.
    pub fn total_rows(&self) -> (r: usize)
        ensures
            r == (if self.ends().len() == 0 { 0 } else { self.ends().last() as int }),
    {
        if self.cumulative.len() == 0 {
            0
        } else {
            self.cumulative[self.cumulative.len() - 1]
        }
    }

    /// The number of row groups.
    pub fn num_row_groups(&self) -> (r: usize)
        ensures
            r == self.ends().len(),
    {
        self.cumulative.len()
    }

    /// Map a global row index to its row group and the offset within it:
    /// the group is the first whose end lies past the row (the number of
    /// groups where none does).
    pub fn locate(&self, global: usize) -> (r: (usize, usize))
        requires
            self.wf(),
        ensures
            r.0 <= self.ends().len(),
            forall|i: int| 0 <= i < r.0 ==> #[trigger] self.ends()[i] <= global,
            r.0 < self.ends().len() ==> global < self.ends()[r.0 as int],
            r.1 == global - self.start_of(r.0 as int),
    {
        let mut lo: usize = 0;
        let mut hi: usize = self.cumulative.len();
        while lo < hi
            invariant
                lo <= hi <= self.ends().len(),
                self.wf(),
                forall|i: int| 0 <= i < lo ==> #[trigger] self.ends()[i] <= global,
                forall|i: int| hi <= i < self.ends().len() ==> #[trigger] self.ends()[i] > global,
            decreases hi - lo,
        {
            let mid = lo + (hi - lo) / 2;
            if self.cumulative[mid] <= global {
                assert forall|i: int| 0 <= i < mid + 1 implies #[trigger] self.ends()[i] <= global by {
                    assert(self.ends()[i] <= self.ends()[mid as int]);
                }
                lo = mid + 1;
            } else {
                assert forall|i: int| mid <= i < self.ends().len() implies #[trigger] self.ends()[i] > global by {
                    assert(self.ends()[mid as int] <= self.ends()[i]);
                }
                hi = mid;
            }
        }
        let start = if lo == 0 {
            0
        } else {
            self.cumulative[lo - 1]
        };
        (lo, global - start)
    }

    /// The global index of a row group's first row.
    pub fn row_group_start(&self, rg: usize) -> (r: usize)
        requires
            rg <= self.ends().len(),
        ensures
            r == self.start_of(rg as int),
    {
        if rg == 0 {
            0
        } else {
            self.cumulative[rg - 1]
        }
    }

    /// The number of rows in a row group.
    pub fn row_group_len(&self, rg: usize) -> (r: usize)
        requires
            self.wf(),
            rg < self.ends().len(),
        ensures
            r == self.ends()[rg as int] - self.start_of(rg as int),
    {
        let start = self.row_group_start(rg);
        if rg > 0 {
            assert(self.ends()[rg - 1] <= self.ends()[rg as int]);
        }
        self.cumulative[rg] - start
    }
}

/// Row counts only add up.
proof fn lemma_rows_before_grows(counts: Seq<usize>, a: int, b: int)
    requires
        0 <= a <= b <= counts.len(),
    ensures
        rows_before(counts, a) <= rows_before(counts, b),
    decreases b - a,
{
    if a < b {
        lemma_rows_before_grows(counts, a, b - 1);
    }
}

// ---------------------------------------------------------------------------
// Most-recently-used cache of decoded groups
// ---------------------------------------------------------------------------

/// How many decoded row groups the cache keeps.
pub const LRU_CAPACITY: usize = 3;

/// The position of the entry for group `rg`.
pub open spec fn key_pos(s: Seq<(usize, ColumnStore)>, rg: usize) -> Option<int>
    decreases s.len(),
{
    if s.len() == 0 {
        None
    } else if s[0].0 == rg {
        Some(0)
    } else {
        match key_pos(s.drop_first(), rg) {
            Some(p) => Some(p + 1),
            None => None,
        }
    }
}

/// The entries without the one for group `rg`, if there is one.
pub open spec fn without_entry(s: Seq<(usize, ColumnStore)>, rg: usize) -> Seq<(usize, ColumnStore)> {
    match key_pos(s, rg) {
        Some(p) => s.remove(p),
        None => s,
    }
}

/// The entries kept when one more must fit: the least recently used one
/// goes when the cache is full.
pub open spec fn room_for_one(s: Seq<(usize, ColumnStore)>) -> Seq<(usize, ColumnStore)> {
    if s.len() >= LRU_CAPACITY {
        s.drop_last()
    } else {
        s
    }
}

/// The groups the entries hold, most recently used first.
pub open spec fn keys_of(s: Seq<(usize, ColumnStore)>) -> Seq<usize> {
    Seq::new(s.len(), |i: int| s[i].0)
}

/// A cache of decoded row groups, most recently used first.
pub struct LruCache {
    entries: Vec<(usize, ColumnStore)>,
}

impl LruCache {
    /// The cached groups with their stores, most recently used first.
    pub closed spec fn items(&self) -> Seq<(usize, ColumnStore)> {
        self.entries@
    }

    /// No group is held twice, and no more than the capacity are held.
    pub open spec fn wf(&self) -> bool {
        &&& keys_of(self.items()).no_duplicates()
        &&& self.items().len() <= LRU_CAPACITY
    }

    /// An empty cache.
    pub fn new() -> (r: LruCache)
        ensures
            r.wf(),
            r.items() == Seq::<(usize, ColumnStore)>::empty(),
    {
        let r = LruCache { entries: Vec::new() };
        assert(keys_of(r.items()) =~= Seq::<usize>::empty());
        r
    }

    /// The store of group `rg`, if cached; a hit makes it the most recently
    /// used.
    pub fn get(&mut self, rg: usize) -> (r: Option<&ColumnStore>)
        requires
            old(self).wf(),
        ensures
            final(self).wf(),
            match key_pos(old(self).items(), rg) {
                Some(p) => {
                    &&& final(self).items() == seq![old(self).items()[p]] + old(self).items().remove(p)
                    &&& r == Some(&final(self).items()[0].1)
                },
                None => {
                    &&& final(self).items() == old(self).items()
                    &&& r is None
                },
            },
    {
        let ghost s = self.entries@;
        let i = self.position(rg);
        if i == self.entries.len() {
            return None;
        }
        proof {
            lemma_remove_keys(s, i as int);
        }
        if i > 0 {
            let e = self.entries.remove(i);
            self.entries.insert(0, e);
            assert(self.entries@ =~= seq![s[i as int]] + s.remove(i as int));
        } else {
            assert(s =~= seq![s[0]] + s.remove(0));
        }
        proof {
            lemma_front_keys(s[i as int], s.remove(i as int));
        }
        Some(&self.entries[0].1)
    }

    /// Cache the store of group `rg` as the most recently used, in place of
    /// any it held before, letting the least recently used go when full.
    pub fn insert(&mut self, rg: usize, store: ColumnStore)
        requires
            old(self).wf(),
        ensures
            final(self).wf(),
            final(self).items() == seq![(rg, store)] + room_for_one(without_entry(old(self).items(), rg)),
    {
        let ghost s = self.entries@;
        let i = self.position(rg);
        if i < self.entries.len() {
            proof {
                lemma_remove_keys(s, i as int);
            }
            self.entries.remove(i);
        }
        let ghost kept = self.entries@;
        assert(kept == without_entry(s, rg));
        assert(keys_of(kept).no_duplicates());
        assert(forall|j: int| 0 <= j < kept.len() ==> (#[trigger] kept[j]).0 != rg);
        if self.entries.len() >= LRU_CAPACITY {
            self.entries.pop();
            assert(keys_of(self.entries@) =~= keys_of(kept).drop_last());
        }
        let ghost room = self.entries@;
        assert(room == room_for_one(kept));
        self.entries.insert(0, (rg, store));
        assert(self.entries@ =~= seq![(rg, store)] + room);
        proof {
            lemma_front_keys((rg, store), room);
        }
    }

    /// Where the entry of group `rg` is, or the number of entries.
    fn position(&self, rg: usize) -> (i: usize)
        requires
            self.wf(),
        ensures
            i <= self.items().len(),
            i < self.items().len() ==> key_pos(self.items(), rg) == Some(i as int) && self.items()[i as int].0 == rg,
            i == self.items().len() ==> key_pos(self.items(), rg) is None && forall|j: int|
                0 <= j < self.items().len() ==> (#[trigger] self.items()[j]).0 != rg,
    {
        let mut i: usize = 0;
        while i < self.entries.len()
            invariant
                i <= self.entries@.len(),
                forall|j: int| 0 <= j < i ==> (#[trigger] self.entries@[j]).0 != rg,
            decreases self.entries@.len() - i,
        {
            if self.entries[i].0 == rg {
                proof {
                    lemma_key_pos_at(self.entries@, rg, i as int);
                }
                return i;
            }
            i += 1;
        }
        proof {
            lemma_key_pos_none(self.entries@, rg);
        }
        i
    }
}

/// The first entry with the key gives its position.
proof fn lemma_key_pos_at(s: Seq<(usize, ColumnStore)>, rg: usize, i: int)
    requires
        0 <= i < s.len(),
        s[i].0 == rg,
        forall|j: int| 0 <= j < i ==> (#[trigger] s[j]).0 != rg,
    ensures
        key_pos(s, rg) == Some(i),
    decreases i,
{
    if i > 0 {
        assert(s[0].0 != rg);
        assert forall|j: int| 0 <= j < i - 1 implies (#[trigger] s.drop_first()[j]).0 != rg by {
            assert(s.drop_first()[j] == s[j + 1]);
        }
        lemma_key_pos_at(s.drop_first(), rg, i - 1);
    }
}

/// Without an entry with the key, there is no position.
proof fn lemma_key_pos_none(s: Seq<(usize, ColumnStore)>, rg: usize)
    requires
        forall|j: int| 0 <= j < s.len() ==> (#[trigger] s[j]).0 != rg,
    ensures
        key_pos(s, rg) is None,
    decreases s.len(),
{
    if s.len() > 0 {
        assert(s[0].0 != rg);
        assert forall|j: int| 0 <= j < s.len() - 1 implies (#[trigger] s.drop_first()[j]).0 != rg by {
            assert(s.drop_first()[j] == s[j + 1]);
        }
        lemma_key_pos_none(s.drop_first(), rg);
    }
}

/// Removing an entry keeps the keys distinct, and leaves none with the
/// removed key.
proof fn lemma_remove_keys(s: Seq<(usize, ColumnStore)>, p: int)
    requires
        0 <= p < s.len(),
        keys_of(s).no_duplicates(),
    ensures
        keys_of(s.remove(p)).no_duplicates(),
        forall|j: int| 0 <= j < s.remove(p).len() ==> (#[trigger] s.remove(p)[j]).0 != s[p].0,
{
    let t = s.remove(p);
    assert forall|j: int| 0 <= j < t.len() implies (#[trigger] t[j]).0 != s[p].0 by {
        if j < p {
            assert(t[j] == s[j]);
            assert(keys_of(s)[j] != keys_of(s)[p]);
        } else {
            assert(t[j] == s[j + 1]);
            assert(keys_of(s)[j + 1] != keys_of(s)[p]);
        }
    }
    assert forall|a: int, b: int| 0 <= a < keys_of(t).len() && 0 <= b < keys_of(t).len() && a != b implies keys_of(
        t,
    )[a] != keys_of(t)[b] by {
        let ia = if a < p { a } else { a + 1 };
        let ib = if b < p { b } else { b + 1 };
        assert(t[a] == s[ia]);
        assert(t[b] == s[ib]);
        assert(keys_of(s)[ia] != keys_of(s)[ib]);
    }
}

/// Putting an entry with a new key in front keeps the keys distinct.
proof fn lemma_front_keys(e: (usize, ColumnStore), t: Seq<(usize, ColumnStore)>)
    requires
        keys_of(t).no_duplicates(),
        forall|j: int| 0 <= j < t.len() ==> (#[trigger] t[j]).0 != e.0,
    ensures
        keys_of(seq![e] + t).no_duplicates(),
{
    let u = seq![e] + t;
    assert forall|a: int, b: int| 0 <= a < keys_of(u).len() && 0 <= b < keys_of(u).len() && a != b implies keys_of(
        u,
    )[a] != keys_of(u)[b] by {
        if a > 0 {
            assert(u[a] == t[a - 1]);
        }
        if b > 0 {
            assert(u[b] == t[b - 1]);
        }
        if a > 0 && b > 0 {
            assert(keys_of(t)[a - 1] != keys_of(t)[b - 1]);
        }
    }
}

} // verus!
