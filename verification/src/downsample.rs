//! A downsampled view of a trace: one row per entry of a map of store rows
//! (for instance the rows where each instruction starts), read through the
//! full-resolution store beneath.
use vstd::prelude::*;

use crate::column_store::{ColumnStore, TableView};

verus! {

/// Whether the rows of a map ascend strictly and stay below `n`.
pub open spec fn ascending_below(m: Seq<usize>, n: int) -> bool {
    &&& forall|k: int| 0 <= k < m.len() ==> #[trigger] m[k] < n
    &&& forall|i: int, j: int| 0 <= i < j < m.len() ==> #[trigger] m[i] < #[trigger] m[j]
}

/// The last position among the first `n` of a map whose row is at most
/// `raw`: the downsampled row a store row belongs to.
pub open spec fn last_at_most(m: Seq<usize>, raw: int, n: int) -> Option<int>
    decreases n,
{
    if n <= 0 {
        None
    } else if m[n - 1] <= raw {
        Some(n - 1)
    } else {
        last_at_most(m, raw, n - 1)
    }
}

proof fn lemma_last_at_most(m: Seq<usize>, raw: int, n: int, ub: int)
    requires
        0 <= ub <= n <= m.len(),
        forall|k: int| 0 <= k < ub ==> #[trigger] m[k] <= raw,
        forall|k: int| ub <= k < m.len() ==> #[trigger] m[k] > raw,
    ensures
        last_at_most(m, raw, n) == (if ub == 0 {
            None
        } else {
            Some(ub - 1)
        }),
    decreases n,
{
    if n > ub {
        lemma_last_at_most(m, raw, n - 1, ub);
    }
}

/// A downsampled view of a store.
pub struct DownsampledStore<'a> {
    inner: &'a ColumnStore,
    map: Vec<usize>,
}

impl<'a> DownsampledStore<'a> {
    /// The store beneath.
    pub closed spec fn inner_store(&self) -> ColumnStore {
        *self.inner
    }

    /// The store row of each downsampled row.
    pub closed spec fn map_view(&self) -> Seq<usize> {
        self.map@
    }

    /// The view's invariant: the map's rows ascend and lie in the store.
    pub open spec fn wf(&self) -> bool {
        ascending_below(self.map_view(), self.inner_store().table().rows as int)
    }

    /// The view of `inner` through `map`.
    pub fn from_map(inner: &'a ColumnStore, map: Vec<usize>) -> (r: Self)
        ensures
            r.inner_store() == *inner,
            r.map_view() == map@,
    {
        DownsampledStore { inner, map }
    }

    /// The store beneath.
    pub fn inner(&self) -> (r: &'a ColumnStore)
        ensures
            *r == self.inner_store(),
    {
        self.inner
    }

    /// The number of downsampled rows.
    pub fn entry_count(&self) -> (r: usize)
        ensures
            r == self.map_view().len(),
            self.map_view().len() <= usize::MAX,
    {
        self.map.len()
    }

    /// The store row of downsampled row `i`.
    pub fn original_index(&self, i: usize) -> (r: Option<usize>)
        ensures
            r == (if i < self.map_view().len() {
                Some(self.map_view()[i as int])
            } else {
                None
            }),
    {
        if i < self.map.len() {
            Some(self.map[i])
        } else {
            None
        }
    }

    /// The downsampled row that store row `raw` belongs to: the last whose
    /// store row is at most `raw`; none before the first.
    pub fn downsampled_index(&self, raw: usize) -> (r: Option<usize>)
        requires
            self.wf(),
        ensures
            self.map_view().len() <= usize::MAX,
            match last_at_most(self.map_view(), raw as int, self.map_view().len() as int) {
                Some(i) => 0 <= i < self.map_view().len() && r == Some(i as usize),
                None => r is None,
            },
    {
        let m = &self.map;
        let mut lo: usize = 0;
        let mut hi: usize = m.len();
        while lo < hi
            invariant
                lo <= hi <= m@.len(),
                m@ == self.map_view(),
                ascending_below(m@, self.inner_store().table().rows as int),
                forall|k: int| 0 <= k < lo ==> #[trigger] m@[k] <= raw,
                forall|k: int| hi <= k < m@.len() ==> #[trigger] m@[k] > raw,
            decreases hi - lo,
        {
            let mid = lo + (hi - lo) / 2;
            if m[mid] <= raw {
                assert forall|k: int| 0 <= k < mid + 1 implies #[trigger] m@[k] <= raw by {
                    if k < mid {
                        assert(m@[k] < m@[mid as int]);
                    }
                }
                lo = mid + 1;
            } else {
                assert forall|k: int| mid <= k < m@.len() implies #[trigger] m@[k] > raw by {
                    if k > mid {
                        assert(m@[mid as int] < m@[k]);
                    }
                }
                hi = mid;
            }
        }
        proof {
            lemma_last_at_most(m@, raw as int, m@.len() as int, lo as int);
        }
        if lo == 0 {
            None
        } else {
            Some(lo - 1)
        }
    }
}

} // verus!
