//! Reading ranges of ids from a ring's pages.
//!
//! A ring rotates into whichever page is free, so the order of its pages is not
//! the order of their ids. No two pages share an id, so ordering the pages by
//! their first ids orders everything on them.

use vstd::prelude::*;
use crate::wal_ring_v1;
use crate::wal_ring_v1::{RingView, WalRing};

verus! {

/// Where an id is: its page, and its position there.
#[derive(Debug, Clone, Copy, PartialEq, Eq, Structural)]
pub struct Position {
    pub id: u64,
    pub page: usize,
    pub index: usize,
}

/// Whether a position is where a ring holds its id.
pub open spec fn is_at(r: RingView, p: Position) -> bool {
    &&& p.page < r.pages.len()
    &&& r.pages[p.page as int].has(p.id as int)
    &&& p.index == p.id - r.pages[p.page as int].first
}

/// Whether an id is among positions.
pub open spec fn lists(ps: Seq<Position>, id: int) -> bool {
    exists|i: int| 0 <= i < ps.len() && (#[trigger] ps[i]).id == id
}

/// Positions in id order.
pub open spec fn ordered(ps: Seq<Position>) -> bool {
    forall|i: int, j: int| 0 <= i < j < ps.len() ==> (#[trigger] ps[i]).id < (#[trigger] ps[j]).id
}

/// Whether positions are exactly those of the ids in `[start, end]` that a ring
/// holds, in id order.
pub open spec fn covers(r: RingView, ps: Seq<Position>, start: u64, end: u64) -> bool {
    &&& ordered(ps)
    &&& forall|i: int|
        0 <= i < ps.len() ==> is_at(r, #[trigger] ps[i]) && start <= ps[i].id <= end
    &&& forall|id: int| start <= id <= end && #[trigger] r.has(id) ==> lists(ps, id)
}

/// Whether records are exactly those with ids in `[start, end]` that a ring
/// holds, in id order.
pub open spec fn range_is(
    r: RingView,
    out: Seq<(u64, Seq<u8>)>,
    start: u64,
    end: u64,
) -> bool {
    &&& forall|i: int, j: int|
        0 <= i < j < out.len() ==> (#[trigger] out[i]).0 < (#[trigger] out[j]).0
    &&& forall|i: int|
        0 <= i < out.len() ==> start <= (#[trigger] out[i]).0 <= end && r.has(out[i].0 as int)
            && out[i].1 == r.record(out[i].0 as int)
    &&& forall|id: int|
        start <= id <= end && #[trigger] r.has(id) ==> exists|i: int|
            0 <= i < out.len() && (#[trigger] out[i]).0 == id
}

/// Records by their views.
pub open spec fn views(out: Seq<(u64, Vec<u8>)>) -> Seq<(u64, Seq<u8>)> {
    Seq::new(out.len(), |i: int| (out[i].0, out[i].1@))
}

/// Whether pages hold entries and are in the order of their ids.
pub open spec fn in_page_order(r: RingView, order: Seq<usize>) -> bool {
    &&& forall|i: int|
        0 <= i < order.len() ==> (#[trigger] order[i]) < r.pages.len()
            && !r.pages[order[i] as int].is_empty()
    &&& forall|i: int, j: int|
        0 <= i < j < order.len() ==> r.pages[(#[trigger] order[i]) as int].end()
            <= r.pages[(#[trigger] order[j]) as int].first
}

impl WalRing {
    /// The pages that hold entries, in the order of their ids.
    #[verifier::rlimit(40)]
    pub(crate) fn pages_in_order(&self) -> (order: Vec<usize>)
        requires
            self.wf(),
        ensures
            in_page_order(self@, order@),
            forall|k: int|
                0 <= k < self@.pages.len() && !(#[trigger] self@.pages[k]).is_empty()
                    ==> order@.contains(k as usize),
    {
        let ghost r = self@;
        let n: usize = self.page_count();
        let mut order: Vec<usize> = Vec::new();
        let mut k: usize = 0;
        while k < n
            invariant
                self.wf(),
                r == self@,
                n == r.pages.len(),
                k <= n,
                in_page_order(r, order@),
                forall|i: int| 0 <= i < order@.len() ==> (#[trigger] order@[i]) < k,
                forall|j: int|
                    0 <= j < k && !(#[trigger] r.pages[j]).is_empty() ==> order@.contains(
                        j as usize,
                    ),
            decreases n - k,
        {
            if let Some(first) = self.page_first_entry_id(k) {
                let mut at: usize = 0;
                let mut going: bool = true;
                while going && at < order.len()
                    invariant
                        self.wf(),
                        r == self@,
                        k < r.pages.len(),
                        first == r.pages[k as int].first,
                        !r.pages[k as int].is_empty(),
                        at <= order@.len(),
                        in_page_order(r, order@),
                        forall|i: int| 0 <= i < order@.len() ==> (#[trigger] order@[i]) < k,
                        forall|i: int|
                            0 <= i < at ==> r.pages[(#[trigger] order@[i]) as int].end() <= first,
                        !going ==> at < order@.len() && r.pages[k as int].end()
                            <= r.pages[order@[at as int] as int].first,
                    decreases order@.len() - at + (if going {
                            1int
                        } else {
                            0int
                        }),
                {
                    let other: usize = order[at];
                    assert(r.apart(other as int, k as int)) by {
                        assert(order@[at as int] < k);
                    }
                    match self.page_first_entry_id(other) {
                        Some(f) => {
                            if f < first {
                                at = at + 1;
                            } else {
                                going = false;
                            }
                        },
                        None => {
                            going = false;
                        },
                    }
                }
                let ghost before = order@;
                order.insert(at, k);
                proof {
                    let after = order@;
                    assert forall|i: int, j: int| 0 <= i < j < after.len() implies r.pages[(
                    #[trigger] after[i]) as int].end() <= r.pages[(
                    #[trigger] after[j]) as int].first by {
                        if j == at {
                            assert(after[i] == before[i]);
                        } else if i == at {
                            assert(after[j] == before[j - 1]);
                            if j - 1 > at {
                                let p = before[at as int];
                                let q = before[j - 1];
                                assert(r.pages[p as int].end() <= r.pages[q as int].first);
                            }
                        } else {
                            let x = if i < at {
                                i
                            } else {
                                i - 1
                            };
                            let y = if j < at {
                                j
                            } else {
                                j - 1
                            };
                            assert(after[i] == before[x] && after[j] == before[y]);
                        }
                    }
                    assert forall|i: int| 0 <= i < after.len() implies (#[trigger] after[i]) < k
                        + 1 && !r.pages[after[i] as int].is_empty() by {
                        if i < at {
                            assert(after[i] == before[i]);
                        } else if i > at {
                            assert(after[i] == before[i - 1]);
                        }
                    }
                    assert forall|j: int|
                        0 <= j < k + 1 && !(
                        #[trigger] r.pages[j]).is_empty() implies after.contains(j as usize) by {
                        if j < k {
                            let i = choose|i: int| 0 <= i < before.len() && before[i] == j as usize;
                            if i < at {
                                assert(after[i] == j as usize);
                            } else {
                                assert(after[i + 1] == j as usize);
                            }
                        } else {
                            assert(after[at as int] == j as usize);
                        }
                    }
                }
            }
            k = k + 1;
        }
        order
    }

    /// Where the ids in `[start, end]` are, in id order.
    pub(crate) fn locate_range(&self, start: u64, end: u64) -> (out: Vec<Position>)
        requires
            self.wf(),
        ensures
            covers(self@, out@, start, end),
    {
        let ghost r = self@;
        let order = self.pages_in_order();
        let mut out: Vec<Position> = Vec::new();
        let mut t: usize = 0;
        while t < order.len()
            invariant
                self.wf(),
                r == self@,
                t <= order@.len(),
                in_page_order(r, order@),
                ordered(out@),
                forall|i: int|
                    0 <= i < out@.len() ==> is_at(r, #[trigger] out@[i]) && start <= out@[i].id
                        <= end,
                forall|i: int, u: int|
                    0 <= i < out@.len() && t <= u < order@.len() ==> (#[trigger] out@[i]).id
                        < r.pages[(#[trigger] order@[u]) as int].first,
                forall|u: int, id: int|
                    0 <= u < t && start <= id <= end && (#[trigger] r.pages[order@[u] as int].has(
                        id,
                    )) ==> lists(out@, id),
            decreases order@.len() - t,
        {
            let k: usize = order[t];
            let n: usize = self.page_len(k);
            let first: u64 = match self.page_first_entry_id(k) {
                Some(f) => f,
                None => 0,
            };
            let mut index: usize = 0;
            let ghost page = r.pages[k as int];
            let ghost earlier = out@;
            while index < n
                invariant
                    self.wf(),
                    r == self@,
                    k < r.pages.len(),
                    page == r.pages[k as int],
                    n == page.records.len(),
                    first == page.first,
                    page.end() <= u64::MAX,
                    index <= n,
                    ordered(out@),
                    forall|i: int|
                        0 <= i < out@.len() ==> is_at(r, #[trigger] out@[i]) && start <= out@[i].id
                            <= end && out@[i].id < first + index,
                    earlier.len() <= out@.len(),
                    forall|i: int| 0 <= i < earlier.len() ==> out@[i] == #[trigger] earlier[i],
                    forall|id: int|
                        first <= id < first + index && start <= id <= end ==> #[trigger] lists(
                            out@,
                            id,
                        ),
                decreases n - index,
            {
                let id: u64 = first + index as u64;
                let ghost before = out@;
                if start <= id && id <= end {
                    out.push(Position { id, page: k, index });
                    assert(out@[before.len() as int].id == id);
                }
                proof {
                    assert forall|x: int|
                        first <= x < first + index + 1 && start <= x
                            <= end implies #[trigger] lists(out@, x) by {
                        if x < first + index {
                            assert(lists(before, x));
                            let i = choose|i: int|
                                0 <= i < before.len() && (#[trigger] before[i]).id == x;
                            assert(out@[i].id == x);
                        }
                    }
                }
                index = index + 1;
            }
            proof {
                assert forall|u: int, id: int|
                    0 <= u < t + 1 && start <= id <= end && (
                    #[trigger] r.pages[order@[u] as int].has(id)) implies lists(out@, id) by {
                    if u < t {
                        assert(lists(earlier, id));
                        let i = choose|i: int|
                            0 <= i < earlier.len() && (#[trigger] earlier[i]).id == id;
                        assert(out@[i].id == id);
                    } else {
                        assert(order@[u] == k);
                    }
                }
            }
            t = t + 1;
        }
        proof {
            assert forall|id: int| start <= id <= end && #[trigger] r.has(id) implies lists(
                out@,
                id,
            ) by {
                let k = r.page_of(id);
                assert(r.pages[k].has(id));
                assert(order@.contains(k as usize));
                let u = choose|u: int| 0 <= u < order@.len() && order@[u] == k as usize;
                assert(r.pages[order@[u] as int].has(id));
            }
        }
        out
    }

    /// The records in memory with ids in `[start, end]`, in id order.
    pub fn collect_range(&self, start: u64, end: u64) -> (out: Vec<(u64, Vec<u8>)>)
        requires
            self.wf(),
        ensures
            range_is(self@, views(out@), start, end),
    {
        let ghost r = self@;
        let ps = self.locate_range(start, end);
        let mut out: Vec<(u64, Vec<u8>)> = Vec::new();
        let mut i: usize = 0;
        while i < ps.len()
            invariant
                self.wf(),
                r == self@,
                covers(r, ps@, start, end),
                i <= ps@.len(),
                out@.len() == i,
                forall|j: int|
                    0 <= j < i ==> (#[trigger] out@[j]).0 == ps@[j].id && out@[j].1@ == r.record(
                        ps@[j].id as int,
                    ),
            decreases ps@.len() - i,
        {
            let p = ps[i];
            assert(is_at(r, ps@[i as int]));
            proof {
                wal_ring_v1::lemma_record_at(r, p.id as int, p.page as int);
            }
            let record = match self.record(p.page, p.index) {
                Some(b) => vstd::slice::slice_to_vec(b),
                None => Vec::new(),
            };
            out.push((p.id, record));
            i = i + 1;
        }
        proof {
            lemma_covers_range(r, ps@, views(out@), start, end);
        }
        out
    }
}

/// Records read from where a range's ids are make up the range.
pub proof fn lemma_covers_range(
    r: RingView,
    ps: Seq<Position>,
    out: Seq<(u64, Seq<u8>)>,
    start: u64,
    end: u64,
)
    requires
        r.wf(),
        covers(r, ps, start, end),
        out.len() == ps.len(),
        forall|j: int|
            0 <= j < out.len() ==> #[trigger] out[j] == (ps[j].id, r.record(ps[j].id as int)),
    ensures
        range_is(r, out, start, end),
{
    assert forall|i: int| 0 <= i < out.len() implies start <= (#[trigger] out[i]).0 <= end && r.has(
        out[i].0 as int,
    ) && out[i].1 == r.record(out[i].0 as int) by {
        assert(is_at(r, ps[i]));
        wal_ring_v1::lemma_record_at(r, ps[i].id as int, ps[i].page as int);
    }
    assert forall|i: int, j: int| 0 <= i < j < out.len() implies (#[trigger] out[i]).0 < (
    #[trigger] out[j]).0 by {
        assert(ps[i].id < ps[j].id);
    }
    assert forall|id: int| start <= id <= end && #[trigger] r.has(id) implies exists|i: int|
        0 <= i < out.len() && (#[trigger] out[i]).0 == id by {
        assert(lists(ps, id));
        let i = choose|i: int| 0 <= i < ps.len() && (#[trigger] ps[i]).id == id;
        assert(out[i].0 == id);
    }
}

} // verus!
