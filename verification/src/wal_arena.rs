//! Who holds which page of the memory that queues share.
//!
//! The arena is a row of page slots. A queue holds a contiguous range of them,
//! grows into the free slot above its range, and gives its top slot back. A
//! slot has one owner, so no two queues hold the same page.

use vstd::prelude::*;

verus! {

/// The owner of a slot that nobody holds.
pub const POOL_FREE: u64 = 0xFFFF_FFFF_FFFF_FFFF;

/// A contiguous range of slots.
#[derive(Debug, Clone, Copy, PartialEq, Eq, Structural)]
pub struct SlotRange {
    pub first_slot: usize,
    pub page_count: usize,
}

/// The slots, their owners, and the names that the owners go by.
pub struct WalArena {
    page_size: usize,
    owners: Vec<u64>,
    labels: Vec<(u64, String)>,
}

/// The owner of each slot, the names of the owners, and the size of a page.
pub struct ArenaView {
    pub page_size: nat,
    pub owners: Seq<u64>,
    pub labels: Seq<(u64, Seq<char>)>,
}

/// A label's owner and name.
pub open spec fn label_view(l: (u64, String)) -> (u64, Seq<char>) {
    (l.0, l.1@)
}

impl ArenaView {
    /// Whether a range lies within the arena and belongs to `id`.
    pub open spec fn holds(self, first: int, count: int, id: u64) -> bool {
        &&& 0 <= first
        &&& 0 <= count
        &&& first + count <= self.owners.len()
        &&& forall|i: int| first <= i < first + count ==> #[trigger] self.owners[i] == id
    }

    /// The arena with a range given to `id`.
    pub open spec fn given(self, first: int, count: int, id: u64) -> ArenaView {
        ArenaView {
            owners: Seq::new(
                self.owners.len(),
                |i: int|
                    if first <= i < first + count {
                        id
                    } else {
                        self.owners[i]
                    },
            ),
            ..self
        }
    }

    /// How many of the first `n` slots belong to `id`.
    pub open spec fn held_below(self, id: u64, n: int) -> int
        decreases n,
    {
        if n <= 0 {
            0
        } else {
            self.held_below(id, n - 1) + (if self.owners[n - 1] == id {
                1int
            } else {
                0int
            })
        }
    }

    /// How many slots belong to `id`.
    pub open spec fn held(self, id: u64) -> int {
        self.held_below(id, self.owners.len() as int)
    }

    /// The arena without a ring's label.
    pub open spec fn without_label(self, ring_id: u64) -> ArenaView {
        ArenaView { labels: self.labels.filter(not_of(ring_id)), ..self }
    }

    /// The names of the first `n` labels whose owners hold slots, and how many
    /// they hold.
    pub open spec fn holders_below(self, n: int) -> Seq<(Seq<char>, int)>
        decreases n,
    {
        if n <= 0 {
            Seq::empty()
        } else {
            let (id, name) = self.labels[n - 1];
            if self.held(id) > 0 {
                self.holders_below(n - 1).push((name, self.held(id)))
            } else {
                self.holders_below(n - 1)
            }
        }
    }
}

/// Whether a label is not that of a ring.
pub open spec fn not_of(ring_id: u64) -> spec_fn((u64, Seq<char>)) -> bool {
    |l: (u64, Seq<char>)| l.0 != ring_id
}

impl View for WalArena {
    type V = ArenaView;

    closed spec fn view(&self) -> ArenaView {
        ArenaView {
            page_size: self.page_size as nat,
            owners: self.owners@,
            labels: self.labels@.map_values(|l: (u64, String)| label_view(l)),
        }
    }
}

impl WalArena {
    /// An arena of free slots.
    pub fn new(page_count: usize, page_size: usize) -> (res: WalArena)
        ensures
            res@.page_size == page_size,
            res@.owners.len() == page_count,
            res@.holds(0, page_count as int, POOL_FREE),
            res@.labels == Seq::<(u64, Seq<char>)>::empty(),
    {
        let mut owners: Vec<u64> = Vec::new();
        while owners.len() < page_count
            invariant
                owners@.len() <= page_count,
                forall|i: int| 0 <= i < owners@.len() ==> #[trigger] owners@[i] == POOL_FREE,
            decreases page_count - owners.len(),
        {
            owners.push(POOL_FREE);
        }
        WalArena { page_size, owners, labels: Vec::new() }
    }

    pub fn page_count(&self) -> (res: usize)
        ensures
            res == self@.owners.len(),
    {
        self.owners.len()
    }

    pub fn page_size(&self) -> (res: usize)
        ensures
            res == self@.page_size,
    {
        self.page_size
    }

    /// Who holds a slot.
    pub fn owner_at(&self, slot: usize) -> (res: u64)
        requires
            slot < self@.owners.len(),
        ensures
            res == self@.owners[slot as int],
    {
        self.owners[slot]
    }

    fn count_held(&self, id: u64) -> (res: usize)
        ensures
            res == self@.held(id),
    {
        let mut n: usize = 0;
        let mut i: usize = 0;
        while i < self.owners.len()
            invariant
                i <= self.owners@.len(),
                n == self@.held_below(id, i as int),
                n <= i,
            decreases self.owners@.len() - i,
        {
            if self.owners[i] == id {
                n = n + 1;
            }
            i = i + 1;
        }
        n
    }

    /// How many slots nobody holds.
    pub fn free_pages(&self) -> (res: usize)
        ensures
            res == self@.held(POOL_FREE),
    {
        self.count_held(POOL_FREE)
    }

    /// Who holds slots, and how many.
    pub fn holders(&self) -> (res: Vec<(String, usize)>)
        ensures
            ({
                let want = self@.holders_below(self@.labels.len() as int);
                &&& res@.len() == want.len()
                &&& forall|i: int|
                    0 <= i < res@.len() ==> (#[trigger] res@[i]).0@ == want[i].0 && res@[i].1
                        == want[i].1
            }),
    {
        let mut out: Vec<(String, usize)> = Vec::new();
        let mut i: usize = 0;
        while i < self.labels.len()
            invariant
                i <= self.labels@.len(),
                ({
                    let want = self@.holders_below(i as int);
                    &&& out@.len() == want.len()
                    &&& forall|j: int|
                        0 <= j < out@.len() ==> (#[trigger] out@[j]).0@ == want[j].0 && out@[j].1
                            == want[j].1
                }),
            decreases self.labels@.len() - i,
        {
            let n: usize = self.count_held(self.labels[i].0);
            assert(self@.labels[i as int] == label_view(self.labels@[i as int]));
            if n > 0 {
                out.push((self.labels[i].1.clone(), n));
            }
            i = i + 1;
        }
        out
    }

    fn run_is_free(&self, first: usize, count: usize) -> (res: bool)
        requires
            first + count <= self@.owners.len(),
        ensures
            res == self@.holds(first as int, count as int, POOL_FREE),
    {
        let total: usize = self.owners.len();
        let mut i: usize = 0;
        while i < count
            invariant
                i <= count,
                total == self.owners@.len(),
                first + count <= total,
                forall|j: int| first <= j < first + i ==> #[trigger] self.owners@[j] == POOL_FREE,
            decreases count - i,
        {
            if self.owners[first + i] != POOL_FREE {
                assert(self@.owners[first + i] != POOL_FREE);
                return false;
            }
            i = i + 1;
        }
        true
    }

    fn set_run(&mut self, first: usize, count: usize, id: u64)
        requires
            first + count <= old(self)@.owners.len(),
        ensures
            final(self)@ == old(self)@.given(first as int, count as int, id),
            final(self).labels == old(self).labels,
    {
        let ghost before = self@;
        let total: usize = self.owners.len();
        let mut i: usize = 0;
        assert(self.owners@ =~= before.given(first as int, 0, id).owners);
        while i < count
            invariant
                i <= count,
                total == before.owners.len(),
                first + count <= total,
                self.owners@ == before.given(first as int, i as int, id).owners,
                self.page_size == before.page_size,
                self.labels == old(self).labels,
            decreases count - i,
        {
            self.owners.set(first + i, id);
            i = i + 1;
            assert(self.owners@ =~= before.given(first as int, i as int, id).owners);
        }
    }

    /// Gives `ring_id` the lowest free run of `page_count` slots, unless there
    /// is none.
    pub fn reserve(&mut self, ring_id: u64, label: &str, page_count: usize) -> (res: Option<
        SlotRange,
    >)
        ensures
            match res {
                Some(r) => {
                    &&& r.page_count == page_count
                    &&& old(self)@.holds(r.first_slot as int, page_count as int, POOL_FREE)
                    &&& forall|k: int|
                        0 <= k < r.first_slot ==> !(#[trigger] old(self)@.holds(
                            k,
                            page_count as int,
                            POOL_FREE,
                        ))
                    &&& final(self)@ == (ArenaView {
                        labels: old(self)@.labels.push((ring_id, label@)),
                        ..old(self)@.given(r.first_slot as int, page_count as int, ring_id)
                    })
                },
                None => {
                    &&& forall|k: int|
                        !(#[trigger] old(self)@.holds(k, page_count as int, POOL_FREE))
                    &&& final(self)@ == old(self)@
                },
            },
    {
        let total: usize = self.owners.len();
        if page_count > total {
            return None;
        }
        let mut first: usize = 0;
        while first <= total - page_count
            invariant
                page_count <= total,
                total == self.owners@.len(),
                first <= total - page_count + 1,
                self@ == old(self)@,
                forall|k: int|
                    0 <= k < first ==> !(#[trigger] self@.holds(k, page_count as int, POOL_FREE)),
            decreases total - page_count + 1 - first,
        {
            if self.run_is_free(first, page_count) {
                self.set_run(first, page_count, ring_id);
                self.labels.push((ring_id, String::from_str(label)));
                assert(self@.labels =~= old(self)@.labels.push((ring_id, label@)));
                return Some(SlotRange { first_slot: first, page_count });
            }
            if first == total - page_count {
                return None;
            }
            first = first + 1;
        }
        None
    }

    /// Gives `ring_id` a slot that nobody holds.
    pub fn take_slot(&mut self, slot: usize, ring_id: u64)
        requires
            slot < old(self)@.owners.len(),
            old(self)@.owners[slot as int] == POOL_FREE,
        ensures
            final(self)@ == old(self)@.given(slot as int, 1, ring_id),
    {
        self.set_run(slot, 1, ring_id);
    }

    /// Takes a slot back from `ring_id`.
    pub fn give_back_slot(&mut self, slot: usize, ring_id: u64)
        requires
            old(self)@.holds(slot as int, 1, ring_id),
        ensures
            final(self)@ == old(self)@.given(slot as int, 1, POOL_FREE),
    {
        self.set_run(slot, 1, POOL_FREE);
    }

    /// Takes a range back from `ring_id`.
    pub fn release(&mut self, range: SlotRange, ring_id: u64)
        requires
            old(self)@.holds(range.first_slot as int, range.page_count as int, ring_id),
        ensures
            final(self)@ == old(self)@.given(
                range.first_slot as int,
                range.page_count as int,
                POOL_FREE,
            ),
    {
        self.set_run(range.first_slot, range.page_count, POOL_FREE);
    }

    /// Forgets the names that `ring_id` goes by.
    pub fn forget_label(&mut self, ring_id: u64)
        ensures
            final(self)@ == old(self)@.without_label(ring_id),
    {
        let ghost keep = not_of(ring_id);
        let ghost before = self@.labels;
        let mut kept: Vec<(u64, String)> = Vec::new();
        let mut i: usize = 0;
        assert(before.take(0) =~= Seq::<(u64, Seq<char>)>::empty());
        assert(Seq::<(u64, Seq<char>)>::empty().filter(keep) =~= Seq::<(u64, Seq<char>)>::empty())
            by {
            reveal(Seq::filter);
        }
        assert(kept@.map_values(|l: (u64, String)| label_view(l)) =~= before.take(0).filter(keep));
        while i < self.labels.len()
            invariant
                i <= self.labels@.len(),
                self@ == old(self)@,
                before == self@.labels,
                keep == not_of(ring_id),
                kept@.map_values(|l: (u64, String)| label_view(l)) == before.take(i as int).filter(
                    keep,
                ),
            decreases self.labels@.len() - i,
        {
            proof {
                reveal(Seq::filter);
                assert(before.take(i + 1).drop_last() =~= before.take(i as int));
                assert(before.take(i + 1).last() == label_view(self.labels@[i as int]));
            }
            if self.labels[i].0 != ring_id {
                let ghost was = kept@;
                kept.push((self.labels[i].0, self.labels[i].1.clone()));
                assert(kept@.map_values(|l: (u64, String)| label_view(l)) =~= was.map_values(
                    |l: (u64, String)| label_view(l),
                ).push(label_view(self.labels@[i as int])));
            }
            i = i + 1;
        }
        assert(before.take(i as int) =~= before);
        self.labels = kept;
    }
}

} // verus!
