//! A ring of pages that hold a queue's newest entries in memory.
//!
//! Records are appended to the active page. When it is full the ring rotates:
//! it discards a page that may be written over, and makes it active. A page
//! may be written over only when no reader has it pinned and everything on it
//! is below the essential id -- that is, on disk -- so a record that was
//! accepted stays in memory until it is safe elsewhere.

use vstd::prelude::*;
use crate::wal_arena::{ArenaView, SlotRange, WalArena, POOL_FREE};
use crate::wal_entry_v1;
use crate::wal_file;
use crate::wal_page;
use crate::wal_page::{PageView, WalPage, PAGE_ENTRY_SLOT};

verus! {

/// The smallest page a ring can have: it holds one empty record.
pub const MIN_PAGE_SIZE: usize = 9;

/// What became of an append.
#[derive(Debug, Clone, Copy, PartialEq, Eq, Structural)]
pub enum AppendOutcome {
    /// The record is in a page, under this id.
    Cached(u64),
    /// The record does not fit any page.
    TooLarge,
    /// Every page is pinned or holds records that are not on disk.
    Full,
}

/// What a ring holds.
pub struct RingView {
    pub pages: Seq<PageView>,
    pub page_size: nat,
    pub active: int,
    pub next: u64,
    pub next_page_id: u64,
    pub essential: u64,
    pub evicted: Option<u64>,
    pub ring_id: u64,
    pub first_slot: Option<nat>,
}

/// The larger of an optional id and an id.
pub open spec fn raised(a: Option<u64>, b: u64) -> Option<u64> {
    match a {
        Some(v) => Some(
            if v < b {
                b
            } else {
                v
            },
        ),
        None => Some(b),
    }
}

/// Counts a rotation.
pub open spec fn next_count(n: u64) -> u64 {
    if n == u64::MAX {
        0
    } else {
        (n + 1) as u64
    }
}

/// Whether a record fits an empty page of `page_size` bytes.
pub open spec fn fits_page(record_len: nat, page_size: nat) -> bool {
    &&& record_len <= u32::MAX
    &&& crate::varint::varint(record_len).len() + record_len + 4 + 4 <= page_size
}

impl RingView {
    /// The runs of ids on two pages do not overlap.
    pub open spec fn apart(self, j: int, k: int) -> bool {
        ||| self.pages[j].end() <= self.pages[k].first
        ||| self.pages[k].end() <= self.pages[j].first
    }

    /// Ids are dense on each page, no two pages share one, and the active page
    /// holds the newest.
    pub open spec fn wf(self) -> bool {
        &&& 0 <= self.active < self.pages.len() <= usize::MAX
        &&& MIN_PAGE_SIZE <= self.page_size <= u32::MAX
        &&& forall|k: int| 0 <= k < self.pages.len() ==> (#[trigger] self.pages[k]).wf(
            self.page_size,
        )
        &&& self.pages[self.active].end() == self.next
        &&& forall|k: int|
            0 <= k < self.pages.len() && k != self.active && !(#[trigger] self.pages[k]).is_empty()
                ==> self.pages[k].end() <= self.pages[self.active].first
        &&& forall|j: int, k: int|
            #![trigger self.pages[j], self.pages[k]]
            0 <= j < self.pages.len() && 0 <= k < self.pages.len() && j != k
                && !self.pages[j].is_empty() && !self.pages[k].is_empty() ==> self.apart(j, k)
        &&& self.first_slot matches Some(s) ==> s + self.pages.len() <= usize::MAX
    }

    /// Whether a page may be written over.
    pub open spec fn reusable(self, k: int) -> bool {
        self.pages[k].reusable(self.essential)
    }

    /// Whether a page is the one to rotate into: the first empty one, or else
    /// the one with the oldest entries, among those that may be written over.
    pub open spec fn is_target(self, k: int) -> bool {
        &&& 0 <= k < self.pages.len()
        &&& self.reusable(k)
        &&& if self.pages[k].is_empty() {
            forall|j: int|
                0 <= j < k ==> !(self.reusable(j) && (#[trigger] self.pages[j]).is_empty())
        } else {
            forall|j: int|
                0 <= j < self.pages.len() && self.reusable(j) ==> !(
                #[trigger] self.pages[j]).is_empty() && self.pages[k].first <= self.pages[j].first
        }
    }

    /// The page to rotate into, if there is one.
    pub open spec fn target(self) -> Option<int> {
        if exists|k: int| self.is_target(k) {
            Some(choose|k: int| self.is_target(k))
        } else {
            None
        }
    }

    /// The highest evicted id, once page `k` is discarded too.
    pub open spec fn evicting(self, k: int) -> Option<u64> {
        if self.pages[k].is_empty() {
            self.evicted
        } else {
            raised(self.evicted, (self.pages[k].end() - 1) as u64)
        }
    }

    /// Page `k` discarded and made active.
    pub open spec fn rotated(self, k: int) -> RingView {
        RingView {
            pages: self.pages.update(
                k,
                wal_page::empty_page(self.next_page_id, self.next, 0),
            ),
            active: k,
            next_page_id: next_count(self.next_page_id),
            evicted: self.evicting(k),
            ..self
        }
    }

    /// A record put behind the newest.
    pub open spec fn pushed(self, record: Seq<u8>) -> RingView {
        RingView {
            pages: self.pages.update(self.active, self.pages[self.active].pushed(record)),
            next: (self.next + 1) as u64,
            ..self
        }
    }

    /// Whether an append finds no page to put its record on.
    pub open spec fn appended(self, record: Seq<u8>) -> (RingView, AppendOutcome) {
        if !fits_page(record.len(), self.page_size) {
            (self, AppendOutcome::TooLarge)
        } else if self.pages[self.active].has_room(
            wal_entry_v1::entry(record).len(),
            self.page_size,
        ) {
            (self.pushed(record), AppendOutcome::Cached(self.next))
        } else {
            match self.target() {
                None => (self, AppendOutcome::Full),
                Some(k) => (self.rotated(k).pushed(record), AppendOutcome::Cached(self.next)),
            }
        }
    }

    /// The empty active page moved one id up.
    pub open spec fn stepped(self) -> RingView {
        let p = self.pages[self.active];
        RingView {
            pages: self.pages.update(
                self.active,
                PageView { first: (p.first + 1) as u64, ..p },
            ),
            next: (self.next + 1) as u64,
            ..self
        }
    }

    /// One id skipped: it falls between two pages.
    pub open spec fn skipped(self) -> Option<RingView> {
        if self.pages[self.active].is_empty() {
            Some(self.stepped())
        } else {
            match self.target() {
                None => None,
                Some(k) => Some(self.rotated(k).stepped()),
            }
        }
    }

    /// Whether a page is the first that nothing pins.
    pub open spec fn is_first_free(self, k: int) -> bool {
        &&& 0 <= k < self.pages.len()
        &&& self.pages[k].pins == 0
        &&& forall|j: int| 0 <= j < k ==> (#[trigger] self.pages[j]).pins != 0
    }

    /// Every page emptied, with its pins kept, and numbering from `first`.
    pub open spec fn cleared(self, first: u64) -> RingView {
        let slot = match self.first_slot {
            Some(s) => s,
            None => 0,
        };
        RingView {
            pages: Seq::new(
                self.pages.len(),
                |k: int| wal_page::empty_page((slot + k) as u64, first, self.pages[k].pins),
            ),
            active: 0,
            next: first,
            next_page_id: self.pages.len() as u64,
            essential: 0,
            ..self
        }
    }

    /// The ring restarted empty from `first`, off any pinned page.
    pub open spec fn reinitialised(self, first: u64) -> Option<RingView> {
        if forall|k: int| 0 <= k < self.pages.len() ==> (#[trigger] self.pages[k]).pins != 0 {
            None
        } else if self.pages[0].pins == 0 {
            Some(self.cleared(first))
        } else {
            let k = choose|k: int| self.is_first_free(k);
            Some(self.cleared(first).rotated(k))
        }
    }

    /// Whether the ring holds this id.
    pub open spec fn has(self, id: int) -> bool {
        exists|k: int| 0 <= k < self.pages.len() && (#[trigger] self.pages[k]).has(id)
    }

    /// The page that holds this id.
    pub open spec fn page_of(self, id: int) -> int {
        choose|k: int| 0 <= k < self.pages.len() && (#[trigger] self.pages[k]).has(id)
    }

    /// The record with this id.
    pub open spec fn record(self, id: int) -> Seq<u8> {
        self.pages[self.page_of(id)].record(id)
    }

    pub open spec fn is_empty(self) -> bool {
        forall|k: int| 0 <= k < self.pages.len() ==> (#[trigger] self.pages[k]).is_empty()
    }

    /// Whether the ring's slots in an arena are its own.
    pub open spec fn backed_by(self, arena: ArenaView) -> bool {
        &&& self.first_slot is Some
        &&& self.ring_id != POOL_FREE
        &&& arena.page_size == self.page_size
        &&& arena.holds(self.first_slot->0 as int, self.pages.len() as int, self.ring_id)
    }

    /// Whether the slot above the ring's range is free.
    pub open spec fn can_grow(self, arena: ArenaView) -> bool {
        let slot = self.first_slot->0 + self.pages.len();
        slot < arena.owners.len() && arena.owners[slot as int] == POOL_FREE
    }

    /// The ring with an empty page more.
    pub open spec fn grown(self) -> RingView {
        let slot = self.first_slot->0 + self.pages.len();
        RingView {
            pages: self.pages.push(wal_page::empty_page(slot as u64, self.next, 0)),
            ..self
        }
    }

    /// Whether the ring may give up its top page.
    pub open spec fn can_shrink(self, floor: nat) -> bool {
        let top = self.pages.len() - 1;
        &&& self.pages.len() > floor
        &&& self.pages.len() > 1
        &&& self.active < top
        &&& self.reusable(top)
    }

    /// The ring without its top page.
    pub open spec fn shrunk(self) -> RingView {
        let top = self.pages.len() - 1;
        RingView { pages: self.pages.drop_last(), evicted: self.evicting(top), ..self }
    }
}

/// There is at most one page to rotate into.
pub proof fn lemma_target_unique(r: RingView, a: int, b: int)
    requires
        r.wf(),
        r.is_target(a),
        r.is_target(b),
    ensures
        a == b,
{
    if a != b {
        if r.pages[a].is_empty() && r.pages[b].is_empty() {
        } else if !r.pages[a].is_empty() && !r.pages[b].is_empty() {
            assert(r.apart(a, b));
        } else {
        }
    }
}

proof fn lemma_first_free_unique(r: RingView, a: int, b: int)
    requires
        r.is_first_free(a),
        r.is_first_free(b),
    ensures
        a == b,
{
}

/// If a page is not pinned, there is a first that is not.
pub proof fn lemma_first_free_exists(r: RingView, j: int)
    requires
        0 <= j < r.pages.len(),
        r.pages[j].pins == 0,
    ensures
        exists|k: int| r.is_first_free(k),
    decreases j,
{
    if r.is_first_free(j) {
    } else {
        let i = choose|i: int| 0 <= i < j && (#[trigger] r.pages[i]).pins == 0;
        lemma_first_free_exists(r, i);
    }
}

/// Starting over leaves a well-formed ring.
pub proof fn lemma_reinitialised_wf(r: RingView, first: u64)
    requires
        r.wf(),
    ensures
        r.reinitialised(first) matches Some(s) ==> s.wf(),
{
    let c = r.cleared(first);
    assert(wal_file::packed(Seq::<Seq<u8>>::empty()).len() == 0);
    assert(c.wf());
    if r.reinitialised(first) is Some && r.pages[0].pins != 0 {
        let j = choose|j: int| 0 <= j < r.pages.len() && (#[trigger] r.pages[j]).pins == 0;
        lemma_first_free_exists(r, j);
        let k = choose|k: int| r.is_first_free(k);
        assert(r.is_first_free(k));
        lemma_rotated_wf(c, k);
    }
}

/// An id is on one page.
pub proof fn lemma_page_unique(r: RingView, id: int, j: int, k: int)
    requires
        r.wf(),
        0 <= j < r.pages.len(),
        0 <= k < r.pages.len(),
        r.pages[j].has(id),
        r.pages[k].has(id),
    ensures
        j == k,
{
    if j != k {
        assert(r.apart(j, k));
    }
}

/// Where a ring holds an id, its record is the one there.
pub proof fn lemma_record_at(r: RingView, id: int, k: int)
    requires
        r.wf(),
        0 <= k < r.pages.len(),
        r.pages[k].has(id),
    ensures
        r.has(id),
        r.page_of(id) == k,
        r.record(id) == r.pages[k].record(id),
{
    lemma_page_unique(r, id, r.page_of(id), k);
}

/// Discarding a page that may be written over leaves a well-formed ring.
pub proof fn lemma_rotated_wf(r: RingView, k: int)
    requires
        r.wf(),
        0 <= k < r.pages.len(),
        r.reusable(k),
    ensures
        r.rotated(k).wf(),
        r.rotated(k).pages[k].is_empty(),
{
    let s = r.rotated(k);
    assert(wal_file::packed(Seq::<Seq<u8>>::empty()).len() == 0);
    assert forall|j: int| 0 <= j < s.pages.len() implies (#[trigger] s.pages[j]).wf(
        s.page_size,
    ) by {
        if j != k {
            assert(s.pages[j] == r.pages[j]);
        }
    }
    assert forall|j: int|
        0 <= j < s.pages.len() && j != s.active && !(
        #[trigger] s.pages[j]).is_empty() implies s.pages[j].end() <= s.pages[s.active].first by {
        assert(s.pages[j] == r.pages[j]);
        if j != r.active {
            assert(r.pages[j].end() <= r.pages[r.active].first);
        }
    }
    assert forall|i: int, j: int|
        #![trigger s.pages[i], s.pages[j]]
        0 <= i < s.pages.len() && 0 <= j < s.pages.len() && i != j && !s.pages[i].is_empty()
            && !s.pages[j].is_empty() implies s.apart(i, j) by {
        assert(s.pages[i] == r.pages[i]);
        assert(s.pages[j] == r.pages[j]);
        assert(r.apart(i, j));
    }
}

/// Putting a record that fits on the active page leaves a well-formed ring.
pub proof fn lemma_pushed_wf(r: RingView, record: Seq<u8>)
    requires
        r.wf(),
        record.len() <= u32::MAX,
        r.pages[r.active].has_room(wal_entry_v1::entry(record).len(), r.page_size),
        r.next < u64::MAX,
    ensures
        r.pushed(record).wf(),
{
    let s = r.pushed(record);
    let p = r.pages[r.active];
    wal_page::lemma_packed_push(p.records, record);
    assert forall|j: int| 0 <= j < s.pages.len() implies (#[trigger] s.pages[j]).wf(
        s.page_size,
    ) by {
        if j != r.active {
            assert(s.pages[j] == r.pages[j]);
        } else {
            assert(wal_file::writable(p.records.push(record)));
        }
    }
    assert forall|j: int|
        0 <= j < s.pages.len() && j != s.active && !(
        #[trigger] s.pages[j]).is_empty() implies s.pages[j].end() <= s.pages[s.active].first by {
        assert(s.pages[j] == r.pages[j]);
    }
    assert forall|i: int, j: int|
        #![trigger s.pages[i], s.pages[j]]
        0 <= i < s.pages.len() && 0 <= j < s.pages.len() && i != j && !s.pages[i].is_empty()
            && !s.pages[j].is_empty() implies s.apart(i, j) by {
        if i != r.active && j != r.active {
            assert(s.pages[i] == r.pages[i]);
            assert(s.pages[j] == r.pages[j]);
            assert(r.apart(i, j));
        } else if i == r.active {
            assert(s.pages[j] == r.pages[j]);
        } else {
            assert(s.pages[i] == r.pages[i]);
        }
    }
}

/// Moving the empty active page up leaves a well-formed ring.
pub proof fn lemma_stepped_wf(r: RingView)
    requires
        r.wf(),
        r.pages[r.active].is_empty(),
        r.next < u64::MAX,
    ensures
        r.stepped().wf(),
{
    let s = r.stepped();
    assert forall|j: int| 0 <= j < s.pages.len() implies (#[trigger] s.pages[j]).wf(
        s.page_size,
    ) by {
        if j != r.active {
            assert(s.pages[j] == r.pages[j]);
        } else {
            assert(r.pages[r.active].wf(r.page_size));
        }
    }
    assert forall|j: int|
        0 <= j < s.pages.len() && j != s.active && !(
        #[trigger] s.pages[j]).is_empty() implies s.pages[j].end() <= s.pages[s.active].first by {
        assert(s.pages[j] == r.pages[j]);
    }
    assert forall|i: int, j: int|
        #![trigger s.pages[i], s.pages[j]]
        0 <= i < s.pages.len() && 0 <= j < s.pages.len() && i != j && !s.pages[i].is_empty()
            && !s.pages[j].is_empty() implies s.apart(i, j) by {
        assert(s.pages[i] == r.pages[i]);
        assert(s.pages[j] == r.pages[j]);
        assert(r.apart(i, j));
    }
}

pub proof fn lemma_empty_room(r: RingView, record: Seq<u8>, k: int)
    requires
        r.wf(),
        fits_page(record.len(), r.page_size),
        0 <= k < r.pages.len(),
        r.pages[k].is_empty(),
    ensures
        r.pages[k].has_room(wal_entry_v1::entry(record).len(), r.page_size),
{
    wal_entry_v1::lemma_entry_len(record);
    assert(r.pages[k].records =~= Seq::<Seq<u8>>::empty());
    assert(wal_file::packed(Seq::<Seq<u8>>::empty()).len() == 0);
}

/// Appending leaves a well-formed ring.
pub proof fn lemma_appended_wf(r: RingView, record: Seq<u8>)
    requires
        r.wf(),
        r.next < u64::MAX,
    ensures
        r.appended(record).0.wf(),
{
    if fits_page(record.len(), r.page_size) {
        if r.pages[r.active].has_room(wal_entry_v1::entry(record).len(), r.page_size) {
            lemma_pushed_wf(r, record);
        } else if let Some(k) = r.target() {
            assert(r.is_target(k));
            lemma_rotated_wf(r, k);
            lemma_empty_room(r.rotated(k), record, k);
            lemma_pushed_wf(r.rotated(k), record);
        }
    }
}

/// A ring of pages.
pub struct WalRing {
    pages: Vec<WalPage>,
    page_size: usize,
    active: usize,
    next_entry_id: u64,
    next_page_id: u64,
    min_essential_id: u64,
    evicted_below: Option<u64>,
    ring_id: u64,
    first_slot: Option<usize>,
}

impl View for WalRing {
    type V = RingView;

    closed spec fn view(&self) -> RingView {
        RingView {
            pages: Seq::new(self.pages@.len(), |k: int| self.pages@[k]@),
            page_size: self.page_size as nat,
            active: self.active as int,
            next: self.next_entry_id,
            next_page_id: self.next_page_id,
            essential: self.min_essential_id,
            evicted: self.evicted_below,
            ring_id: self.ring_id,
            first_slot: match self.first_slot {
                Some(s) => Some(s as nat),
                None => None,
            },
        }
    }
}

/// A new ring's pages: all empty.
pub open spec fn fresh(
    page_count: nat,
    page_size: nat,
    first: u64,
    ring_id: u64,
    first_slot: Option<nat>,
) -> RingView {
    let slot = match first_slot {
        Some(s) => s,
        None => 0,
    };
    RingView {
        pages: Seq::new(page_count, |k: int| wal_page::empty_page((slot + k) as u64, first, 0)),
        page_size,
        active: 0,
        next: first,
        next_page_id: page_count as u64,
        essential: 0,
        evicted: None,
        ring_id,
        first_slot,
    }
}

impl WalRing {
    /// Every page's bytes are those of its records.
    pub closed spec fn framed(&self) -> bool {
        forall|k: int| 0 <= k < self.pages@.len() ==> (#[trigger] self.pages@[k]).framed()
    }

    pub open spec fn wf(&self) -> bool {
        &&& self.framed()
        &&& self@.wf()
    }

    proof fn lemma_page(&self, k: int)
        requires
            self.wf(),
            0 <= k < self@.pages.len(),
        ensures
            self.pages@[k].wf(self@.page_size),
            self.pages@[k]@ == self@.pages[k],
            self@.pages.len() == self.pages@.len(),
    {
        assert(self.pages@[k].framed());
        assert(self@.pages[k].wf(self@.page_size));
    }

    fn build(
        page_count: usize,
        page_size: usize,
        first_entry_id: u64,
        ring_id: u64,
        first_slot: Option<usize>,
    ) -> (res: WalRing)
        requires
            page_count >= 1,
            MIN_PAGE_SIZE <= page_size <= u32::MAX,
            first_slot matches Some(s) ==> s + page_count <= usize::MAX,
        ensures
            res.wf(),
            res@ == fresh(
                page_count as nat,
                page_size as nat,
                first_entry_id,
                ring_id,
                match first_slot {
                    Some(s) => Some(s as nat),
                    None => None,
                },
            ),
    {
        let slot: usize = match first_slot {
            Some(s) => s,
            None => 0,
        };
        let mut pages: Vec<WalPage> = Vec::new();
        while pages.len() < page_count
            invariant
                pages@.len() <= page_count,
                slot + page_count <= usize::MAX,
                forall|k: int|
                    0 <= k < pages@.len() ==> (#[trigger] pages@[k]).framed() && pages@[k]@
                        == wal_page::empty_page((slot + k) as u64, first_entry_id, 0),
            decreases page_count - pages.len(),
        {
            let page = WalPage::init((slot + pages.len()) as u64, first_entry_id, 0);
            assert(page.wf(0));
            pages.push(page);
        }
        let res = WalRing {
            pages,
            page_size,
            active: 0,
            next_entry_id: first_entry_id,
            next_page_id: page_count as u64,
            min_essential_id: 0,
            evicted_below: None,
            ring_id,
            first_slot,
        };
        proof {
            assert(wal_file::packed(Seq::<Seq<u8>>::empty()).len() == 0);
            let want = fresh(
                page_count as nat,
                page_size as nat,
                first_entry_id,
                ring_id,
                match first_slot {
                    Some(s) => Some(s as nat),
                    None => None,
                },
            );
            assert(res@.pages =~= want.pages);
        }
        res
    }

    /// A ring of `page_count` pages of `page_size` bytes whose first id is
    /// `first_entry_id`. It keeps its pages for life.
    pub fn new(page_count: usize, page_size: usize, first_entry_id: u64) -> (res: WalRing)
        requires
            page_count >= 1,
            MIN_PAGE_SIZE <= page_size <= u32::MAX,
            page_count * page_size <= usize::MAX,
        ensures
            res.wf(),
            res@ == fresh(page_count as nat, page_size as nat, first_entry_id, POOL_FREE, None),
    {
        WalRing::build(page_count, page_size, first_entry_id, POOL_FREE, None)
    }

    /// A ring over the slots that an arena has reserved for `ring_id`. It can
    /// trade pages with the arena.
    pub fn in_arena(arena: &WalArena, range: SlotRange, ring_id: u64, first_entry_id: u64) -> (res:
        WalRing)
        requires
            range.page_count >= 1,
            MIN_PAGE_SIZE <= arena@.page_size <= u32::MAX,
            ring_id != POOL_FREE,
            arena@.holds(range.first_slot as int, range.page_count as int, ring_id),
            arena@.owners.len() <= usize::MAX,
        ensures
            res.wf(),
            res@ == fresh(
                range.page_count as nat,
                arena@.page_size,
                first_entry_id,
                ring_id,
                Some(range.first_slot as nat),
            ),
            res@.backed_by(arena@),
    {
        WalRing::build(
            range.page_count,
            arena.page_size(),
            first_entry_id,
            ring_id,
            Some(range.first_slot),
        )
    }

    /// The page to rotate into: the first empty one, or else the one with the
    /// oldest entries, so that what stays in memory ends at the newest.
    fn oldest_reclaimable_page(&self) -> (res: Option<usize>)
        requires
            self.wf(),
        ensures
            match res {
                Some(k) => self@.target() == Some(k as int) && self@.is_target(k as int),
                None => self@.target() is None,
            },
    {
        let ghost r = self@;
        let mut empty: Option<usize> = None;
        let mut oldest: Option<usize> = None;
        let mut k: usize = 0;
        while k < self.pages.len()
            invariant
                self.wf(),
                r == self@,
                k <= self.pages@.len(),
                self.pages@.len() == r.pages.len(),
                match empty {
                    Some(e) => e < k && r.reusable(e as int) && r.pages[e as int].is_empty()
                        && forall|j: int|
                        0 <= j < e ==> !(r.reusable(j) && (#[trigger] r.pages[j]).is_empty()),
                    None => forall|j: int|
                        0 <= j < k ==> !(r.reusable(j) && (#[trigger] r.pages[j]).is_empty()),
                },
                match oldest {
                    Some(o) => o < k && r.reusable(o as int) && !r.pages[o as int].is_empty()
                        && forall|j: int|
                        0 <= j < k && r.reusable(j) && !(#[trigger] r.pages[j]).is_empty()
                            ==> r.pages[o as int].first <= r.pages[j].first,
                    None => forall|j: int|
                        0 <= j < k ==> !(r.reusable(j) && !(#[trigger] r.pages[j]).is_empty()),
                },
            decreases self.pages@.len() - k,
        {
            proof {
                self.lemma_page(k as int);
            }
            if self.pages[k].reusable(self.min_essential_id, Ghost(r.page_size)) {
                if self.pages[k].is_empty() {
                    if empty.is_none() {
                        empty = Some(k);
                    }
                } else {
                    match oldest {
                        Some(o) => {
                            proof {
                                self.lemma_page(o as int);
                            }
                            if self.pages[k].first_entry_id() < self.pages[o].first_entry_id() {
                                oldest = Some(k);
                            }
                        },
                        None => {
                            oldest = Some(k);
                        },
                    }
                }
            }
            k = k + 1;
        }
        let res = match empty {
            Some(e) => Some(e),
            None => oldest,
        };
        proof {
            if let Some(t) = res {
                assert(r.is_target(t as int));
                lemma_target_unique(r, t as int, r.target()->0);
            } else {
                assert forall|j: int| !r.is_target(j) by {}
            }
        }
        res
    }

    /// Discards page `index` and makes it active.
    fn rotate_to(&mut self, index: usize)
        requires
            old(self).wf(),
            index < old(self)@.pages.len(),
            old(self)@.reusable(index as int),
        ensures
            final(self).wf(),
            final(self)@ == old(self)@.rotated(index as int),
    {
        let ghost before = self@;
        proof {
            self.lemma_page(index as int);
            lemma_rotated_wf(before, index as int);
        }
        if !self.pages[index].is_empty() {
            let last: u64 = self.pages[index].first_entry_id() + (self.pages[index].len() as u64
                - 1);
            self.evicted_below =
            match self.evicted_below {
                Some(e) => Some(
                    if e < last {
                        last
                    } else {
                        e
                    },
                ),
                None => Some(last),
            };
        }
        let page = WalPage::init(self.next_page_id, self.next_entry_id, 0);
        assert(page.wf(0));
        self.pages.set(index, page);
        self.active = index;
        self.next_page_id = self.next_page_id.wrapping_add(1);
        assert(self@.pages =~= before.rotated(index as int).pages);
    }

    fn push_active(&mut self, record: &[u8])
        requires
            old(self).wf(),
            record@.len() <= u32::MAX,
            old(self)@.pages[old(self)@.active].has_room(
                wal_entry_v1::entry(record@).len(),
                old(self)@.page_size,
            ),
            old(self)@.next < u64::MAX,
        ensures
            final(self).wf(),
            final(self)@ == old(self)@.pushed(record@),
    {
        let ghost before = self@;
        proof {
            self.lemma_page(self.active as int);
            lemma_pushed_wf(before, record@);
        }
        let k: usize = self.active;
        self.pages[k].append(record, Ghost(before.page_size));
        self.next_entry_id = self.next_entry_id + 1;
        assert(self@.pages =~= before.pushed(record@).pages);
    }

    /// Appends a record, rotating if the active page has no room for it.
    pub fn append(&mut self, record: &[u8]) -> (res: AppendOutcome)
        requires
            old(self).wf(),
            old(self)@.next < u64::MAX,
        ensures
            final(self).wf(),
            (final(self)@, res) == old(self)@.appended(record@),
    {
        let len: usize = record.len();
        if len > self.page_size {
            proof {
                crate::varint::lemma_varint_shape(len as nat);
            }
            return AppendOutcome::TooLarge;
        }
        let needed: u64 = crate::varint::encoded_len_u64(len as u64) as u64 + len as u64
            + wal_entry_v1::WAL_ENTRY_V1_CRC_SIZE as u64;
        if needed + PAGE_ENTRY_SLOT as u64 > self.page_size as u64 {
            return AppendOutcome::TooLarge;
        }
        let entry_len: usize = needed as usize;
        proof {
            wal_entry_v1::lemma_entry_len(record@);
            self.lemma_page(self.active as int);
        }
        let id: u64 = self.next_entry_id;
        if self.pages[self.active].has_room(entry_len, self.page_size) {
            self.push_active(record);
            return AppendOutcome::Cached(id);
        }
        match self.oldest_reclaimable_page() {
            None => AppendOutcome::Full,
            Some(k) => {
                self.rotate_to(k);
                proof {
                    lemma_rotated_wf(old(self)@, k as int);
                    lemma_empty_room(self@, record@, k as int);
                }
                self.push_active(record);
                AppendOutcome::Cached(id)
            },
        }
    }

    /// Steps the id sequence over one id that has no record, keeping every
    /// record. If the active page holds records, the ring rotates first, so
    /// that the skipped id falls between two pages. False if it would have to
    /// and cannot.
    pub fn skip_entry(&mut self) -> (res: bool)
        requires
            old(self).wf(),
            old(self)@.next < u64::MAX,
        ensures
            final(self).wf(),
            match old(self)@.skipped() {
                Some(r) => res && final(self)@ == r,
                None => !res && final(self)@ == old(self)@,
            },
    {
        proof {
            self.lemma_page(self.active as int);
        }
        if !self.pages[self.active].is_empty() {
            match self.oldest_reclaimable_page() {
                None => {
                    return false;
                },
                Some(k) => {
                    proof {
                        lemma_rotated_wf(self@, k as int);
                    }
                    self.rotate_to(k);
                },
            }
        }
        let ghost before = self@;
        proof {
            self.lemma_page(self.active as int);
            lemma_stepped_wf(before);
        }
        let page = WalPage::init(
            self.pages[self.active].page_id(),
            self.next_entry_id + 1,
            self.pages[self.active].pin_count(),
        );
        assert(page.wf(0));
        self.pages.set(self.active, page);
        self.next_entry_id = self.next_entry_id + 1;
        proof {
            assert(before.pages[before.active].records =~= Seq::<Seq<u8>>::empty());
            assert(self@.pages =~= before.stepped().pages);
        }
        true
    }

    /// The highest id evicted since the last call.
    pub fn take_evicted(&mut self) -> (res: Option<u64>)
        requires
            old(self).wf(),
        ensures
            final(self).wf(),
            res == old(self)@.evicted,
            final(self)@ == (RingView { evicted: None, ..old(self)@ }),
    {
        let ghost before = self@;
        let res = self.evicted_below;
        self.evicted_below = None;
        assert(self@.pages =~= before.pages);
        res
    }

    /// Where entry `index` of page `page_index` begins, in that page's bytes.
    pub fn page_entry_offset(&self, page_index: usize, index: usize) -> (res: usize)
        requires
            self.wf(),
            page_index < self@.pages.len(),
            index <= self@.pages[page_index as int].records.len(),
        ensures
            res == self@.pages[page_index as int].offset(index as int),
    {
        proof {
            self.lemma_page(page_index as int);
        }
        self.pages[page_index].entry_offset(index)
    }

    /// Restarts the ring empty, with `first_entry_id` as the next id. Pins
    /// stay, and the ring does not append to a pinned page. False, with nothing
    /// changed, if every page is pinned.
    pub fn reinit(&mut self, first_entry_id: u64) -> (res: bool)
        requires
            old(self).wf(),
        ensures
            final(self).wf(),
            match old(self)@.reinitialised(first_entry_id) {
                Some(r) => res && final(self)@ == r,
                None => !res && final(self)@ == old(self)@,
            },
    {
        let ghost before = self@;
        let n: usize = self.pages.len();
        let mut free: usize = 0;
        while free < n && self.pages[free].pin_count() != 0
            invariant
                free <= n,
                n == self.pages@.len(),
                before == self@,
                forall|j: int| 0 <= j < free ==> (#[trigger] before.pages[j]).pins != 0,
            decreases n - free,
        {
            assert(before.pages[free as int] == self.pages@[free as int]@);
            free = free + 1;
        }
        if free == n {
            return false;
        }
        assert(before.pages[free as int] == self.pages@[free as int]@);
        assert(before.is_first_free(free as int));
        let slot: usize = match self.first_slot {
            Some(s) => s,
            None => 0,
        };
        let ghost cleared = before.cleared(first_entry_id);
        let mut k: usize = 0;
        while k < n
            invariant
                k <= n,
                n == self.pages@.len(),
                n == before.pages.len(),
                slot + n <= usize::MAX,
                cleared == before.cleared(first_entry_id),
                slot == (match before.first_slot {
                    Some(s) => s,
                    None => 0,
                }),
                forall|j: int|
                    0 <= j < n ==> (#[trigger] self.pages@[j]).framed() && self.pages@[j]@ == (
                    if j < k {
                        cleared.pages[j]
                    } else {
                        before.pages[j]
                    }),
                self.page_size == before.page_size,
                self.evicted_below == before.evicted,
                self.ring_id == before.ring_id,
                before.first_slot == (match self.first_slot {
                    Some(s) => Some(s as nat),
                    None => None,
                }),
            decreases n - k,
        {
            let page = WalPage::init((slot + k) as u64, first_entry_id, self.pages[k].pin_count());
            assert(page.wf(0));
            self.pages.set(k, page);
            k = k + 1;
        }
        self.active = 0;
        self.next_entry_id = first_entry_id;
        self.next_page_id = n as u64;
        self.min_essential_id = 0;
        proof {
            assert(self@.pages =~= cleared.pages);
            assert(wal_file::packed(Seq::<Seq<u8>>::empty()).len() == 0);
            assert(self@.wf());
        }
        if self.pages[0].pin_count() != 0 {
            proof {
                let f = choose|k: int| before.is_first_free(k);
                lemma_first_free_unique(before, f, free as int);
                assert(self@.pages[free as int] == cleared.pages[free as int]);
            }
            self.rotate_to(free);
        }
        true
    }

    /// The lowest id in memory, if any.
    pub fn min_cached_id(&self) -> (res: Option<u64>)
        requires
            self.wf(),
        ensures
            match res {
                Some(m) => {
                    &&& self@.has(m as int)
                    &&& forall|id: int| self@.has(id) ==> m <= id
                },
                None => self@.is_empty(),
            },
    {
        let ghost r = self@;
        let mut res: Option<u64> = None;
        let mut k: usize = 0;
        while k < self.pages.len()
            invariant
                self.wf(),
                r == self@,
                k <= self.pages@.len(),
                self.pages@.len() == r.pages.len(),
                match res {
                    Some(m) => {
                        &&& r.has(m as int)
                        &&& forall|j: int|
                            0 <= j < k && !(#[trigger] r.pages[j]).is_empty() ==> m
                                <= r.pages[j].first
                    },
                    None => forall|j: int|
                        0 <= j < k ==> (#[trigger] r.pages[j]).is_empty(),
                },
            decreases self.pages@.len() - k,
        {
            proof {
                self.lemma_page(k as int);
            }
            if !self.pages[k].is_empty() {
                let first: u64 = self.pages[k].first_entry_id();
                assert(r.pages[k as int].has(first as int));
                let lower = match res {
                    Some(m) => first < m,
                    None => true,
                };
                if lower {
                    res = Some(first);
                }
            }
            k = k + 1;
        }
        proof {
            if let Some(m) = res {
                assert forall|id: int| r.has(id) implies m <= id by {
                    let j = r.page_of(id);
                    assert(r.pages[j].has(id));
                }
            }
        }
        res
    }

    /// Whether the ring holds no entries.
    pub fn is_empty(&self) -> (res: bool)
        requires
            self.wf(),
        ensures
            res == self@.is_empty(),
    {
        let mut k: usize = 0;
        while k < self.pages.len()
            invariant
                self.wf(),
                k <= self.pages@.len(),
                self.pages@.len() == self@.pages.len(),
                forall|j: int| 0 <= j < k ==> (#[trigger] self@.pages[j]).is_empty(),
            decreases self.pages@.len() - k,
        {
            proof {
                self.lemma_page(k as int);
            }
            if !self.pages[k].is_empty() {
                return false;
            }
            k = k + 1;
        }
        true
    }

    /// Advances the reclaim boundary: entries below `min_essential_id` may have
    /// their pages written over.
    pub fn set_essential(&mut self, min_essential_id: u64)
        requires
            old(self).wf(),
        ensures
            final(self).wf(),
            final(self)@ == (RingView { essential: min_essential_id, ..old(self)@ }),
    {
        let ghost before = self@;
        self.min_essential_id = min_essential_id;
        assert(self@.pages =~= before.pages);
    }

    /// Where an id is: its page and its position there.
    pub fn seek(&self, entry_id: u64) -> (res: Option<(usize, usize)>)
        requires
            self.wf(),
        ensures
            match res {
                Some((k, i)) => {
                    &&& k < self@.pages.len()
                    &&& self@.pages[k as int].has(entry_id as int)
                    &&& i == entry_id - self@.pages[k as int].first
                },
                None => !self@.has(entry_id as int),
            },
    {
        let mut k: usize = 0;
        while k < self.pages.len()
            invariant
                self.wf(),
                k <= self.pages@.len(),
                self.pages@.len() == self@.pages.len(),
                forall|j: int| 0 <= j < k ==> !(#[trigger] self@.pages[j]).has(entry_id as int),
            decreases self.pages@.len() - k,
        {
            proof {
                self.lemma_page(k as int);
            }
            let first: u64 = self.pages[k].first_entry_id();
            if first <= entry_id && entry_id - first < self.pages[k].len() as u64 {
                return Some((k, (entry_id - first) as usize));
            }
            k = k + 1;
        }
        None
    }

    /// The record of entry `index` of page `page_index`.
    pub fn record(&self, page_index: usize, index: usize) -> (res: Option<&[u8]>)
        requires
            self.wf(),
            page_index < self@.pages.len(),
        ensures
            match res {
                Some(r) => {
                    &&& index < self@.pages[page_index as int].records.len()
                    &&& r@ == self@.pages[page_index as int].records[index as int]
                },
                None => index >= self@.pages[page_index as int].records.len(),
            },
    {
        proof {
            self.lemma_page(page_index as int);
        }
        self.pages[page_index].record(index)
    }

    /// The record with this id, if it is in memory.
    pub fn get(&self, entry_id: u64) -> (res: Option<&[u8]>)
        requires
            self.wf(),
        ensures
            match res {
                Some(r) => self@.has(entry_id as int) && r@ == self@.record(entry_id as int),
                None => !self@.has(entry_id as int),
            },
    {
        match self.seek(entry_id) {
            Some((k, i)) => {
                proof {
                    lemma_record_at(self@, entry_id as int, k as int);
                }
                self.record(k, i)
            },
            None => None,
        }
    }

    /// Pins page `page_index`, so that it is not written over until unpinned.
    pub fn pin(&mut self, page_index: usize)
        requires
            old(self).wf(),
            page_index < old(self)@.pages.len(),
            old(self)@.pages[page_index as int].pins < u32::MAX,
        ensures
            final(self).wf(),
            final(self)@ == old(self)@.with_pins(
                page_index as int,
                (old(self)@.pages[page_index as int].pins + 1) as u32,
            ),
    {
        self.pin_times(page_index, 1)
    }

    /// Pins page `page_index` so many times.
    pub fn pin_times(&mut self, page_index: usize, n: u32)
        requires
            old(self).wf(),
            page_index < old(self)@.pages.len(),
            old(self)@.pages[page_index as int].pins + n <= u32::MAX,
        ensures
            final(self).wf(),
            final(self)@ == old(self)@.with_pins(
                page_index as int,
                (old(self)@.pages[page_index as int].pins + n) as u32,
            ),
    {
        let ghost before = self@;
        let ghost pins = (before.pages[page_index as int].pins + n) as u32;
        proof {
            self.lemma_page(page_index as int);
            lemma_with_pins_wf(before, page_index as int, pins);
        }
        self.pages[page_index].pin(n);
        assert(self@.pages =~= before.with_pins(page_index as int, pins).pages);
    }

    /// Takes back a pin.
    pub fn unpin(&mut self, page_index: usize)
        requires
            old(self).wf(),
            page_index < old(self)@.pages.len(),
            old(self)@.pages[page_index as int].pins > 0,
        ensures
            final(self).wf(),
            final(self)@ == old(self)@.with_pins(
                page_index as int,
                (old(self)@.pages[page_index as int].pins - 1) as u32,
            ),
    {
        let ghost before = self@;
        proof {
            self.lemma_page(page_index as int);
            lemma_with_pins_wf(before, page_index as int, (before.pages[page_index as int].pins - 1) as u32);
        }
        self.pages[page_index].unpin();
        assert(self@.pages =~= before.with_pins(
            page_index as int,
            (before.pages[page_index as int].pins - 1) as u32,
        ).pages);
    }

    /// The id that the next record gets.
    pub fn next_entry_id(&self) -> (res: u64)
        ensures
            res == self@.next,
    {
        self.next_entry_id
    }

    /// The id that the next rotation stamps on its page. It changes on every
    /// rotation and at no other time but a restart.
    pub fn next_page_id(&self) -> (res: u64)
        ensures
            res == self@.next_page_id,
    {
        self.next_page_id
    }

    pub fn page_count(&self) -> (res: usize)
        ensures
            res == self@.pages.len(),
    {
        self.pages.len()
    }

    /// The page that is being appended to.
    pub fn active_page(&self) -> (res: usize)
        ensures
            res == self@.active,
    {
        self.active
    }

    /// The bytes of a page's entries, as they go to the file.
    pub fn page_bytes(&self, page_index: usize) -> (res: &[u8])
        requires
            self.wf(),
            page_index < self@.pages.len(),
        ensures
            res@ == self@.pages[page_index as int].bytes(),
    {
        proof {
            self.lemma_page(page_index as int);
        }
        self.pages[page_index].bytes()
    }

    /// How many entries a page holds.
    pub fn page_len(&self, page_index: usize) -> (res: usize)
        requires
            self.wf(),
            page_index < self@.pages.len(),
        ensures
            res == self@.pages[page_index as int].records.len(),
    {
        proof {
            self.lemma_page(page_index as int);
        }
        self.pages[page_index].len()
    }

    /// The last id on a page, unless it is empty.
    pub fn page_last_entry_id(&self, page_index: usize) -> (res: Option<u64>)
        requires
            self.wf(),
            page_index < self@.pages.len(),
        ensures
            match res {
                Some(id) => !self@.pages[page_index as int].is_empty() && id
                    == self@.pages[page_index as int].end() - 1,
                None => self@.pages[page_index as int].is_empty(),
            },
    {
        proof {
            self.lemma_page(page_index as int);
        }
        if self.pages[page_index].is_empty() {
            None
        } else {
            Some(self.pages[page_index].first_entry_id() + (self.pages[page_index].len() as u64 - 1))
        }
    }

    /// The first id on a page, unless it is empty.
    pub fn page_first_entry_id(&self, page_index: usize) -> (res: Option<u64>)
        requires
            self.wf(),
            page_index < self@.pages.len(),
        ensures
            match res {
                Some(id) => !self@.pages[page_index as int].is_empty() && id
                    == self@.pages[page_index as int].first,
                None => self@.pages[page_index as int].is_empty(),
            },
    {
        proof {
            self.lemma_page(page_index as int);
        }
        if self.pages[page_index].is_empty() {
            None
        } else {
            Some(self.pages[page_index].first_entry_id())
        }
    }

    /// How many pins a page has.
    pub fn page_pin_count(&self, page_index: usize) -> (res: u32)
        requires
            page_index < self@.pages.len(),
        ensures
            res == self@.pages[page_index as int].pins,
    {
        self.pages[page_index].pin_count()
    }

    /// Whether a page may be written over: nothing pins it, and everything on
    /// it is below `min_essential_id`.
    pub fn page_is_reusable(&self, page_index: usize, min_essential_id: u64) -> (res: bool)
        requires
            self.wf(),
            page_index < self@.pages.len(),
        ensures
            res == self@.pages[page_index as int].reusable(min_essential_id),
    {
        proof {
            self.lemma_page(page_index as int);
        }
        self.pages[page_index].reusable(min_essential_id, Ghost(self@.page_size))
    }

    /// The reclaim boundary.
    pub fn min_essential_id(&self) -> (res: u64)
        ensures
            res == self@.essential,
    {
        self.min_essential_id
    }

    pub fn page_size(&self) -> (res: usize)
        ensures
            res == self@.page_size,
    {
        self.page_size
    }

    /// The ring's slots in the arena, if it has any there.
    pub fn slot_range(&self) -> (res: Option<SlotRange>)
        ensures
            match (res, self@.first_slot) {
                (Some(r), Some(s)) => r.first_slot == s && r.page_count == self@.pages.len(),
                (None, None) => true,
                _ => false,
            },
    {
        match self.first_slot {
            Some(first_slot) => Some(SlotRange { first_slot, page_count: self.pages.len() }),
            None => None,
        }
    }

    pub fn ring_id(&self) -> (res: u64)
        ensures
            res == self@.ring_id,
    {
        self.ring_id
    }

    /// Takes the free slot directly above the ring's range, if it is free.
    pub fn grow(&mut self, arena: &mut WalArena) -> (res: bool)
        requires
            old(self).wf(),
            old(self)@.backed_by(old(arena)@),
        ensures
            final(self).wf(),
            final(self)@.backed_by(final(arena)@),
            res == old(self)@.can_grow(old(arena)@),
            if res {
                &&& final(self)@ == old(self)@.grown()
                &&& final(arena)@ == old(arena)@.given(
                    old(self)@.first_slot->0 + old(self)@.pages.len() as int,
                    1,
                    old(self)@.ring_id,
                )
            } else {
                &&& final(self)@ == old(self)@
                &&& final(arena)@ == old(arena)@
            },
    {
        let ghost before = self@;
        let first: usize = match self.first_slot {
            Some(s) => s,
            None => {
                return false;
            },
        };
        let total: usize = arena.page_count();
        let slot: usize = first + self.pages.len();
        if slot >= total || arena.owner_at(slot) != POOL_FREE {
            return false;
        }
        arena.take_slot(slot, self.ring_id);
        let page = WalPage::init(slot as u64, self.next_entry_id, 0);
        assert(page.wf(0));
        self.pages.push(page);
        proof {
            assert(self@.pages =~= before.grown().pages);
            lemma_grown_wf(before);
        }
        true
    }

    /// Gives the ring's top page back to the arena, unless it is the active
    /// page, may not be written over, or is one of the last `floor`.
    pub fn shrink(&mut self, arena: &mut WalArena, floor: usize) -> (res: bool)
        requires
            old(self).wf(),
            old(self)@.backed_by(old(arena)@),
        ensures
            final(self).wf(),
            final(self)@.backed_by(final(arena)@),
            res == old(self)@.can_shrink(floor as nat),
            if res {
                &&& final(self)@ == old(self)@.shrunk()
                &&& final(arena)@ == old(arena)@.given(
                    old(self)@.first_slot->0 + old(self)@.pages.len() - 1,
                    1,
                    POOL_FREE,
                )
            } else {
                &&& final(self)@ == old(self)@
                &&& final(arena)@ == old(arena)@
            },
    {
        let ghost before = self@;
        let first: usize = match self.first_slot {
            Some(s) => s,
            None => {
                return false;
            },
        };
        let count: usize = self.pages.len();
        if count <= floor || count <= 1 {
            return false;
        }
        let top: usize = count - 1;
        if self.active >= top {
            return false;
        }
        proof {
            self.lemma_page(top as int);
        }
        if !self.pages[top].reusable(self.min_essential_id, Ghost(before.page_size)) {
            return false;
        }
        if !self.pages[top].is_empty() {
            let last: u64 = self.pages[top].first_entry_id() + (self.pages[top].len() as u64 - 1);
            self.evicted_below =
            match self.evicted_below {
                Some(e) => Some(
                    if e < last {
                        last
                    } else {
                        e
                    },
                ),
                None => Some(last),
            };
        }
        assert(arena@.owners[first + top] == self.ring_id);
        arena.give_back_slot(first + top, self.ring_id);
        self.pages.pop();
        proof {
            assert(self@.pages =~= before.shrunk().pages);
            lemma_shrunk_wf(before);
        }
        true
    }

    /// Gives back every slot whose page may be written over and forgets the
    /// ring's label, for a ring that is no longer used. Says how many pages it
    /// had to keep: they stay out of the arena.
    pub fn give_back(&self, arena: &mut WalArena) -> (kept: usize)
        requires
            self.wf(),
            self@.backed_by(old(arena)@),
        ensures
            kept == kept_below(self@, self@.pages.len() as int),
            final(arena)@ == given_back(
                old(arena)@,
                self@,
                self@.pages.len() as int,
            ).without_label(self@.ring_id),
    {
        let first: usize = match self.first_slot {
            Some(s) => s,
            None => {
                return 0;
            },
        };
        let ghost before = arena@;
        let mut kept: usize = 0;
        let mut k: usize = 0;
        let n: usize = self.pages.len();
        assert(given_back(before, self@, 0).owners =~= before.owners);
        while k < n
            invariant
                self.wf(),
                self@.backed_by(before),
                n == self.pages@.len(),
                n == self@.pages.len(),
                first == self@.first_slot->0,
                k <= n,
                kept <= k,
                kept == kept_below(self@, k as int),
                arena@ == given_back(before, self@, k as int),
                first + n <= usize::MAX,
            decreases n - k,
        {
            proof {
                self.lemma_page(k as int);
                assert(before.owners[first + k] == self@.ring_id);
            }
            if self.pages[k].reusable(self.min_essential_id, Ghost(self@.page_size)) {
                arena.give_back_slot(first + k, self.ring_id);
            } else {
                kept = kept + 1;
            }
            k = k + 1;
            assert(arena@.owners =~= given_back(before, self@, k as int).owners);
        }
        arena.forget_label(self.ring_id);
        kept
    }
}

impl RingView {
    /// A page with another number of pins.
    pub open spec fn with_pins(self, k: int, pins: u32) -> RingView {
        RingView {
            pages: self.pages.update(k, PageView { pins, ..self.pages[k] }),
            ..self
        }
    }
}

/// How many of the first `n` pages may not be written over.
pub open spec fn kept_below(r: RingView, n: int) -> int
    decreases n,
{
    if n <= 0 {
        0
    } else {
        kept_below(r, n - 1) + (if r.reusable(n - 1) {
            0int
        } else {
            1int
        })
    }
}

/// An arena with the slots of those of a ring's first `n` pages that may be
/// written over given back.
pub open spec fn given_back(a: ArenaView, r: RingView, n: int) -> ArenaView {
    ArenaView {
        owners: Seq::new(
            a.owners.len(),
            |i: int|
                {
                    let k = i - r.first_slot->0;
                    if 0 <= k < n && r.reusable(k) {
                        POOL_FREE
                    } else {
                        a.owners[i]
                    }
                },
        ),
        ..a
    }
}

/// Changing pins leaves a well-formed ring.
pub proof fn lemma_with_pins_wf(r: RingView, k: int, pins: u32)
    requires
        r.wf(),
        0 <= k < r.pages.len(),
    ensures
        r.with_pins(k, pins).wf(),
{
    let s = r.with_pins(k, pins);
    assert forall|j: int| 0 <= j < s.pages.len() implies (#[trigger] s.pages[j]).wf(
        s.page_size,
    ) by {
        assert(r.pages[j].wf(r.page_size));
    }
    assert forall|j: int|
        0 <= j < s.pages.len() && j != s.active && !(
        #[trigger] s.pages[j]).is_empty() implies s.pages[j].end() <= s.pages[s.active].first by {
        assert(!r.pages[j].is_empty());
    }
    assert forall|i: int, j: int|
        #![trigger s.pages[i], s.pages[j]]
        0 <= i < s.pages.len() && 0 <= j < s.pages.len() && i != j && !s.pages[i].is_empty()
            && !s.pages[j].is_empty() implies s.apart(i, j) by {
        assert(!r.pages[i].is_empty() && !r.pages[j].is_empty());
        assert(r.apart(i, j));
    }
}

/// Growing leaves a well-formed ring.
pub proof fn lemma_grown_wf(r: RingView)
    requires
        r.wf(),
        r.first_slot matches Some(s) && s + r.pages.len() + 1 <= usize::MAX,
    ensures
        r.grown().wf(),
{
    let s = r.grown();
    let n = r.pages.len();
    assert(wal_file::packed(Seq::<Seq<u8>>::empty()).len() == 0);
    assert forall|j: int| 0 <= j < s.pages.len() implies (#[trigger] s.pages[j]).wf(
        s.page_size,
    ) by {
        if j < n {
            assert(s.pages[j] == r.pages[j]);
        }
    }
    assert forall|j: int|
        0 <= j < s.pages.len() && j != s.active && !(
        #[trigger] s.pages[j]).is_empty() implies s.pages[j].end() <= s.pages[s.active].first by {
        assert(s.pages[j] == r.pages[j]);
    }
    assert forall|i: int, j: int|
        #![trigger s.pages[i], s.pages[j]]
        0 <= i < s.pages.len() && 0 <= j < s.pages.len() && i != j && !s.pages[i].is_empty()
            && !s.pages[j].is_empty() implies s.apart(i, j) by {
        assert(s.pages[i] == r.pages[i]);
        assert(s.pages[j] == r.pages[j]);
        assert(r.apart(i, j));
    }
}

/// Shrinking leaves a well-formed ring.
pub proof fn lemma_shrunk_wf(r: RingView)
    requires
        r.wf(),
        r.pages.len() > 1,
        r.active < r.pages.len() - 1,
    ensures
        r.shrunk().wf(),
{
    let s = r.shrunk();
    assert forall|j: int| 0 <= j < s.pages.len() implies (#[trigger] s.pages[j]).wf(
        s.page_size,
    ) by {
        assert(s.pages[j] == r.pages[j]);
    }
    assert forall|j: int|
        0 <= j < s.pages.len() && j != s.active && !(
        #[trigger] s.pages[j]).is_empty() implies s.pages[j].end() <= s.pages[s.active].first by {
        assert(s.pages[j] == r.pages[j]);
    }
    assert forall|i: int, j: int|
        #![trigger s.pages[i], s.pages[j]]
        0 <= i < s.pages.len() && 0 <= j < s.pages.len() && i != j && !s.pages[i].is_empty()
            && !s.pages[j].is_empty() implies s.apart(i, j) by {
        assert(s.pages[i] == r.pages[i]);
        assert(s.pages[j] == r.pages[j]);
        assert(r.apart(i, j));
    }
}

} // verus!
