//! A queue's pages: what has been accepted, what may be written to the file,
//! and what may be forgotten.
//!
//! The pool puts records on the pages of a [`WalRing`], decides with which
//! record a new file begins, hands the file writer the bytes that it has not
//! written yet, and learns from it what is on disk. When no page may be written
//! over, an append waits: the pages hold records that are not on disk, and
//! those are never dropped.

use bytes::Bytes;
use vstd::prelude::*;
use vstd::slice::slice_subrange;
use crate::buf;
use crate::memory_laws;
use crate::varint;
use crate::wal_arena::{SlotRange, WalArena, POOL_FREE};
use crate::wal_entry_v1;
use crate::wal_file;
use crate::wal_page;
use crate::wal_page::{PageView, PAGE_ENTRY_SLOT};
use crate::wal_ring_range;
use crate::wal_ring_v1;
use crate::wal_ring_v1::{AppendOutcome, RingView, WalRing, MIN_PAGE_SIZE};

verus! {

/// The share of the pool that reads may hold pinned at once, as a divisor. A
/// pin lasts as long as its payload, and a payload lives until a client has
/// taken it; what reads do not hold is the writer's working set.
pub const PIN_SHARE_DIVISOR: usize = 2;

/// Pages that a read never pins, whatever the share comes to.
pub const PIN_RESERVE: usize = 1;

/// The most payloads of one read that are pinned; the rest are copies.
pub const PIN_PAYLOADS_PER_READ: usize = 4096;

/// How far ahead of the pool a caller's id may be for the pool to step over
/// the ids between them instead of starting over.
pub const MAX_STEPPABLE_GAP: u64 = 1024;

/// Why a record could not be placed.
#[derive(Debug, Clone, Copy, PartialEq, Eq, Structural)]
pub enum PoolError {
    /// The record does not fit a page.
    TooLarge,
    /// Nothing takes pages from the pool any more, so waiting would not end.
    NoDrainer,
}

/// Whether the writer must begin a new file with a record.
#[derive(Debug, Clone, Copy, PartialEq, Eq, Structural)]
pub enum RotateHint {
    /// Nothing was decided; the writer goes by its own accounting.
    WriterDecides,
    /// Begin a new file. The record opened a page, so the file before ends
    /// where the page before does.
    Before,
    /// Stay with the open file.
    NoRotation,
}

/// What was decided about a record when it was accepted.
#[derive(Debug, Clone, Copy, PartialEq, Eq, Structural)]
pub struct Placement {
    /// The record is on a page, and its bytes reach the file from there.
    pub in_pool: bool,
    pub record_len: usize,
    pub rotate: RotateHint,
    /// Which file the record belongs to, counted from zero.
    pub epoch: u64,
}

/// A placement about which nothing was decided.
pub open spec fn undecided() -> Placement {
    Placement { in_pool: false, record_len: 0, rotate: RotateHint::WriterDecides, epoch: 0 }
}

impl Placement {
    /// The placement of a record without a pool: the writer decides.
    pub fn legacy() -> (res: Self)
        ensures
            res == undecided(),
    {
        Placement { in_pool: false, record_len: 0, rotate: RotateHint::WriterDecides, epoch: 0 }
    }
}

impl Default for Placement {
    fn default() -> (res: Self)
        ensures
            res == undecided(),
    {
        Placement::legacy()
    }
}

/// How full the open file is. The maximum is a threshold, not a cap: a file
/// ends with the first page that opens after it is reached.
#[derive(Debug, Clone, Copy, PartialEq, Eq, Structural)]
pub struct FileFill {
    pub used: u64,
    pub max: u64,
    pub header_len: u64,
    /// A file takes its first record however large that is.
    pub has_written: bool,
    pub epoch: u64,
}

/// Bytes `from..to` of a page, which the file writer has not written yet.
#[derive(Debug, Clone, Copy, PartialEq, Eq, Structural)]
pub struct PendingWrite {
    pub page: usize,
    pub from: usize,
    pub to: usize,
    /// The first id of the run.
    pub first_entry_id: u64,
    /// The last id of the run.
    pub last_entry_id: u64,
}

pub open spec fn max_u64(a: u64, b: u64) -> u64 {
    if a < b {
        b
    } else {
        a
    }
}

pub open spec fn saturating_sum(a: int, b: int, max: int) -> int {
    if a + b > max {
        max
    } else {
        a + b
    }
}

/// The size of the entry that holds a record of this length.
pub open spec fn entry_len(record_len: nat) -> nat {
    varint::varint(record_len).len() + record_len + 4
}

/// What a pool holds.
pub struct PoolView {
    pub ring: RingView,
    /// Per page, how many of its bytes the file writer has written.
    pub written: Seq<nat>,
    /// Per page, which file its bytes belong to.
    pub epochs: Seq<u64>,
    pub fill: Option<FileFill>,
    pub unwritten: int,
    /// Ids below this are not served from memory.
    pub cache_floor: u64,
    /// The highest id that the file writer has taken on.
    pub handed_through: Option<u64>,
    pub drainer: bool,
    pub flush_watermark: nat,
    pub floor: nat,
}

/// Whether `n` bytes of a page are a whole number of entries.
pub open spec fn is_boundary(p: PageView, n: nat) -> bool {
    exists|i: int| 0 <= i <= p.records.len() && #[trigger] p.offset(i) == n
}

/// Whether a run lies on a page and ends where an entry of it ends.
pub open spec fn ends_with_entry(r: RingView, w: PendingWrite) -> bool {
    w.page < r.pages.len() && is_boundary(r.pages[w.page as int], w.to as nat)
}

/// How many entries the first `n` bytes of a page are.
pub open spec fn entries_before(p: PageView, n: nat) -> int {
    choose|i: int| 0 <= i <= p.records.len() && #[trigger] p.offset(i) == n
}

impl PoolView {
    /// Every page's written bytes are whole entries.
    pub open spec fn wf(self) -> bool {
        &&& self.ring.wf()
        &&& self.written.len() == self.ring.pages.len()
        &&& self.epochs.len() == self.ring.pages.len()
        &&& forall|k: int|
            0 <= k < self.written.len() ==> is_boundary(
                self.ring.pages[k],
                #[trigger] self.written[k],
            )
        &&& 0 <= self.unwritten <= usize::MAX
    }

    /// What was evicted is no longer served.
    pub open spec fn absorbed(self) -> PoolView {
        PoolView {
            ring: RingView { evicted: None, ..self.ring },
            cache_floor: match self.ring.evicted {
                Some(last) => max_u64(
                    self.cache_floor,
                    saturating_sum(last as int, 1, u64::MAX as int) as u64,
                ),
                None => self.cache_floor,
            },
            ..self
        }
    }

    /// Whether an append rotates.
    pub open spec fn opens_page(self, record: Seq<u8>) -> bool {
        &&& wal_ring_v1::fits_page(record.len(), self.ring.page_size)
        &&& !self.ring.pages[self.ring.active].has_room(
            wal_entry_v1::entry(record).len(),
            self.ring.page_size,
        )
        &&& self.ring.target() is Some
    }

    /// A record appended.
    pub open spec fn appended(self, record: Seq<u8>) -> (PoolView, AppendOutcome) {
        let (ring, outcome) = self.ring.appended(record);
        let v = PoolView {
            ring,
            written: if self.opens_page(record) {
                self.written.update(ring.active, 0)
            } else {
                self.written
            },
            unwritten: if outcome is Cached {
                saturating_sum(self.unwritten, entry_len(record.len()) as int, usize::MAX as int)
            } else {
                self.unwritten
            },
            ..self
        };
        (v.absorbed(), outcome)
    }

    /// A record on the active page charged to the open file, and the page
    /// stamped with the file. The file ends only if the record opened a page.
    pub open spec fn charged(self, record_len: nat, opened: bool) -> (PoolView, Placement) {
        match self.fill {
            None => (
                self,
                Placement {
                    in_pool: true,
                    record_len: record_len as usize,
                    rotate: RotateHint::NoRotation,
                    epoch: 0,
                },
            ),
            Some(f) => {
                let len = entry_len(record_len) as int;
                let rotates = opened && f.has_written && f.used >= f.max;
                let fill = if rotates {
                    FileFill {
                        epoch: wal_ring_v1::next_count(f.epoch),
                        used: saturating_sum(f.header_len as int, len, u64::MAX as int) as u64,
                        has_written: true,
                        ..f
                    }
                } else {
                    FileFill {
                        used: saturating_sum(f.used as int, len, u64::MAX as int) as u64,
                        has_written: true,
                        ..f
                    }
                };
                (
                    PoolView {
                        fill: Some(fill),
                        epochs: self.epochs.update(self.ring.active, fill.epoch),
                        ..self
                    },
                    Placement {
                        in_pool: true,
                        record_len: record_len as usize,
                        rotate: if rotates {
                            RotateHint::Before
                        } else {
                            RotateHint::NoRotation
                        },
                        epoch: fill.epoch,
                    },
                )
            },
        }
    }

    /// One id stepped over.
    pub open spec fn skipped(self) -> Option<PoolView> {
        match self.ring.skipped() {
            None => None,
            Some(ring) => Some(
                PoolView { ring, written: self.written.update(ring.active, 0), ..self }.absorbed(),
            ),
        }
    }

    /// As many as possible of `n` ids stepped over, and whether that was all.
    pub open spec fn stepped_over(self, n: nat) -> (PoolView, bool)
        decreases n,
    {
        if n == 0 {
            (self, true)
        } else {
            match self.skipped() {
                None => (self, false),
                Some(v) => v.stepped_over((n - 1) as nat),
            }
        }
    }

    /// Whether starting over would lose nothing.
    pub open spec fn nothing_to_lose(self) -> bool {
        self.ring.is_empty() || self.ring.essential >= self.ring.next
    }

    /// The pool started over from `first`, if a page is free.
    pub open spec fn reseeded(self, first: u64) -> Option<PoolView> {
        match self.ring.reinitialised(first) {
            None => None,
            Some(ring) => Some(
                PoolView {
                    ring,
                    written: Seq::new(self.written.len(), |k: int| 0nat),
                    unwritten: 0,
                    ..self
                },
            ),
        }
    }

    /// The pool brought to where its next id is `expected`, as far as that
    /// goes, and whether it is there.
    pub open spec fn synced(self, expected: u64) -> (PoolView, bool) {
        let gap = expected - self.ring.next;
        if gap == 0 {
            (self, true)
        } else if 0 < gap <= MAX_STEPPABLE_GAP {
            self.stepped_over(gap as nat)
        } else if !self.nothing_to_lose() {
            (self, false)
        } else {
            match self.reseeded(expected) {
                None => (self, false),
                Some(v) => (v, true),
            }
        }
    }

    /// A record placed under the id `expected`.
    pub open spec fn placed(self, expected: u64, record: Seq<u8>) -> (PoolView, TryPlace) {
        let (v, there) = self.synced(expected);
        if !there {
            (v, TryPlace::Full)
        } else {
            let (w, outcome) = v.appended(record);
            match outcome {
                AppendOutcome::TooLarge => (w, TryPlace::TooLarge),
                AppendOutcome::Full => (w, TryPlace::Full),
                AppendOutcome::Cached(_) => {
                    let (x, placement) = w.charged(record.len(), v.opens_page(record));
                    (
                        x,
                        TryPlace::Placed {
                            placement,
                            flush: w.unwritten >= w.flush_watermark,
                        },
                    )
                },
            }
        }
    }

    /// The run of page `k` that may be written to file `epoch`: whole entries
    /// behind what was written, up to the last that the writer has taken on.
    pub open spec fn run(self, k: int, epoch: u64) -> Option<PendingWrite> {
        let p = self.ring.pages[k];
        match self.handed_through {
            None => None,
            Some(bound) => if p.is_empty() || bound < p.first || self.epochs[k] != epoch {
                None
            } else {
                let last = if p.end() - 1 <= bound {
                    (p.end() - 1) as u64
                } else {
                    bound
                };
                let to = p.offset(last - p.first + 1);
                if self.written[k] >= to {
                    None
                } else {
                    Some(
                        PendingWrite {
                            page: k as usize,
                            from: self.written[k] as usize,
                            to: to as usize,
                            first_entry_id: (p.first + entries_before(p, self.written[k])) as u64,
                            last_entry_id: last,
                        },
                    )
                }
            },
        }
    }

    /// A run marked as written.
    pub open spec fn committed(self, w: PendingWrite) -> PoolView {
        let k = w.page as int;
        if w.to > self.written[k] {
            let taken = w.to - self.written[k];
            PoolView {
                written: self.written.update(k, w.to as nat),
                unwritten: if self.unwritten < taken {
                    0
                } else {
                    self.unwritten - taken
                },
                ..self
            }
        } else {
            self
        }
    }

    /// The lowest id that is served from memory, if any is.
    pub open spec fn min_cached(self) -> Option<u64>
        recommends
            self.wf(),
    {
        if self.ring.is_empty() {
            None
        } else {
            let lowest = lowest_id(self.ring);
            let floor = max_u64(lowest, self.cache_floor);
            if floor < self.ring.next {
                Some(floor)
            } else {
                None
            }
        }
    }
}

/// The lowest id that a ring holds.
pub open spec fn lowest_id(r: RingView) -> u64 {
    choose|m: u64| r.has(m as int) && (forall|id: int| #[trigger] r.has(id) ==> m <= id)
}

/// What became of an attempt to place a record.
#[derive(Debug, Clone, Copy, PartialEq, Eq, Structural)]
pub enum TryPlace {
    /// The record is on a page. `flush` says that enough is unwritten to flush
    /// without waiting for the writer's next tick.
    Placed { placement: Placement, flush: bool },
    /// The pool cannot take the record yet.
    Full,
    TooLarge,
}

/// The largest record that a page of `page_size` bytes takes, or zero if it
/// takes none.
pub fn max_record_len(page_size: usize) -> (n: usize)
    ensures
        n > 0 ==> wal_ring_v1::fits_page(n as nat, page_size as nat),
        forall|m: nat| m > n ==> !#[trigger] wal_ring_v1::fits_page(m, page_size as nat),
{
    let mut n: usize = if page_size < PAGE_ENTRY_SLOT {
        0
    } else {
        page_size - PAGE_ENTRY_SLOT
    };
    assert forall|m: nat| m > n implies !#[trigger] wal_ring_v1::fits_page(
        m,
        page_size as nat,
    ) by {}
    while n > 0 && !fits_page(n, page_size)
        invariant
            forall|m: nat| m > n ==> !#[trigger] wal_ring_v1::fits_page(m, page_size as nat),
        decreases n,
    {
        n = n - 1;
    }
    n
}

/// Whether a record of `record_len` bytes fits an empty page of `page_size`.
fn fits_page(record_len: usize, page_size: usize) -> (res: bool)
    ensures
        res == wal_ring_v1::fits_page(record_len as nat, page_size as nat),
{
    match encoded_len_of(record_len) {
        Some(n) => n + PAGE_ENTRY_SLOT as u64 <= page_size as u64,
        None => false,
    }
}

/// What a record of this length costs the file, unless no entry can hold it.
pub fn encoded_len_of(record_len: usize) -> (res: Option<u64>)
    ensures
        match res {
            Some(n) => record_len <= u32::MAX && n == entry_len(record_len as nat) && n
                <= record_len + 9,
            None => record_len > u32::MAX,
        },
{
    if record_len as u64 > 0xFFFF_FFFF {
        return None;
    }
    proof {
        varint::lemma_base128_values();
        varint::lemma_varint_len(record_len as nat, 5);
    }
    Some(varint::encoded_len_u64(record_len as u64) as u64 + record_len as u64 + 4)
}

/// A queue's pages.
pub struct PagePool {
    ring: WalRing,
    written: Vec<usize>,
    page_epoch: Vec<u64>,
    fill: Option<FileFill>,
    unwritten: usize,
    cache_floor: u64,
    handed_through: Option<u64>,
    drainer: bool,
    flush_watermark: usize,
    floor: usize,
}

impl View for PagePool {
    type V = PoolView;

    closed spec fn view(&self) -> PoolView {
        PoolView {
            ring: self.ring@,
            written: Seq::new(self.written@.len(), |k: int| self.written@[k] as nat),
            epochs: self.page_epoch@,
            fill: self.fill,
            unwritten: self.unwritten as int,
            cache_floor: self.cache_floor,
            handed_through: self.handed_through,
            drainer: self.drainer,
            flush_watermark: self.flush_watermark as nat,
            floor: self.floor as nat,
        }
    }
}

/// A pool over a ring on which nothing has happened yet.
pub open spec fn fresh_pool(ring: RingView, floor: nat) -> PoolView {
    let n = ring.pages.len();
    let half = n * ring.page_size / 2;
    PoolView {
        ring,
        written: Seq::new(n, |k: int| 0nat),
        epochs: Seq::new(n, |k: int| 0u64),
        fill: None,
        unwritten: 0,
        cache_floor: 0,
        handed_through: None,
        drainer: false,
        flush_watermark: if half < ring.page_size {
            ring.page_size
        } else {
            half
        },
        floor,
    }
}

pub proof fn lemma_zero_is_boundary(p: PageView)
    ensures
        is_boundary(p, 0),
        p.offset(0) == 0,
{
    assert(p.records.take(0) =~= Seq::<Seq<u8>>::empty());
    assert(p.offset(0) == 0);
}

pub proof fn lemma_end_is_boundary(p: PageView)
    ensures
        is_boundary(p, p.bytes().len()),
        p.offset(p.records.len() as int) == p.bytes().len(),
{
    assert(p.records.take(p.records.len() as int) =~= p.records);
    assert(p.offset(p.records.len() as int) == p.bytes().len());
}

/// What was a boundary stays one when a record is put behind it.
pub proof fn lemma_boundary_pushed(p: PageView, record: Seq<u8>, n: nat)
    requires
        is_boundary(p, n),
    ensures
        is_boundary(p.pushed(record), n),
{
    let i = choose|i: int| 0 <= i <= p.records.len() && #[trigger] p.offset(i) == n;
    assert(p.pushed(record).records.take(i) =~= p.records.take(i));
    assert(p.pushed(record).offset(i) == n);
}

/// No two entries of a page begin at the same byte.
pub proof fn lemma_entries_before(p: PageView, i: int)
    requires
        0 <= i <= p.records.len(),
        wal_file::writable(p.records),
    ensures
        entries_before(p, p.offset(i)) == i,
{
    let j = entries_before(p, p.offset(i));
    assert(0 <= j <= p.records.len() && p.offset(j) == p.offset(i));
    if i < j {
        wal_page::lemma_offset_monotone(p, i, j);
    } else if j < i {
        wal_page::lemma_offset_monotone(p, j, i);
    }
}

/// A written count is within the page.
proof fn lemma_boundary_bound(p: PageView, n: nat)
    requires
        is_boundary(p, n),
    ensures
        n <= p.bytes().len(),
{
    let i = choose|i: int| 0 <= i <= p.records.len() && #[trigger] p.offset(i) == n;
    wal_page::lemma_offset_monotone(p, i, p.records.len() as int);
}

/// Appending leaves a well-formed pool.
pub proof fn lemma_pool_appended_wf(v: PoolView, record: Seq<u8>)
    requires
        v.wf(),
        v.ring.next < u64::MAX,
    ensures
        v.appended(record).0.wf(),
{
    let w = v.appended(record).0;
    let (ring, outcome) = v.ring.appended(record);
    wal_ring_v1::lemma_appended_wf(v.ring, record);
    assert(w.ring.pages == ring.pages);
    lemma_evicted_irrelevant(ring);
    if let Some(k) = v.ring.target() {
        assert(v.ring.is_target(k));
    }
    assert forall|k: int| 0 <= k < w.written.len() implies is_boundary(
        w.ring.pages[k],
        #[trigger] w.written[k],
    ) by {
        assert(is_boundary(v.ring.pages[k], v.written[k]));
        if k == ring.active {
            if v.opens_page(record) {
                lemma_zero_is_boundary(w.ring.pages[k]);
            } else if outcome is Cached {
                lemma_boundary_pushed(v.ring.pages[k], record, v.written[k]);
            }
        } else {
            assert(w.ring.pages[k] == v.ring.pages[k]);
        }
    }
}

pub proof fn lemma_evicted_irrelevant(r: RingView)
    requires
        r.wf(),
    ensures
        (RingView { evicted: None, ..r }).wf(),
{
    let s = RingView { evicted: None, ..r };
    assert forall|i: int, j: int|
        #![trigger s.pages[i], s.pages[j]]
        0 <= i < s.pages.len() && 0 <= j < s.pages.len() && i != j && !s.pages[i].is_empty()
            && !s.pages[j].is_empty() implies s.apart(i, j) by {
        assert(r.apart(i, j));
    }
}

impl PagePool {
    pub closed spec fn framed(&self) -> bool {
        self.ring.framed()
    }

    pub open spec fn wf(&self) -> bool {
        &&& self.framed()
        &&& self@.wf()
    }

    fn over(ring: WalRing, floor: usize) -> (res: PagePool)
        requires
            ring.wf(),
            ring@.pages.len() * ring@.page_size <= usize::MAX,
        ensures
            res.wf(),
            res@ == fresh_pool(ring@, floor as nat),
    {
        let n: usize = ring.page_count();
        let page_size: usize = ring.page_size();
        let mut written: Vec<usize> = Vec::new();
        let mut page_epoch: Vec<u64> = Vec::new();
        while written.len() < n
            invariant
                written@.len() <= n,
                page_epoch@.len() == written@.len(),
                forall|k: int| 0 <= k < written@.len() ==> #[trigger] written@[k] == 0,
                forall|k: int| 0 <= k < page_epoch@.len() ==> #[trigger] page_epoch@[k] == 0,
            decreases n - written.len(),
        {
            written.push(0);
            page_epoch.push(0);
        }
        let half: usize = n * page_size / 2;
        let res = PagePool {
            ring,
            written,
            page_epoch,
            fill: None,
            unwritten: 0,
            cache_floor: 0,
            handed_through: None,
            drainer: false,
            flush_watermark: if half < page_size {
                page_size
            } else {
                half
            },
            floor,
        };
        proof {
            let want = fresh_pool(ring@, floor as nat);
            assert(res@.written =~= want.written);
            assert(res@.epochs =~= want.epochs);
            assert forall|k: int| 0 <= k < res@.written.len() implies is_boundary(
                res@.ring.pages[k],
                #[trigger] res@.written[k],
            ) by {
                lemma_zero_is_boundary(res@.ring.pages[k]);
            }
        }
        res
    }

    /// A pool of `page_count` pages of `page_size` bytes that keeps them for
    /// life. Nothing below the first id was ever accepted, so everything below
    /// it counts as durable.
    pub fn new(page_count: usize, page_size: usize, first_entry_id: u64) -> (res: PagePool)
        requires
            page_count >= 1,
            MIN_PAGE_SIZE <= page_size <= u32::MAX,
            page_count * page_size <= usize::MAX,
        ensures
            res.wf(),
            res@ == fresh_pool(
                RingView {
                    essential: first_entry_id,
                    ..wal_ring_v1::fresh(
                        page_count as nat,
                        page_size as nat,
                        first_entry_id,
                        POOL_FREE,
                        None,
                    )
                },
                page_count as nat,
            ),
    {
        let mut ring = WalRing::new(page_count, page_size, first_entry_id);
        ring.set_essential(first_entry_id);
        PagePool::over(ring, page_count)
    }

    /// A pool over the slots that an arena has reserved for `ring_id`. It does
    /// not give up its last `floor` pages.
    pub fn new_in(
        arena: &WalArena,
        range: SlotRange,
        ring_id: u64,
        first_entry_id: u64,
        floor: usize,
    ) -> (res: PagePool)
        requires
            range.page_count >= 1,
            MIN_PAGE_SIZE <= arena@.page_size <= u32::MAX,
            ring_id != POOL_FREE,
            arena@.holds(range.first_slot as int, range.page_count as int, ring_id),
            arena@.owners.len() <= usize::MAX,
            range.page_count * arena@.page_size <= usize::MAX,
        ensures
            res.wf(),
            res@ == fresh_pool(
                wal_ring_v1::fresh(
                    range.page_count as nat,
                    arena@.page_size,
                    first_entry_id,
                    ring_id,
                    Some(range.first_slot as nat),
                ),
                if floor == 0 {
                    1
                } else {
                    floor as nat
                },
            ),
            res@.ring.backed_by(arena@),
    {
        let ring = WalRing::in_arena(arena, range, ring_id, first_entry_id);
        PagePool::over(
            ring,
            if floor == 0 {
                1
            } else {
                floor
            },
        )
    }

    /// Raises the floor past what the ring has evicted.
    fn absorb_eviction(&mut self)
        requires
            old(self).framed(),
            old(self)@.ring.wf(),
        ensures
            final(self).framed(),
            final(self)@ == old(self)@.absorbed(),
    {
        let ghost before = self@;
        if let Some(last) = self.ring.take_evicted() {
            let above: u64 = last.saturating_add(1);
            if self.cache_floor < above {
                self.cache_floor = above;
            }
        }
        assert(self@.written =~= before.absorbed().written);
    }

    fn append_locked(&mut self, record: &[u8]) -> (res: (AppendOutcome, bool))
        requires
            old(self).wf(),
            old(self)@.ring.next < u64::MAX,
        ensures
            final(self).wf(),
            (final(self)@, res.0) == old(self)@.appended(record@),
            res.1 == old(self)@.opens_page(record@),
    {
        let ghost before = self@;
        proof {
            lemma_pool_appended_wf(before, record@);
            wal_ring_v1::lemma_appended_wf(before.ring, record@);
            if let Some(k) = before.ring.target() {
                assert(before.ring.is_target(k));
            }
        }
        let before_page_id: u64 = self.ring.next_page_id();
        let outcome = self.ring.append(record);
        let rotated = self.ring.next_page_id() != before_page_id;
        assert(rotated == before.opens_page(record@));
        if rotated {
            let active: usize = self.ring.active_page();
            self.written.set(active, 0);
        }
        match outcome {
            AppendOutcome::Cached(_) => {
                if let Some(n) = encoded_len_of(record.len()) {
                    self.unwritten = self.unwritten.saturating_add(n as usize);
                }
            },
            _ => {},
        }
        let ghost middle = self@;
        proof {
            let (ring, o) = before.ring.appended(record@);
            let want = PoolView {
                ring,
                written: if before.opens_page(record@) {
                    before.written.update(ring.active, 0)
                } else {
                    before.written
                },
                unwritten: if o is Cached {
                    saturating_sum(
                        before.unwritten,
                        entry_len(record@.len()) as int,
                        usize::MAX as int,
                    )
                } else {
                    before.unwritten
                },
                ..before
            };
            assert(middle.written =~= want.written);
            assert(middle == want);
        }
        self.absorb_eviction();
        (outcome, rotated)
    }

    /// Appends without waiting and without charging a file. `Full` means that
    /// every page is pinned or holds records that are not on disk.
    pub fn try_append(&mut self, record: &[u8]) -> (res: AppendOutcome)
        requires
            old(self).wf(),
            old(self)@.ring.next < u64::MAX,
        ensures
            final(self).wf(),
            (final(self)@, res) == old(self)@.appended(record@),
    {
        self.append_locked(record).0
    }

    /// Charges a record that landed on the active page to the open file.
    fn charge_paged(&mut self, record_len: usize, opened_page: bool) -> (res: Placement)
        requires
            old(self).wf(),
            record_len <= u32::MAX,
        ensures
            final(self).wf(),
            (final(self)@, res) == old(self)@.charged(record_len as nat, opened_page),
            old(self)@.fill matches Some(f) ==> {
                &&& opened_page && f.has_written && f.used >= f.max ==> res.rotate
                    == RotateHint::Before && (f.epoch < u64::MAX ==> res.epoch == f.epoch + 1)
                &&& !opened_page || !f.has_written || f.used < f.max ==> res.rotate
                    == RotateHint::NoRotation && res.epoch == f.epoch
                &&& final(self)@.fill matches Some(g) && g.epoch == res.epoch && g.max == f.max
            },
    {
        let ghost before = self@;
        let active: usize = self.ring.active_page();
        let len: u64 = match encoded_len_of(record_len) {
            Some(n) => n,
            None => 0,
        };
        match self.fill {
            None => Placement {
                in_pool: true,
                record_len,
                rotate: RotateHint::NoRotation,
                epoch: 0,
            },
            Some(f) => {
                let rotates = opened_page && f.has_written && f.used >= f.max;
                let (epoch, used): (u64, u64) = if rotates {
                    (f.epoch.wrapping_add(1), f.header_len.saturating_add(len))
                } else {
                    (f.epoch, f.used.saturating_add(len))
                };
                self.fill =
                Some(
                    FileFill {
                        used,
                        max: f.max,
                        header_len: f.header_len,
                        has_written: true,
                        epoch,
                    },
                );
                self.page_epoch.set(active, epoch);
                proof {
                    let want = before.charged(record_len as nat, opened_page).0;
                    assert(self@.written =~= want.written);
                    assert(self@.epochs =~= want.epochs);
                }
                Placement {
                    in_pool: true,
                    record_len,
                    rotate: if rotates {
                        RotateHint::Before
                    } else {
                        RotateHint::NoRotation
                    },
                    epoch,
                }
            },
        }
    }

    fn skip_one(&mut self) -> (res: bool)
        requires
            old(self).wf(),
            old(self)@.ring.next < u64::MAX,
        ensures
            final(self).wf(),
            match old(self)@.skipped() {
                Some(v) => res && final(self)@ == v,
                None => !res && final(self)@ == old(self)@,
            },
    {
        let ghost before = self@;
        proof {
            lemma_pool_skipped_wf(before);
        }
        if !self.ring.skip_entry() {
            assert(self@.written =~= before.written);
            return false;
        }
        let active: usize = self.ring.active_page();
        self.written.set(active, 0);
        proof {
            let ring = before.ring.skipped()->0;
            let want = PoolView { ring, written: before.written.update(ring.active, 0), ..before };
            assert(self@.written =~= want.written);
            assert(self@ == want);
            lemma_ring_skipped_wf(before.ring);
        }
        self.absorb_eviction();
        true
    }

    fn step_over(&mut self, n: u64) -> (res: bool)
        requires
            old(self).wf(),
            old(self)@.ring.next + n <= u64::MAX,
        ensures
            final(self).wf(),
            (final(self)@, res) == old(self)@.stepped_over(n as nat),
            res ==> final(self)@.ring.next == old(self)@.ring.next + n,
    {
        let ghost before = self@;
        let mut left: u64 = n;
        while left > 0
            invariant
                self.wf(),
                before == old(self)@,
                left <= n,
                self@.ring.next + left == before.ring.next + n,
                before.ring.next + n <= u64::MAX,
                self@.stepped_over(left as nat) == before.stepped_over(n as nat),
            decreases left,
        {
            let ghost here = self@;
            proof {
                lemma_pool_skipped_wf(here);
            }
            if !self.skip_one() {
                assert(here.stepped_over(left as nat) == (here, false));
                return false;
            }
            left = left - 1;
        }
        true
    }

    /// Drops whatever the pages hold and numbers from `first_entry_id`. Pinned
    /// pages stay with their readers. False, with nothing changed, if every
    /// page is pinned.
    pub fn reseed(&mut self, first_entry_id: u64) -> (res: bool)
        requires
            old(self).wf(),
        ensures
            final(self).wf(),
            match old(self)@.reseeded(first_entry_id) {
                Some(v) => res && final(self)@ == v,
                None => !res && final(self)@ == old(self)@,
            },
    {
        let ghost before = self@;
        if !self.ring.reinit(first_entry_id) {
            assert(self@.written =~= before.written);
            return false;
        }
        let n: usize = self.written.len();
        let mut k: usize = 0;
        while k < n
            invariant
                k <= n,
                n == self.written@.len(),
                n == before.written.len(),
                forall|j: int| 0 <= j < k ==> #[trigger] self.written@[j] == 0,
                self.ring.wf(),
                self.ring@ == before.ring.reinitialised(first_entry_id)->0,
                self@.epochs == before.epochs,
                self@.fill == before.fill,
                self@.cache_floor == before.cache_floor,
                self@.handed_through == before.handed_through,
                self@.drainer == before.drainer,
                self@.flush_watermark == before.flush_watermark,
                self@.floor == before.floor,
            decreases n - k,
        {
            self.written.set(k, 0);
            k = k + 1;
        }
        self.unwritten = 0;
        proof {
            let want = before.reseeded(first_entry_id)->0;
            assert(self@.written =~= want.written);
            lemma_reinitialised_len(before.ring, first_entry_id);
            assert forall|k: int| 0 <= k < self@.written.len() implies is_boundary(
                self@.ring.pages[k],
                #[trigger] self@.written[k],
            ) by {
                lemma_zero_is_boundary(self@.ring.pages[k]);
            }
        }
        true
    }

    /// Places the record that must get the id `expected_id`, without waiting.
    ///
    /// The caller owns the id sequence and the pool follows it. If the pool is
    /// behind by a little it steps over the ids in between, keeping everything;
    /// if by more, it starts over, but only once nothing would be lost.
    pub fn try_place(&mut self, expected_id: u64, record: &[u8]) -> (res: TryPlace)
        requires
            old(self).wf(),
            expected_id < u64::MAX,
        ensures
            final(self).wf(),
            (final(self)@, res) == old(self)@.placed(expected_id, record@),
    {
        let ghost before = self@;
        let next: u64 = self.ring.next_entry_id();
        if next != expected_id {
            if next < expected_id && expected_id - next <= MAX_STEPPABLE_GAP {
                if !self.step_over(expected_id - next) {
                    return TryPlace::Full;
                }
            } else {
                let nothing_to_lose = self.ring.is_empty() || self.ring.min_essential_id()
                    >= self.ring.next_entry_id();
                if !nothing_to_lose {
                    return TryPlace::Full;
                }
                if !self.reseed(expected_id) {
                    return TryPlace::Full;
                }
                proof {
                    lemma_reinitialised_len(before.ring, expected_id);
                }
            }
        }
        assert((self@, true) == before.synced(expected_id));
        assert(self@.ring.next == expected_id);
        let (outcome, opened_page) = self.append_locked(record);
        match outcome {
            AppendOutcome::TooLarge => TryPlace::TooLarge,
            AppendOutcome::Full => TryPlace::Full,
            AppendOutcome::Cached(_) => {
                let flush = self.unwritten >= self.flush_watermark;
                let placement = self.charge_paged(record.len(), opened_page);
                TryPlace::Placed { placement, flush }
            },
        }
    }
}

proof fn lemma_ring_skipped_wf(r: RingView)
    requires
        r.wf(),
        r.next < u64::MAX,
    ensures
        r.skipped() matches Some(s) ==> s.wf() && s.pages.len() == r.pages.len() && s.next == r.next
            + 1,
{
    if r.pages[r.active].is_empty() {
        wal_ring_v1::lemma_stepped_wf(r);
    } else if let Some(k) = r.target() {
        assert(r.is_target(k));
        wal_ring_v1::lemma_rotated_wf(r, k);
        wal_ring_v1::lemma_stepped_wf(r.rotated(k));
    }
}

/// Stepping over an id leaves a well-formed pool.
pub proof fn lemma_pool_skipped_wf(v: PoolView)
    requires
        v.wf(),
        v.ring.next < u64::MAX,
    ensures
        v.skipped() matches Some(w) ==> w.wf() && w.ring.next == v.ring.next + 1,
{
    lemma_ring_skipped_wf(v.ring);
    if let Some(r) = v.ring.skipped() {
        let w = v.skipped()->0;
        lemma_evicted_irrelevant(r);
        assert(w.ring.pages == r.pages);
        if let Some(k) = v.ring.target() {
            assert(v.ring.is_target(k));
        }
        assert forall|k: int| 0 <= k < w.written.len() implies is_boundary(
            w.ring.pages[k],
            #[trigger] w.written[k],
        ) by {
            assert(is_boundary(v.ring.pages[k], v.written[k]));
            if k == r.active {
                lemma_zero_is_boundary(w.ring.pages[k]);
            } else {
                assert(w.ring.pages[k] == v.ring.pages[k]);
            }
        }
    }
}

/// Starting over leaves a well-formed pool with nothing in it.
pub proof fn lemma_reseeded_wf(v: PoolView, first: u64)
    requires
        v.wf(),
    ensures
        v.reseeded(first) matches Some(w) ==> w.wf() && w.ring.next == first && w.ring.is_empty()
            && w.ring.active < w.ring.pages.len(),
{
    lemma_reinitialised_len(v.ring, first);
    if let Some(w) = v.reseeded(first) {
        wal_ring_v1::lemma_reinitialised_wf(v.ring, first);
        assert forall|k: int| 0 <= k < w.written.len() implies is_boundary(
            w.ring.pages[k],
            #[trigger] w.written[k],
        ) by {
            lemma_zero_is_boundary(w.ring.pages[k]);
        }
    }
}

pub proof fn lemma_reinitialised_len(r: RingView, first: u64)
    requires
        r.wf(),
    ensures
        r.reinitialised(first) matches Some(s) ==> s.pages.len() == r.pages.len() && s.next
            == first && (forall|k: int|
            0 <= k < s.pages.len() ==> (#[trigger] s.pages[k]).is_empty()),
{
    if r.reinitialised(first) is Some && r.pages[0].pins != 0 {
        let j = choose|j: int| 0 <= j < r.pages.len() && (#[trigger] r.pages[j]).pins == 0;
        wal_ring_v1::lemma_first_free_exists(r, j);
        let k = choose|k: int| r.is_first_free(k);
        assert(r.is_first_free(k));
    }
}

// ---------------------------------------------------------------------------
// The file writer's side.

/// Whether runs are exactly those that may be written to file `epoch`, with
/// their bytes, in id order.
pub open spec fn pending_is(v: PoolView, out: Seq<(PendingWrite, Seq<u8>)>, epoch: u64) -> bool {
    &&& forall|i: int, j: int|
        0 <= i < j < out.len() ==> (#[trigger] out[i]).0.last_entry_id < (
        #[trigger] out[j]).0.first_entry_id
    &&& forall|i: int|
        0 <= i < out.len() ==> {
            let w = (#[trigger] out[i]).0;
            &&& w.page < v.ring.pages.len()
            &&& v.run(w.page as int, epoch) == Some(w)
            &&& out[i].1 == v.ring.pages[w.page as int].bytes().subrange(w.from as int, w.to as int)
        }
    &&& forall|k: int|
        0 <= k < v.ring.pages.len() && #[trigger] v.run(k, epoch) is Some ==> exists|i: int|
            0 <= i < out.len() && (#[trigger] out[i]).0.page == k
}

/// Runs by the contents of their buffers.
pub open spec fn pending_views(out: Seq<(PendingWrite, Bytes)>) -> Seq<(PendingWrite, Seq<u8>)> {
    Seq::new(out.len(), |i: int| (out[i].0, buf::bytes_of(out[i].1)))
}

/// A run lies within its page and ends with an entry.
pub proof fn lemma_run_bounds(v: PoolView, k: int, epoch: u64)
    requires
        v.wf(),
        0 <= k < v.ring.pages.len(),
    ensures
        v.run(k, epoch) matches Some(w) ==> {
            let p = v.ring.pages[k];
            &&& w.page == k
            &&& w.from == v.written[k]
            &&& w.from < w.to <= p.bytes().len()
            &&& is_boundary(p, w.from as nat)
            &&& is_boundary(p, w.to as nat)
            &&& p.first <= w.first_entry_id <= w.last_entry_id < p.end()
            &&& w.from == p.offset(w.first_entry_id - p.first)
            &&& w.to == p.offset(w.last_entry_id - p.first + 1)
        },
{
    if let Some(w) = v.run(k, epoch) {
        let p = v.ring.pages[k];
        assert(is_boundary(p, v.written[k]));
        lemma_boundary_bound(p, v.written[k]);
        let i = w.last_entry_id - p.first + 1;
        wal_page::lemma_offset_monotone(p, i, p.records.len() as int);
        assert(p.wf(v.ring.page_size));
        let a = entries_before(p, v.written[k]);
        assert(0 <= a <= p.records.len() && p.offset(a) == v.written[k]);
        if a >= i {
            wal_page::lemma_offset_monotone(p, i, a);
        }
    }
}

impl PoolView {
    /// A writer's file begins: whatever the pages hold is not its to write.
    pub open spec fn armed(self, max_file_size: u64, header_len: u64) -> PoolView {
        PoolView {
            fill: Some(
                FileFill {
                    used: header_len,
                    max: max_file_size,
                    header_len,
                    has_written: false,
                    epoch: 0,
                },
            ),
            written: Seq::new(
                self.written.len(),
                |k: int| self.ring.pages[k].bytes().len(),
            ),
            epochs: Seq::new(self.epochs.len(), |k: int| 0u64),
            handed_through: None,
            ..self
        }
    }

    /// Everything below `id` is on disk.
    pub open spec fn durable(self, id: u64) -> PoolView {
        if id <= self.ring.essential {
            self
        } else {
            PoolView { ring: RingView { essential: id, ..self.ring }, ..self }.absorbed()
        }
    }

    /// Everything below `id` is on disk, and the pages that are not needed any
    /// more are given up.
    pub open spec fn durable_in(self, id: u64) -> PoolView {
        if id <= self.ring.essential {
            self
        } else {
            let ring = shrunk_down(RingView { essential: id, ..self.ring }, self.floor);
            PoolView {
                ring,
                written: self.written.take(ring.pages.len() as int),
                epochs: self.epochs.take(ring.pages.len() as int),
                ..self
            }.absorbed()
        }
    }

    /// An empty page more.
    pub open spec fn grown(self) -> PoolView {
        PoolView {
            ring: self.ring.grown(),
            written: self.written.push(0),
            epochs: self.epochs.push(0),
            ..self
        }
    }
}

/// A ring with as many top pages given up as may be.
pub open spec fn shrunk_down(r: RingView, floor: nat) -> RingView
    decreases r.pages.len(),
{
    if r.can_shrink(floor) {
        shrunk_down(r.shrunk(), floor)
    } else {
        r
    }
}

pub proof fn lemma_essential_wf(r: RingView, id: u64)
    requires
        r.wf(),
    ensures
        (RingView { essential: id, ..r }).wf(),
{
    let s = RingView { essential: id, ..r };
    assert forall|i: int, j: int|
        #![trigger s.pages[i], s.pages[j]]
        0 <= i < s.pages.len() && 0 <= j < s.pages.len() && i != j && !s.pages[i].is_empty()
            && !s.pages[j].is_empty() implies s.apart(i, j) by {
        assert(r.apart(i, j));
    }
}

/// Giving up top pages leaves the others as they are.
pub proof fn lemma_shrunk_down(r: RingView, floor: nat)
    requires
        r.wf(),
    ensures
        shrunk_down(r, floor).wf(),
        1 <= shrunk_down(r, floor).pages.len() <= r.pages.len(),
        shrunk_down(r, floor).pages == r.pages.take(shrunk_down(r, floor).pages.len() as int),
        shrunk_down(r, floor).active == r.active,
        shrunk_down(r, floor).next == r.next,
        shrunk_down(r, floor).essential == r.essential,
        !shrunk_down(r, floor).can_shrink(floor),
        shrunk_down(r, floor).first_slot == r.first_slot,
        shrunk_down(r, floor).ring_id == r.ring_id,
        shrunk_down(r, floor).page_size == r.page_size,
    decreases r.pages.len(),
{
    if r.can_shrink(floor) {
        wal_ring_v1::lemma_shrunk_wf(r);
        lemma_shrunk_down(r.shrunk(), floor);
        let n = shrunk_down(r, floor).pages.len() as int;
        assert(r.shrunk().pages.take(n) =~= r.pages.take(n));
    } else {
        assert(r.pages.take(r.pages.len() as int) =~= r.pages);
    }
}

impl PagePool {
    /// The bytes that have been appended but not written to file `epoch`, as
    /// runs in id order: never a record of another file, and never one that
    /// the writer has not taken on. Nothing is marked as written: a run comes
    /// back until it is committed.
    pub fn take_pending(&self, epoch: u64) -> (out: Vec<(PendingWrite, Bytes)>)
        requires
            self.wf(),
        ensures
            pending_is(self@, pending_views(out@), epoch),
    {
        let ghost v = self@;
        let mut out: Vec<(PendingWrite, Bytes)> = Vec::new();
        let bound: u64 = match self.handed_through {
            Some(b) => b,
            None => {
                return out;
            },
        };
        let order = self.ring.pages_in_order();
        let mut t: usize = 0;
        while t < order.len()
            invariant
                self.wf(),
                v == self@,
                v.handed_through == Some(bound),
                wal_ring_range::in_page_order(v.ring, order@),
                t <= order@.len(),
                forall|i: int, j: int|
                    0 <= i < j < out@.len() ==> (#[trigger] out@[i]).0.last_entry_id < (
                    #[trigger] out@[j]).0.first_entry_id,
                forall|i: int|
                    0 <= i < out@.len() ==> {
                        let w = (#[trigger] out@[i]).0;
                        &&& w.page < v.ring.pages.len()
                        &&& v.run(w.page as int, epoch) == Some(w)
                        &&& buf::bytes_of(out@[i].1)
                            == v.ring.pages[w.page as int].bytes().subrange(
                            w.from as int,
                            w.to as int,
                        )
                    },
                forall|i: int, u: int|
                    0 <= i < out@.len() && t <= u < order@.len() ==> (
                    #[trigger] out@[i]).0.last_entry_id < v.ring.pages[(
                    #[trigger] order@[u]) as int].first,
                forall|u: int|
                    0 <= u < t && v.run((#[trigger] order@[u]) as int, epoch) is Some
                        ==> exists|i: int|
                        0 <= i < out@.len() && (#[trigger] out@[i]).0.page == order@[u],
            decreases order@.len() - t,
        {
            let k: usize = order[t];
            let ghost before = out@;
            let ghost page = v.ring.pages[k as int];
            proof {
                assert(order@[t as int] == k);
                lemma_run_bounds(v, k as int, epoch);
                assert(page.wf(v.ring.page_size));
                assert(is_boundary(page, v.written[k as int]));
                lemma_boundary_bound(page, v.written[k as int]);
                lemma_end_is_boundary(page);
            }
            match (self.ring.page_first_entry_id(k), self.ring.page_last_entry_id(k)) {
                (Some(first), Some(page_last)) => {
                    if self.page_epoch[k] == epoch && first <= bound {
                        let last: u64 = if page_last <= bound {
                            page_last
                        } else {
                            bound
                        };
                        let to: usize = self.ring.page_entry_offset(k, (last - first + 1) as usize);
                        let from: usize = self.written[k];
                        if from < to {
                            let done: usize = self.count_written(k);
                            let w = PendingWrite {
                                page: k,
                                from,
                                to,
                                first_entry_id: first + done as u64,
                                last_entry_id: last,
                            };
                            assert(v.run(k as int, epoch) == Some(w));
                            let bytes = slice_subrange(self.ring.page_bytes(k), from, to);
                            out.push((w, buf::bytes_copy(bytes)));
                            assert(out@[before.len() as int].0.page == k);
                        }
                    }
                },
                _ => {},
            }
            proof {
                assert forall|u: int|
                    0 <= u < t + 1 && v.run(
                        (#[trigger] order@[u]) as int,
                        epoch,
                    ) is Some implies exists|i: int|
                    0 <= i < out@.len() && (#[trigger] out@[i]).0.page == order@[u] by {
                    if u < t {
                        let i = choose|i: int|
                            0 <= i < before.len() && (#[trigger] before[i]).0.page == order@[u];
                        assert(out@[i].0.page == order@[u]);
                    }
                }
                assert forall|i: int, u: int|
                    0 <= i < out@.len() && t + 1 <= u < order@.len() implies (
                #[trigger] out@[i]).0.last_entry_id < v.ring.pages[(
                #[trigger] order@[u]) as int].first by {
                    assert(v.ring.pages[order@[t as int] as int].end()
                        <= v.ring.pages[order@[u] as int].first);
                }
            }
            t = t + 1;
        }
        proof {
            let vs = pending_views(out@);
            assert forall|k: int|
                0 <= k < v.ring.pages.len() && #[trigger] v.run(k, epoch) is Some implies exists|
                i: int,
            |
                0 <= i < vs.len() && (#[trigger] vs[i]).0.page == k by {
                assert(!v.ring.pages[k].is_empty());
                assert(order@.contains(k as usize));
                let u = choose|u: int| 0 <= u < order@.len() && order@[u] == k as usize;
                let i = choose|i: int|
                    0 <= i < out@.len() && (#[trigger] out@[i]).0.page == order@[u];
                assert(vs[i].0.page == k);
            }
        }
        out
    }

    /// How many entries of a page are written.
    fn count_written(&self, k: usize) -> (res: usize)
        requires
            self.wf(),
            k < self@.ring.pages.len(),
        ensures
            res == entries_before(self@.ring.pages[k as int], self@.written[k as int]),
            res <= self@.ring.pages[k as int].records.len(),
    {
        let ghost p = self@.ring.pages[k as int];
        let ghost a = entries_before(p, self@.written[k as int]);
        let written: usize = self.written[k];
        proof {
            assert(is_boundary(p, self@.written[k as int]));
            assert(0 <= a <= p.records.len() && p.offset(a) == written);
            assert(p.wf(self@.ring.page_size));
            lemma_zero_is_boundary(p);
        }
        let mut i: usize = 0;
        let mut at: usize = 0;
        while at < written
            invariant
                self.wf(),
                k < self@.ring.pages.len(),
                p == self@.ring.pages[k as int],
                p.wf(self@.ring.page_size),
                0 <= a <= p.records.len(),
                p.offset(a) == written,
                i <= a,
                at == p.offset(i as int),
            decreases a - i,
        {
            proof {
                wal_page::lemma_offset_monotone(p, i as int, a);
                wal_page::lemma_offset_monotone(p, (i + 1) as int, p.records.len() as int);
            }
            i = i + 1;
            at = self.ring.page_entry_offset(k, i);
        }
        proof {
            lemma_entries_before(p, i as int);
            wal_page::lemma_offset_monotone(p, i as int, a);
        }
        i
    }

    /// Whether a run lies on a page and ends where an entry of it ends.
    pub fn run_fits(&self, write: &PendingWrite) -> (res: bool)
        requires
            self.wf(),
        ensures
            res == ends_with_entry(self@.ring, *write),
    {
        let k: usize = write.page;
        if k >= self.ring.page_count() {
            return false;
        }
        let ghost p = self@.ring.pages[k as int];
        let n: usize = self.ring.page_len(k);
        assert(p.wf(self@.ring.page_size));
        let mut i: usize = 0;
        while i <= n
            invariant
                self.wf(),
                k < self@.ring.pages.len(),
                p == self@.ring.pages[k as int],
                n == p.records.len(),
                n < usize::MAX,
                k == write.page,
                i <= n + 1,
                forall|j: int| 0 <= j < i ==> #[trigger] p.offset(j) != write.to,
            decreases n + 1 - i,
        {
            let at: usize = self.ring.page_entry_offset(k, i);
            if at == write.to {
                assert(p.offset(i as int) == write.to as nat);
                return true;
            }
            i = i + 1;
        }
        false
    }

    /// Marks a run as written. The cursor only moves forward.
    pub fn commit_written(&mut self, write: &PendingWrite)
        requires
            old(self).wf(),
            ends_with_entry(old(self)@.ring, *write),
        ensures
            final(self).wf(),
            final(self)@ == old(self)@.committed(*write),
    {
        let ghost before = self@;
        let k: usize = write.page;
        if write.to > self.written[k] {
            let taken: usize = write.to - self.written[k];
            self.written.set(k, write.to);
            self.unwritten = self.unwritten.saturating_sub(taken);
        }
        proof {
            let want = before.committed(*write);
            assert(self@.written =~= want.written);
            assert forall|j: int| 0 <= j < self@.written.len() implies is_boundary(
                self@.ring.pages[j],
                #[trigger] self@.written[j],
            ) by {
                assert(is_boundary(before.ring.pages[j], before.written[j]));
            }
        }
    }

    /// The writer has taken on every entry up to `entry_id`, in id order.
    pub fn note_handed_over(&mut self, entry_id: u64)
        requires
            old(self).wf(),
        ensures
            final(self).wf(),
            final(self)@ == (PoolView {
                handed_through: wal_ring_v1::raised(old(self)@.handed_through, entry_id),
                ..old(self)@
            }),
    {
        let ghost before = self@;
        self.handed_through =
        Some(
            match self.handed_through {
                Some(prev) => if prev < entry_id {
                    entry_id
                } else {
                    prev
                },
                None => entry_id,
            },
        );
        assert(self@.written =~= before.written);
        assert(self@.ring == before.ring);
    }

    /// Records that every entry below `first_non_durable_id` is on disk. Only
    /// to be called once a sync that covers those entries has returned. The
    /// boundary never moves back.
    pub fn mark_durable(&mut self, first_non_durable_id: u64)
        requires
            old(self).wf(),
        ensures
            final(self).wf(),
            final(self)@ == old(self)@.durable(first_non_durable_id),
    {
        let ghost before = self@;
        if first_non_durable_id <= self.ring.min_essential_id() {
            return;
        }
        self.ring.set_essential(first_non_durable_id);
        proof {
            lemma_essential_wf(before.ring, first_non_durable_id);
            lemma_evicted_irrelevant(self@.ring);
            assert(self@.written =~= before.written);
        }
        self.absorb_eviction();
        proof {
            assert forall|j: int| 0 <= j < self@.written.len() implies is_boundary(
                self@.ring.pages[j],
                #[trigger] self@.written[j],
            ) by {
                assert(is_boundary(before.ring.pages[j], before.written[j]));
            }
        }
    }

    /// As [`PagePool::mark_durable`], for a pool whose pages come from an
    /// arena: pages at the top of its range that may be written over go back,
    /// down to the pool's floor.
    pub fn mark_durable_in(&mut self, arena: &mut WalArena, first_non_durable_id: u64)
        requires
            old(self).wf(),
            old(self)@.ring.backed_by(old(arena)@),
        ensures
            final(self).wf(),
            final(self)@ == old(self)@.durable_in(first_non_durable_id),
            final(self)@.ring.backed_by(final(arena)@),
            final(arena)@ == old(arena)@.given(
                old(self)@.ring.first_slot->0 + final(self)@.ring.pages.len() as int,
                old(self)@.ring.pages.len() - final(self)@.ring.pages.len(),
                POOL_FREE,
            ),
    {
        let ghost before = self@;
        let ghost slots = arena@;
        let ghost n0 = before.ring.pages.len() as int;
        let ghost first = before.ring.first_slot->0 as int;
        if first_non_durable_id <= self.ring.min_essential_id() {
            assert(slots.given(first + n0, 0, POOL_FREE).owners =~= slots.owners);
            return;
        }
        self.ring.set_essential(first_non_durable_id);
        let ghost goal = shrunk_down(self@.ring, before.floor);
        let mut going: bool = true;
        proof {
            lemma_shrunk_down(self@.ring, before.floor);
            assert(slots.given(first + n0, 0, POOL_FREE).owners =~= slots.owners);
        }
        while going
            invariant
                self.ring.wf(),
                self@.ring.backed_by(arena@),
                self@.ring.first_slot == before.ring.first_slot,
                first == before.ring.first_slot->0 as int,
                self@.ring.pages.len() <= n0,
                n0 == before.ring.pages.len(),
                shrunk_down(self@.ring, before.floor) == goal,
                !going ==> !self@.ring.can_shrink(before.floor),
                arena@ == slots.given(
                    first + self@.ring.pages.len(),
                    n0 - self@.ring.pages.len(),
                    POOL_FREE,
                ),
                slots.owners.len() >= first + n0,
                self@ == (PoolView { ring: self@.ring, ..before }),
            decreases self@.ring.pages.len() + (if going {
                    1int
                } else {
                    0int
                }),
        {
            let ghost here = self@;
            let floor: usize = self.floor;
            going = self.ring.shrink(arena, floor);
            proof {
                assert(self@.written =~= here.written);
                let m = self@.ring.pages.len() as int;
                assert(arena@.owners =~= slots.given(first + m, n0 - m, POOL_FREE).owners);
            }
        }
        let pages: usize = self.ring.page_count();
        self.written.truncate(pages);
        self.page_epoch.truncate(pages);
        proof {
            assert(self@.ring == goal);
            lemma_evicted_irrelevant(goal);
            assert(self@.written =~= before.written.take(pages as int));
            assert(self@.epochs =~= before.epochs.take(pages as int));
        }
        self.absorb_eviction();
        proof {
            assert forall|j: int| 0 <= j < self@.written.len() implies is_boundary(
                self@.ring.pages[j],
                #[trigger] self@.written[j],
            ) by {
                assert(is_boundary(before.ring.pages[j], before.written[j]));
            }
        }
    }

    /// Takes the free arena slot above the pool's range, if it is free.
    pub fn try_grow(&mut self, arena: &mut WalArena) -> (res: bool)
        requires
            old(self).wf(),
            old(self)@.ring.backed_by(old(arena)@),
        ensures
            final(self).wf(),
            final(self)@.ring.backed_by(final(arena)@),
            res == old(self)@.ring.can_grow(old(arena)@),
            if res {
                &&& final(self)@ == old(self)@.grown()
                &&& final(arena)@ == old(arena)@.given(
                    old(self)@.ring.first_slot->0 + old(self)@.ring.pages.len() as int,
                    1,
                    old(self)@.ring.ring_id,
                )
            } else {
                &&& final(self)@ == old(self)@
                &&& final(arena)@ == old(arena)@
            },
    {
        let ghost before = self@;
        if !self.ring.grow(arena) {
            assert(self@.written =~= before.written);
            return false;
        }
        self.written.push(0);
        self.page_epoch.push(0);
        proof {
            let want = before.grown();
            assert(self@.written =~= want.written);
            assert(self@.epochs =~= want.epochs);
            assert forall|j: int| 0 <= j < self@.written.len() implies is_boundary(
                self@.ring.pages[j],
                #[trigger] self@.written[j],
            ) by {
                if j < before.written.len() {
                    assert(is_boundary(before.ring.pages[j], before.written[j]));
                } else {
                    lemma_zero_is_boundary(self@.ring.pages[j]);
                }
            }
        }
        true
    }

    /// Hands every page back to the arena, for a queue that is shutting down,
    /// unless some page may not be written over.
    pub fn release_to_arena(&self, arena: &mut WalArena)
        requires
            self.wf(),
            self@.ring.backed_by(old(arena)@),
        ensures
            if all_reusable(self@.ring) {
                final(arena)@ == old(arena)@.given(
                    self@.ring.first_slot->0 as int,
                    self@.ring.pages.len() as int,
                    POOL_FREE,
                ).without_label(self@.ring.ring_id)
            } else {
                final(arena)@ == old(arena)@
            },
    {
        if let Some(range) = self.ring.slot_range() {
            if self.may_be_given_up() {
                arena.release(range, self.ring.ring_id());
                arena.forget_label(self.ring.ring_id());
            }
        }
    }

    /// Whether every record on every page is on disk, which is what a close
    /// needs to know. A page may still be held by a reader.
    pub fn is_fully_durable(&self) -> (res: bool)
        requires
            self.wf(),
        ensures
            res == fully_durable(self@.ring),
    {
        let essential: u64 = self.ring.min_essential_id();
        let n: usize = self.ring.page_count();
        let mut k: usize = 0;
        while k < n
            invariant
                self.wf(),
                n == self@.ring.pages.len(),
                essential == self@.ring.essential,
                k <= n,
                forall|j: int|
                    0 <= j < k ==> on_disk(#[trigger] self@.ring.pages[j], essential),
            decreases n - k,
        {
            if let Some(last) = self.ring.page_last_entry_id(k) {
                if last >= essential {
                    assert(!on_disk(self@.ring.pages[k as int], essential));
                    return false;
                }
            }
            k = k + 1;
        }
        true
    }

    /// Whether every page may be written over: everything is on disk and no
    /// reader holds a page.
    fn may_be_given_up(&self) -> (res: bool)
        requires
            self.wf(),
        ensures
            res == all_reusable(self@.ring),
    {
        let essential: u64 = self.ring.min_essential_id();
        let n: usize = self.ring.page_count();
        let mut k: usize = 0;
        while k < n
            invariant
                self.wf(),
                n == self@.ring.pages.len(),
                essential == self@.ring.essential,
                k <= n,
                forall|j: int|
                    0 <= j < k ==> (#[trigger] self@.ring.pages[j]).reusable(essential),
            decreases n - k,
        {
            if !self.ring.page_is_reusable(k, essential) {
                return false;
            }
            k = k + 1;
        }
        true
    }

    /// Takes the decision where files end over from the writer. Whatever the
    /// pages hold is not this writer's to write: it writes only what it is told
    /// about from here on.
    pub fn arm_file_fill(&mut self, max_file_size: u64, header_len: u64)
        requires
            old(self).wf(),
        ensures
            final(self).wf(),
            final(self)@ == old(self)@.armed(max_file_size, header_len),
    {
        let ghost before = self@;
        self.fill =
        Some(
            FileFill {
                used: header_len,
                max: max_file_size,
                header_len,
                has_written: false,
                epoch: 0,
            },
        );
        let n: usize = self.ring.page_count();
        let mut k: usize = 0;
        while k < n
            invariant
                k <= n,
                n == self.written@.len(),
                n == self.page_epoch@.len(),
                n == before.ring.pages.len(),
                self.ring.wf(),
                self.ring@ == before.ring,
                forall|j: int|
                    0 <= j < k ==> #[trigger] self.written@[j] == before.ring.pages[j].bytes().len(),
                forall|j: int| 0 <= j < k ==> #[trigger] self.page_epoch@[j] == 0,
                self@.fill == before.armed(max_file_size, header_len).fill,
                self@.unwritten == before.unwritten,
                self@.cache_floor == before.cache_floor,
                self@.drainer == before.drainer,
                self@.flush_watermark == before.flush_watermark,
                self@.floor == before.floor,
            decreases n - k,
        {
            let len: usize = self.ring.page_bytes(k).len();
            self.written.set(k, len);
            self.page_epoch.set(k, 0);
            k = k + 1;
        }
        self.handed_through = None;
        proof {
            let want = before.armed(max_file_size, header_len);
            assert(self@.written =~= want.written);
            assert(self@.epochs =~= want.epochs);
            assert forall|j: int| 0 <= j < self@.written.len() implies is_boundary(
                self@.ring.pages[j],
                #[trigger] self@.written[j],
            ) by {
                lemma_end_is_boundary(self@.ring.pages[j]);
            }
        }
    }
}

/// Whether every record of a page is on disk, where those below `essential`
/// are.
pub open spec fn on_disk(p: PageView, essential: u64) -> bool {
    p.is_empty() || p.end() - 1 < essential
}

/// Whether every record on every page of a ring is on disk.
pub open spec fn fully_durable(r: RingView) -> bool {
    forall|k: int| 0 <= k < r.pages.len() ==> on_disk(#[trigger] r.pages[k], r.essential)
}

/// Whether every page of a ring may be written over.
pub open spec fn all_reusable(r: RingView) -> bool {
    forall|k: int| 0 <= k < r.pages.len() ==> (#[trigger] r.pages[k]).reusable(r.essential)
}

// ---------------------------------------------------------------------------
// Reads.

/// How many ids of a page lie in `[start, end]`.
pub open spec fn in_range(p: PageView, start: u64, end: u64) -> nat {
    let low = if p.first < start {
        start as int
    } else {
        p.first as int
    };
    let high = if p.end() - 1 < end {
        p.end() - 1
    } else {
        end as int
    };
    if p.is_empty() || high < low {
        0
    } else {
        (high - low + 1) as nat
    }
}

/// How many of the first `n` pages are pinned.
pub open spec fn pinned_below(r: RingView, n: int) -> int
    decreases n,
{
    if n <= 0 {
        0
    } else {
        pinned_below(r, n - 1) + (if r.pages[n - 1].pins > 0 {
            1int
        } else {
            0int
        })
    }
}

/// How many pages reads may hold pinned.
pub open spec fn pin_share(page_count: int) -> int {
    if page_count / 2 < page_count - 1 {
        page_count / 2
    } else {
        page_count - 1
    }
}

/// What a read pins: how many more pages it may, how many payloads it has
/// pinned, and how many on each page.
pub struct PinPlan {
    pub budget: int,
    pub payloads: int,
    pub quotas: Seq<nat>,
}

/// The plan for the first `n` pages. A page that is not pinned yet is pinned
/// only within the share, and never the one that is being appended to. What
/// is not pinned is copied.
pub open spec fn pin_plan(r: RingView, start: u64, end: u64, n: int) -> PinPlan
    decreases n,
{
    if n <= 0 {
        let left = pin_share(r.pages.len() as int) - pinned_below(r, r.pages.len() as int);
        PinPlan {
            budget: if left < 0 {
                0
            } else {
                left
            },
            payloads: 0,
            quotas: Seq::empty(),
        }
    } else {
        let k = n - 1;
        let plan = pin_plan(r, start, end, k);
        let p = r.pages[k];
        let count = in_range(p, start, end);
        if count == 0 || (p.pins == 0 && (plan.budget == 0 || k == r.active)) {
            PinPlan { quotas: plan.quotas.push(0), ..plan }
        } else {
            let left = PIN_PAYLOADS_PER_READ - plan.payloads;
            let quota = if count < left {
                count as int
            } else {
                left
            };
            PinPlan {
                budget: if p.pins == 0 {
                    plan.budget - 1
                } else {
                    plan.budget
                },
                payloads: plan.payloads + quota,
                quotas: plan.quotas.push(quota as nat),
            }
        }
    }
}

/// The plan for all pages.
pub open spec fn full_plan(r: RingView, start: u64, end: u64) -> PinPlan {
    pin_plan(r, start, end, r.pages.len() as int)
}

/// Machine integers as numbers.
pub open spec fn as_nats(s: Seq<usize>) -> Seq<nat> {
    Seq::new(s.len(), |k: int| s[k] as nat)
}

/// A ring with a plan's pins.
pub open spec fn with_quotas(r: RingView, quotas: Seq<nat>) -> RingView {
    RingView {
        pages: Seq::new(
            r.pages.len(),
            |k: int| PageView { pins: (r.pages[k].pins + quotas[k]) as u32, ..r.pages[k] },
        ),
        ..r
    }
}

/// A plan has a quota for each page, none above its number of payloads.
pub proof fn lemma_pin_plan_bounds(r: RingView, start: u64, end: u64, n: int)
    requires
        0 <= n <= r.pages.len(),
    ensures
        ({
            let plan = pin_plan(r, start, end, n);
            &&& plan.quotas.len() == n
            &&& 0 <= plan.payloads <= PIN_PAYLOADS_PER_READ
            &&& 0 <= plan.budget
            &&& forall|k: int|
                0 <= k < n ==> (#[trigger] plan.quotas[k]) <= plan.payloads && plan.quotas[k]
                    <= in_range(r.pages[k], start, end)
        }),
    decreases n,
{
    if n > 0 {
        lemma_pin_plan_bounds(r, start, end, n - 1);
        let before = pin_plan(r, start, end, n - 1);
        let plan = pin_plan(r, start, end, n);
        assert forall|k: int| 0 <= k < n implies (#[trigger] plan.quotas[k]) <= plan.payloads
            && plan.quotas[k] <= in_range(r.pages[k], start, end) by {
            if k < n - 1 {
                assert(plan.quotas[k] == before.quotas[k]);
            }
        }
    }
}

/// A record that a read hands out, and the page that is pinned for it, if any.
pub struct PinnedRecord {
    pub id: u64,
    pub data: Bytes,
    pub page: Option<usize>,
}

/// Records by id and contents.
pub open spec fn pinned_views(out: Seq<PinnedRecord>) -> Seq<(u64, Seq<u8>)> {
    Seq::new(out.len(), |i: int| (out[i].id, buf::bytes_of(out[i].data)))
}

/// The page that a plan pins for an id, if any: on each page the lowest ids of
/// the range are pinned.
pub open spec fn planned_page(r: RingView, start: u64, quotas: Seq<nat>, id: u64) -> Option<usize> {
    let k = r.page_of(id as int);
    let p = r.pages[k];
    let low = if p.first < start {
        start as int
    } else {
        p.first as int
    };
    if id - low < quotas[k] {
        Some(k as usize)
    } else {
        None
    }
}

impl PoolView {
    /// Where a read that asks for `start` begins.
    pub open spec fn served_from(self, start: u64) -> u64 {
        max_u64(start, self.cache_floor)
    }
}

impl PagePool {
    /// The lowest id that is served from memory, if any is.
    pub fn min_cached_id(&self) -> (res: Option<u64>)
        requires
            self.wf(),
        ensures
            res == self@.min_cached(),
    {
        match self.ring.min_cached_id() {
            None => {
                proof {
                    assert(self@.ring.is_empty());
                }
                None
            },
            Some(lowest) => {
                proof {
                    let r = self@.ring;
                    assert(!r.is_empty()) by {
                        let k = r.page_of(lowest as int);
                        assert(r.pages[k].has(lowest as int));
                    }
                    let m = lowest_id(r);
                    assert(r.has(lowest as int) && (forall|id: int|
                        #[trigger] r.has(id) ==> lowest <= id));
                    assert(r.has(m as int));
                }
                let floor: u64 = if lowest < self.cache_floor {
                    self.cache_floor
                } else {
                    lowest
                };
                if floor < self.ring.next_entry_id() {
                    Some(floor)
                } else {
                    None
                }
            },
        }
    }

    /// The records with ids in `[start, end]` that are served from memory, in
    /// id order.
    pub fn collect_range(&self, start: u64, end: u64) -> (out: Vec<(u64, Vec<u8>)>)
        requires
            self.wf(),
        ensures
            wal_ring_range::range_is(
                self@.ring,
                wal_ring_range::views(out@),
                self@.served_from(start),
                end,
            ),
            memory_laws::is_all_served(self@, wal_ring_range::views(out@), start, end),
    {
        let from: u64 = if start < self.cache_floor {
            self.cache_floor
        } else {
            start
        };
        let out = if from > end {
            Vec::new()
        } else {
            self.ring.collect_range(from, end)
        };
        proof {
            memory_laws::lemma_all_served(self@, wal_ring_range::views(out@), start, end);
        }
        out
    }

    fn count_pinned(&self) -> (n: usize)
        requires
            self.wf(),
        ensures
            n == pinned_below(self@.ring, self@.ring.pages.len() as int),
            n <= self@.ring.pages.len(),
    {
        let count: usize = self.ring.page_count();
        let mut n: usize = 0;
        let mut k: usize = 0;
        while k < count
            invariant
                count == self@.ring.pages.len(),
                k <= count,
                n <= k,
                n == pinned_below(self@.ring, k as int),
            decreases count - k,
        {
            if self.ring.page_pin_count(k) > 0 {
                n = n + 1;
            }
            k = k + 1;
        }
        n
    }

    /// How many ids of page `k` lie in `[start, end]`.
    fn count_in_range(&self, k: usize, start: u64, end: u64) -> (n: usize)
        requires
            self.wf(),
            k < self@.ring.pages.len(),
        ensures
            n == in_range(self@.ring.pages[k as int], start, end),
    {
        let len: usize = self.ring.page_len(k);
        assert(self@.ring.pages[k as int].wf(self@.ring.page_size));
        match (self.ring.page_first_entry_id(k), self.ring.page_last_entry_id(k)) {
            (Some(first), Some(last)) => {
                let low: u64 = if first < start {
                    start
                } else {
                    first
                };
                let high: u64 = if last < end {
                    last
                } else {
                    end
                };
                if high < low {
                    0
                } else {
                    (high - low) as usize + 1
                }
            },
            _ => 0,
        }
    }

    fn plan_pins(&self, start: u64, end: u64) -> (quotas: Vec<usize>)
        requires
            self.wf(),
        ensures
            quotas@.len() == self@.ring.pages.len(),
            as_nats(quotas@) == full_plan(self@.ring, start, end).quotas,
    {
        let ghost r = self@.ring;
        let count: usize = self.ring.page_count();
        let pinned: usize = self.count_pinned();
        let half: usize = count / PIN_SHARE_DIVISOR;
        let share: usize = if half < count - PIN_RESERVE {
            half
        } else {
            count - PIN_RESERVE
        };
        let mut budget: usize = if share < pinned {
            0
        } else {
            share - pinned
        };
        let active: usize = self.ring.active_page();
        let mut payloads: usize = 0;
        let mut quotas: Vec<usize> = Vec::new();
        let mut k: usize = 0;
        while k < count
            invariant
                self.wf(),
                r == self@.ring,
                count == r.pages.len(),
                active == r.active,
                k <= count,
                quotas@.len() == k,
                payloads <= PIN_PAYLOADS_PER_READ,
                ({
                    let plan = pin_plan(r, start, end, k as int);
                    &&& plan.budget == budget
                    &&& plan.payloads == payloads
                    &&& plan.quotas.len() == k
                    &&& forall|j: int|
                        0 <= j < k ==> (#[trigger] quotas@[j]) as nat == plan.quotas[j]
                }),
            decreases count - k,
        {
            let ghost plan = pin_plan(r, start, end, k as int);
            let ghost before = quotas@;
            let n: usize = self.count_in_range(k, start, end);
            let unpinned = self.ring.page_pin_count(k) == 0;
            if n == 0 || (unpinned && (budget == 0 || k == active)) {
                quotas.push(0);
            } else {
                if unpinned {
                    budget = budget - 1;
                }
                let left: usize = PIN_PAYLOADS_PER_READ - payloads;
                let quota: usize = if n < left {
                    n
                } else {
                    left
                };
                payloads = payloads + quota;
                quotas.push(quota);
            }
            proof {
                let next = pin_plan(r, start, end, k + 1);
                assert forall|j: int| 0 <= j < k + 1 implies (#[trigger] quotas@[j]) as nat
                    == next.quotas[j] by {
                    if j < k {
                        assert(quotas@[j] == before[j]);
                        assert(next.quotas[j] == plan.quotas[j]);
                    }
                }
            }
            k = k + 1;
        }
        assert(as_nats(quotas@) =~= full_plan(r, start, end).quotas);
        quotas
    }

    fn add_pins(&mut self, quotas: &Vec<usize>)
        requires
            old(self).wf(),
            quotas@.len() == old(self)@.ring.pages.len(),
            forall|k: int| 0 <= k < quotas@.len() ==> #[trigger] quotas@[k] <= 4096,
            forall|k: int|
                0 <= k < quotas@.len() ==> (#[trigger] old(self)@.ring.pages[k]).pins
                    + PIN_PAYLOADS_PER_READ <= u32::MAX,
        ensures
            final(self).wf(),
            final(self)@ == (PoolView {
                ring: with_quotas(old(self)@.ring, as_nats(quotas@)),
                ..old(self)@
            }),
    {
        let ghost before = self@;
        let ghost goal = with_quotas(before.ring, as_nats(quotas@));
        let n: usize = quotas.len();
        let mut k: usize = 0;
        while k < n
            invariant
                k <= n,
                n == quotas@.len(),
                before == old(self)@,
                n == before.ring.pages.len(),
                goal == with_quotas(before.ring, as_nats(quotas@)),
                forall|j: int| 0 <= j < n ==> #[trigger] quotas@[j] <= 4096,
                forall|j: int|
                    0 <= j < n ==> (#[trigger] before.ring.pages[j]).pins + PIN_PAYLOADS_PER_READ
                        <= u32::MAX,
                self.ring.wf(),
                self@.ring.pages.len() == n,
                forall|j: int|
                    0 <= j < n ==> #[trigger] self@.ring.pages[j] == (if j < k {
                        goal.pages[j]
                    } else {
                        before.ring.pages[j]
                    }),
                self@ == (PoolView {
                    ring: RingView { pages: self@.ring.pages, ..before.ring },
                    ..before
                }),
            decreases n - k,
        {
            let ghost here = self@;
            assert(quotas@[k as int] <= 4096);
            assert(before.ring.pages[k as int].pins + PIN_PAYLOADS_PER_READ <= u32::MAX);
            assert(self@.ring.pages[k as int] == before.ring.pages[k as int]);
            self.ring.pin_times(k, quotas[k] as u32);
            proof {
                assert(self@.written =~= here.written);
            }
            k = k + 1;
        }
        proof {
            assert(self@.ring.pages =~= goal.pages);
            assert forall|j: int| 0 <= j < self@.written.len() implies is_boundary(
                self@.ring.pages[j],
                #[trigger] self@.written[j],
            ) by {
                assert(is_boundary(before.ring.pages[j], before.written[j]));
                lemma_boundary_same_records(
                    before.ring.pages[j],
                    self@.ring.pages[j],
                    before.written[j],
                );
            }
        }
    }

    /// The records with ids in `[start, end]` that are served from memory, in
    /// id order, with their pages pinned as far as reads may pin them. A record
    /// whose page is given must be followed by one [`PagePool::unpin_page`] of
    /// that page when its reader is done with it.
    pub fn pin_range(&mut self, start: u64, end: u64) -> (out: Vec<PinnedRecord>)
        requires
            old(self).wf(),
            forall|k: int|
                0 <= k < old(self)@.ring.pages.len() ==> (#[trigger] old(self)@.ring.pages[k]).pins
                    + PIN_PAYLOADS_PER_READ <= u32::MAX,
        ensures
            final(self).wf(),
            wal_ring_range::range_is(
                old(self)@.ring,
                pinned_views(out@),
                old(self)@.served_from(start),
                end,
            ),
            memory_laws::is_all_served(old(self)@, pinned_views(out@), start, end),
            ({
                let from = old(self)@.served_from(start);
                let quotas = full_plan(old(self)@.ring, from, end).quotas;
                if from > end {
                    final(self)@ == old(self)@
                } else {
                    &&& final(self)@ == (PoolView {
                        ring: with_quotas(old(self)@.ring, quotas),
                        ..old(self)@
                    })
                    &&& forall|i: int|
                        0 <= i < out@.len() ==> (#[trigger] out@[i]).page == planned_page(
                            old(self)@.ring,
                            from,
                            quotas,
                            out@[i].id,
                        )
                }
            }),
    {
        let ghost r = self@.ring;
        let from: u64 = if start < self.cache_floor {
            self.cache_floor
        } else {
            start
        };
        let mut out: Vec<PinnedRecord> = Vec::new();
        if from > end {
            proof {
                memory_laws::lemma_all_served(self@, pinned_views(out@), start, end);
            }
            return out;
        }
        let quotas = self.plan_pins(from, end);
        let ghost plan = full_plan(r, from, end).quotas;
        proof {
            lemma_pin_plan_bounds(r, from, end, r.pages.len() as int);
        }
        let ps = self.ring.locate_range(from, end);
        let mut i: usize = 0;
        while i < ps.len()
            invariant
                self.wf(),
                r == self@.ring,
                wal_ring_range::covers(r, ps@, from, end),
                quotas@.len() == r.pages.len(),
                as_nats(quotas@) == plan,
                i <= ps@.len(),
                out@.len() == i,
                forall|j: int|
                    0 <= j < i ==> (#[trigger] out@[j]).id == ps@[j].id && buf::bytes_of(
                        out@[j].data,
                    ) == r.record(ps@[j].id as int) && out@[j].page == planned_page(
                        r,
                        from,
                        plan,
                        ps@[j].id,
                    ),
            decreases ps@.len() - i,
        {
            let p = ps[i];
            assert(wal_ring_range::is_at(r, ps@[i as int]));
            proof {
                wal_ring_v1::lemma_record_at(r, p.id as int, p.page as int);
                assert(plan[p.page as int] == quotas@[p.page as int]);
            }
            let first: u64 = p.id - p.index as u64;
            let low: u64 = if first < from {
                from
            } else {
                first
            };
            let page = if p.id - low < quotas[p.page] as u64 {
                Some(p.page)
            } else {
                None
            };
            let data = match self.ring.record(p.page, p.index) {
                Some(b) => buf::bytes_copy(b),
                None => buf::empty_bytes(),
            };
            out.push(PinnedRecord { id: p.id, data, page });
            i = i + 1;
        }
        proof {
            wal_ring_range::lemma_covers_range(r, ps@, pinned_views(out@), from, end);
            memory_laws::lemma_all_served(self@, pinned_views(out@), start, end);
        }
        proof {
            assert forall|k: int| 0 <= k < quotas@.len() implies #[trigger] quotas@[k] <= 4096 by {
                assert(plan[k] == quotas@[k]);
            }
        }
        self.add_pins(&quotas);
        out
    }

    /// Takes back one pin of a page.
    pub fn unpin_page(&mut self, page_index: usize)
        requires
            old(self).wf(),
            page_index < old(self)@.ring.pages.len(),
            old(self)@.ring.pages[page_index as int].pins > 0,
        ensures
            final(self).wf(),
            final(self)@ == (PoolView {
                ring: old(self)@.ring.with_pins(
                    page_index as int,
                    (old(self)@.ring.pages[page_index as int].pins - 1) as u32,
                ),
                ..old(self)@
            }),
    {
        let ghost before = self@;
        self.ring.unpin(page_index);
        proof {
            assert(self@.written =~= before.written);
            assert forall|j: int| 0 <= j < self@.written.len() implies is_boundary(
                self@.ring.pages[j],
                #[trigger] self@.written[j],
            ) by {
                assert(is_boundary(before.ring.pages[j], before.written[j]));
                lemma_boundary_same_records(
                    before.ring.pages[j],
                    self@.ring.pages[j],
                    before.written[j],
                );
            }
        }
    }
}

pub proof fn lemma_boundary_same_records(p: PageView, q: PageView, n: nat)
    requires
        is_boundary(p, n),
        p.records == q.records,
    ensures
        is_boundary(q, n),
{
    let i = choose|i: int| 0 <= i <= p.records.len() && #[trigger] p.offset(i) == n;
    assert(q.offset(i) == n);
}

// ---------------------------------------------------------------------------
// Waiting for a page, and what the pool says of itself.

/// What an appender that may have to wait does next.
#[derive(Debug, Clone, Copy, PartialEq, Eq, Structural)]
pub enum PlaceStep {
    /// The record is on a page. `flush` says that a flush is due.
    Placed { placement: Placement, flush: bool },
    /// Waiting would not help.
    Refused(PoolError),
    /// Ask for a flush, wait for a page, and try again.
    Wait,
}

/// Why a full pool is full.
#[derive(Debug, Clone, Copy, PartialEq, Eq)]
pub struct StallReport {
    pub pinned: usize,
    pub page_count: usize,
    pub durable_before: u64,
    /// The page with the oldest entries, its last id, and its pins.
    pub oldest: Option<(usize, u64, u32)>,
}

impl PoolView {
    /// What an append that has waited since `had_drainer` was so does next. A
    /// pool that never had a drainer may be told by hand what is durable; a
    /// wait that lost its drainer would not end.
    pub open spec fn place_stepped(
        self,
        expected: u64,
        record: Seq<u8>,
        had_drainer: bool,
    ) -> (PoolView, PlaceStep) {
        let (v, outcome) = self.placed(expected, record);
        (
            v,
            match outcome {
                TryPlace::Placed { placement, flush } => PlaceStep::Placed { placement, flush },
                TryPlace::TooLarge => PlaceStep::Refused(PoolError::TooLarge),
                TryPlace::Full => if had_drainer && !self.drainer {
                    PlaceStep::Refused(PoolError::NoDrainer)
                } else {
                    PlaceStep::Wait
                },
            },
        )
    }

    /// Whether a page has the oldest entries.
    pub open spec fn is_oldest(self, k: int) -> bool {
        &&& 0 <= k < self.ring.pages.len()
        &&& !self.ring.pages[k].is_empty()
        &&& forall|j: int|
            0 <= j < self.ring.pages.len() && !(#[trigger] self.ring.pages[j]).is_empty()
                ==> self.ring.pages[k].end() <= self.ring.pages[j].end()
    }
}

proof fn lemma_placed_drainer(v: PoolView, expected: u64, record: Seq<u8>)
    ensures
        v.placed(expected, record).0.drainer == v.drainer,
{
    let gap = expected - v.ring.next;
    if 0 < gap <= MAX_STEPPABLE_GAP {
        lemma_stepped_drainer(v, gap as nat);
    }
}

proof fn lemma_stepped_drainer(v: PoolView, n: nat)
    ensures
        v.stepped_over(n).0.drainer == v.drainer,
    decreases n,
{
    if n > 0 {
        if let Some(w) = v.skipped() {
            lemma_stepped_drainer(w, (n - 1) as nat);
        }
    }
}

impl PagePool {
    /// Places a record for an appender that waits while the pool is full.
    /// `had_drainer` is whether the pool had a drainer when the wait began.
    pub fn place(&mut self, expected_id: u64, record: &[u8], had_drainer: bool) -> (res: PlaceStep)
        requires
            old(self).wf(),
            expected_id < u64::MAX,
        ensures
            final(self).wf(),
            (final(self)@, res) == old(self)@.place_stepped(expected_id, record@, had_drainer),
    {
        proof {
            lemma_placed_drainer(self@, expected_id, record@);
        }
        match self.try_place(expected_id, record) {
            TryPlace::Placed { placement, flush } => PlaceStep::Placed { placement, flush },
            TryPlace::TooLarge => PlaceStep::Refused(PoolError::TooLarge),
            TryPlace::Full => {
                if had_drainer && !self.drainer {
                    PlaceStep::Refused(PoolError::NoDrainer)
                } else {
                    PlaceStep::Wait
                }
            },
        }
    }

    /// What holds the pool up.
    pub fn stall_report(&self) -> (res: StallReport)
        requires
            self.wf(),
        ensures
            res.pinned == pinned_below(self@.ring, self@.ring.pages.len() as int),
            res.page_count == self@.ring.pages.len(),
            res.durable_before == self@.ring.essential,
            match res.oldest {
                Some((k, last, pins)) => {
                    &&& self@.is_oldest(k as int)
                    &&& last == self@.ring.pages[k as int].end() - 1
                    &&& pins == self@.ring.pages[k as int].pins
                },
                None => self@.ring.is_empty(),
            },
    {
        let n: usize = self.ring.page_count();
        let mut oldest: Option<(usize, u64, u32)> = None;
        let mut k: usize = 0;
        while k < n
            invariant
                self.wf(),
                n == self@.ring.pages.len(),
                k <= n,
                match oldest {
                    Some((o, last, pins)) => {
                        &&& o < k
                        &&& !self@.ring.pages[o as int].is_empty()
                        &&& last == self@.ring.pages[o as int].end() - 1
                        &&& pins == self@.ring.pages[o as int].pins
                        &&& forall|j: int|
                            0 <= j < k && !(#[trigger] self@.ring.pages[j]).is_empty()
                                ==> self@.ring.pages[o as int].end() <= self@.ring.pages[j].end()
                    },
                    None => forall|j: int|
                        0 <= j < k ==> (#[trigger] self@.ring.pages[j]).is_empty(),
                },
            decreases n - k,
        {
            if let Some(last) = self.ring.page_last_entry_id(k) {
                let older = match oldest {
                    Some((_, other, _)) => last < other,
                    None => true,
                };
                if older {
                    oldest = Some((k, last, self.ring.page_pin_count(k)));
                }
            }
            k = k + 1;
        }
        StallReport {
            pinned: self.count_pinned(),
            page_count: n,
            durable_before: self.ring.min_essential_id(),
            oldest,
        }
    }

    /// Whether a file writer takes pages from this pool, so that waiting for a
    /// page can end.
    pub fn has_drainer(&self) -> (res: bool)
        ensures
            res == self@.drainer,
    {
        self.drainer
    }

    /// A file writer takes pages from this pool from now on.
    pub fn set_drainer(&mut self)
        requires
            old(self).wf(),
        ensures
            final(self).wf(),
            final(self)@ == (PoolView { drainer: true, ..old(self)@ }),
    {
        let ghost before = self@;
        self.drainer = true;
        assert(self@.written =~= before.written);
        assert(self@.ring == before.ring);
    }

    /// No file writer takes pages from this pool any more.
    pub fn clear_drainer(&mut self)
        requires
            old(self).wf(),
        ensures
            final(self).wf(),
            final(self)@ == (PoolView { drainer: false, ..old(self)@ }),
    {
        let ghost before = self@;
        self.drainer = false;
        assert(self@.written =~= before.written);
        assert(self@.ring == before.ring);
    }

    /// Bytes charged to the open file so far, its header included.
    pub fn fill_used(&self) -> (res: Option<u64>)
        ensures
            res == (match self@.fill {
                Some(f) => Some(f.used),
                None => None,
            }),
    {
        match &self.fill {
            Some(f) => Some(f.used),
            None => None,
        }
    }

    /// The file that the next record is charged to, counted from zero, unless
    /// it begins another.
    pub fn epoch(&self) -> (res: u64)
        ensures
            res == (match self@.fill {
                Some(f) => f.epoch,
                None => 0,
            }),
    {
        match &self.fill {
            Some(f) => f.epoch,
            None => 0,
        }
    }

    /// Whether something accepted is not known to be on disk.
    pub fn has_pending(&self) -> (res: bool)
        ensures
            res == (self@.ring.essential < self@.ring.next),
    {
        self.ring.min_essential_id() < self.ring.next_entry_id()
    }

    /// The id that the next record gets.
    pub fn next_entry_id(&self) -> (res: u64)
        ensures
            res == self@.ring.next,
    {
        self.ring.next_entry_id()
    }

    /// Everything below this id is on disk.
    pub fn durable_before(&self) -> (res: u64)
        ensures
            res == self@.ring.essential,
    {
        self.ring.min_essential_id()
    }

    /// Runs `f` on the pool's ring.
    pub fn with_ring<T, F: FnOnce(&WalRing) -> T>(&self, f: F) -> (res: T)
        requires
            self.wf(),
            forall|r: &WalRing| r.wf() && r@ == self@.ring ==> #[trigger] call_requires(f, (r,)),
        ensures
            exists|r: &WalRing| r@ == self@.ring && #[trigger] call_ensures(f, (r,), res),
    {
        f(&self.ring)
    }

    /// Whether the pool holds no records.
    pub fn is_empty(&self) -> (res: bool)
        requires
            self.wf(),
        ensures
            res == self@.ring.is_empty(),
    {
        self.ring.is_empty()
    }

    pub fn page_count(&self) -> (res: usize)
        ensures
            res == self@.ring.pages.len(),
    {
        self.ring.page_count()
    }

    /// The pool's slots in the arena, if it has any there.
    pub fn slot_range(&self) -> (res: Option<SlotRange>)
        ensures
            match (res, self@.ring.first_slot) {
                (Some(r), Some(s)) => r.first_slot == s && r.page_count == self@.ring.pages.len(),
                (None, None) => true,
                _ => false,
            },
    {
        self.ring.slot_range()
    }
}

} // verus!
