//! What holds of a ring and a pool, whatever is done to them.

use vstd::prelude::*;
use crate::page_pool;
use crate::page_pool::{PoolView, RotateHint, TryPlace, MAX_STEPPABLE_GAP};
use crate::wal_entry_v1;
use crate::wal_file;
use crate::wal_page;
use crate::wal_ring_v1;
use crate::wal_ring_v1::{AppendOutcome, RingView};

verus! {

// ---------------------------------------------------------------------------
// The ring.

/// Whether a ring must keep the record with this id: it is not on disk, or a
/// reader holds its page.
pub open spec fn must_keep(r: RingView, id: int) -> bool {
    r.has(id) && (id >= r.essential || r.pages[r.page_of(id)].pins > 0)
}

/// Whether what a ring holds of an id is what another held of it.
pub open spec fn kept(r: RingView, s: RingView, id: int) -> bool {
    s.has(id) && s.record(id) == r.record(id)
}

proof fn lemma_has_page(r: RingView, id: int)
    requires
        r.has(id),
    ensures
        0 <= r.page_of(id) < r.pages.len(),
        r.pages[r.page_of(id)].has(id),
{
}

proof fn lemma_rotated_keeps(r: RingView, k: int, id: int)
    requires
        r.wf(),
        0 <= k < r.pages.len(),
        r.reusable(k),
        must_keep(r, id),
    ensures
        must_keep(r.rotated(k), id),
        kept(r, r.rotated(k), id),
        r.rotated(k).page_of(id) == r.page_of(id),
        r.page_of(id) != k,
{
    let j = r.page_of(id);
    let s = r.rotated(k);
    lemma_has_page(r, id);
    assert(j != k);
    assert(s.pages[j] == r.pages[j]);
    wal_ring_v1::lemma_rotated_wf(r, k);
    wal_ring_v1::lemma_record_at(s, id, j);
}

proof fn lemma_pushed_keeps(r: RingView, record: Seq<u8>, id: int)
    requires
        r.wf(),
        r.has(id),
        record.len() <= u32::MAX,
        r.pages[r.active].has_room(wal_entry_v1::entry(record).len(), r.page_size),
        r.next < u64::MAX,
    ensures
        kept(r, r.pushed(record), id),
        r.pushed(record).page_of(id) == r.page_of(id),
        must_keep(r, id) ==> must_keep(r.pushed(record), id),
{
    let j = r.page_of(id);
    let s = r.pushed(record);
    lemma_has_page(r, id);
    wal_ring_v1::lemma_pushed_wf(r, record);
    assert(s.pages[j].has(id));
    wal_ring_v1::lemma_record_at(s, id, j);
}

/// A record that an append accepts is held from then on under the id that the
/// append reports, which is the next in the sequence.
pub proof fn appended_record_is_held(r: RingView, record: Seq<u8>)
    requires
        r.wf(),
        r.next < u64::MAX,
    ensures
        r.appended(record).1 matches AppendOutcome::Cached(id) ==> {
            let s = r.appended(record).0;
            &&& id == r.next
            &&& s.next == r.next + 1
            &&& s.has(id as int)
            &&& s.record(id as int) == record
        },
{
    if r.appended(record).1 is Cached {
        let s = r.appended(record).0;
        let k = s.active;
        let id = r.next as int;
        wal_ring_v1::lemma_appended_wf(r, record);
        if let Some(t) = r.target() {
            assert(r.is_target(t));
        }
        assert(s.pages[k].has(id));
        assert(s.pages[k].record(id) == record);
        wal_ring_v1::lemma_record_at(s, id, k);
    }
}

/// An append never overwrites a record that is not on disk, nor one on a page
/// that a reader holds.
pub proof fn append_keeps_what_it_must(r: RingView, record: Seq<u8>, id: int)
    requires
        r.wf(),
        r.next < u64::MAX,
        must_keep(r, id),
    ensures
        kept(r, r.appended(record).0, id),
        must_keep(r.appended(record).0, id),
        r.appended(record).0.page_of(id) == r.page_of(id),
{
    if wal_ring_v1::fits_page(record.len(), r.page_size) {
        if r.pages[r.active].has_room(wal_entry_v1::entry(record).len(), r.page_size) {
            lemma_pushed_keeps(r, record, id);
        } else if let Some(k) = r.target() {
            assert(r.is_target(k));
            lemma_rotated_keeps(r, k, id);
            wal_ring_v1::lemma_rotated_wf(r, k);
            wal_ring_v1::lemma_empty_room(r.rotated(k), record, k);
            lemma_pushed_keeps(r.rotated(k), record, id);
        }
    }
}

/// The bytes of a page that a reader holds do not change under it: an append
/// leaves the page as it is, or puts a record behind what is there.
pub proof fn pinned_page_is_not_reused(r: RingView, record: Seq<u8>, k: int)
    requires
        r.wf(),
        0 <= k < r.pages.len(),
        r.pages[k].pins > 0,
    ensures
        ({
            let s = r.appended(record).0;
            &&& s.pages[k].page_id == r.pages[k].page_id
            &&& s.pages[k].first == r.pages[k].first
            &&& s.pages[k].pins == r.pages[k].pins
            &&& s.pages[k].records == r.pages[k].records || (k == r.active && s.pages[k].records
                == r.pages[k].records.push(record))
        }),
{
    if let Some(t) = r.target() {
        assert(r.is_target(t));
    }
}

/// Every id that an append makes a ring lose is reported as evicted.
pub proof fn lost_ids_are_evicted(r: RingView, record: Seq<u8>, id: int)
    requires
        r.wf(),
        r.next < u64::MAX,
        r.has(id),
    ensures
        ({
            let s = r.appended(record).0;
            kept(r, s, id) || (s.evicted matches Some(e) && id <= e)
        }),
{
    lemma_has_page(r, id);
    let j = r.page_of(id);
    if wal_ring_v1::fits_page(record.len(), r.page_size) {
        if r.pages[r.active].has_room(wal_entry_v1::entry(record).len(), r.page_size) {
            lemma_pushed_keeps(r, record, id);
        } else if let Some(k) = r.target() {
            assert(r.is_target(k));
            if j != k {
                wal_ring_v1::lemma_rotated_wf(r, k);
                assert(r.rotated(k).pages[j] == r.pages[j]);
                wal_ring_v1::lemma_record_at(r.rotated(k), id, j);
                wal_ring_v1::lemma_empty_room(r.rotated(k), record, k);
                lemma_pushed_keeps(r.rotated(k), record, id);
            }
        }
    }
}

proof fn lemma_stepped_keeps(r: RingView, id: int)
    requires
        r.wf(),
        r.has(id),
        r.pages[r.active].is_empty(),
        r.next < u64::MAX,
    ensures
        kept(r, r.stepped(), id),
        r.stepped().page_of(id) == r.page_of(id),
        must_keep(r, id) ==> must_keep(r.stepped(), id),
{
    let j = r.page_of(id);
    lemma_has_page(r, id);
    wal_ring_v1::lemma_stepped_wf(r);
    assert(r.stepped().pages[j] == r.pages[j]);
    wal_ring_v1::lemma_record_at(r.stepped(), id, j);
}

/// Stepping over an id never overwrites a record that is not on disk, nor one
/// on a page that a reader holds, and what it makes a ring lose it reports as
/// evicted.
pub proof fn skip_keeps_what_it_must(r: RingView, id: int)
    requires
        r.wf(),
        r.next < u64::MAX,
        r.has(id),
    ensures
        r.skipped() matches Some(s) ==> {
            &&& must_keep(r, id) ==> kept(r, s, id) && must_keep(s, id)
            &&& kept(r, s, id) || (s.evicted matches Some(e) && id <= e)
        },
{
    lemma_has_page(r, id);
    let j = r.page_of(id);
    if r.pages[r.active].is_empty() {
        lemma_stepped_keeps(r, id);
    } else if let Some(k) = r.target() {
        assert(r.is_target(k));
        wal_ring_v1::lemma_rotated_wf(r, k);
        if must_keep(r, id) {
            lemma_rotated_keeps(r, k, id);
            lemma_stepped_keeps(r.rotated(k), id);
        } else if j != k {
            assert(r.rotated(k).pages[j] == r.pages[j]);
            wal_ring_v1::lemma_record_at(r.rotated(k), id, j);
            lemma_stepped_keeps(r.rotated(k), id);
        }
    }
}

// ---------------------------------------------------------------------------
// The pool: what was accepted stays until it is durable.

proof fn lemma_absorbed_same(v: PoolView)
    ensures
        v.absorbed().ring.pages == v.ring.pages,
        v.absorbed().ring.next == v.ring.next,
        v.absorbed().ring.essential == v.ring.essential,
        v.absorbed().ring.active == v.ring.active,
        forall|id: int| #[trigger] v.absorbed().ring.has(id) == v.ring.has(id),
        forall|id: int| #[trigger] v.absorbed().ring.page_of(id) == v.ring.page_of(id),
        forall|id: int| #[trigger] v.absorbed().ring.record(id) == v.ring.record(id),
{
    let a = v.absorbed().ring;
    let b = v.ring;
    assert(a.pages == b.pages);
    assert forall|id: int| #[trigger] a.has(id) == b.has(id) by {
        if a.has(id) {
            let k = choose|k: int| 0 <= k < a.pages.len() && (#[trigger] a.pages[k]).has(id);
            assert(b.pages[k].has(id));
        }
        if b.has(id) {
            let k = choose|k: int| 0 <= k < b.pages.len() && (#[trigger] b.pages[k]).has(id);
            assert(a.pages[k].has(id));
        }
    }
}

proof fn lemma_steps_keep(v: PoolView, n: nat, id: int)
    requires
        v.wf(),
        v.ring.next + n <= u64::MAX,
        v.ring.has(id),
        id >= v.ring.essential,
    ensures
        ({
            let w = v.stepped_over(n).0;
            &&& w.wf()
            &&& kept(v.ring, w.ring, id)
            &&& w.ring.essential == v.ring.essential
            &&& v.stepped_over(n).1 ==> w.ring.next == v.ring.next + n
        }),
    decreases n,
{
    if n > 0 {
        page_pool::lemma_pool_skipped_wf(v);
        if let Some(w) = v.skipped() {
            let ring = v.ring.skipped()->0;
            skip_keeps_what_it_must(v.ring, id);
            lemma_absorbed_same(
                PoolView { ring, written: v.written.update(ring.active, 0), ..v },
            );
            if let Some(k) = v.ring.target() {
                assert(v.ring.is_target(k));
            }
            lemma_steps_keep(w, (n - 1) as nat, id);
        }
    }
}

/// A record that was accepted is never dropped to make room for another, to
/// catch up with the id sequence, or for any other reason that placing a record
/// can have: until it is on disk it stays in memory, unchanged.
pub proof fn accepted_record_survives(v: PoolView, expected: u64, record: Seq<u8>, id: int)
    requires
        v.wf(),
        expected < u64::MAX,
        v.ring.has(id),
        id >= v.ring.essential,
    ensures
        kept(v.ring, v.placed(expected, record).0.ring, id),
{
    let gap = expected - v.ring.next;
    let (w, there) = v.synced(expected);
    lemma_has_page(v.ring, id);
    let j = v.ring.page_of(id);
    if 0 < gap <= MAX_STEPPABLE_GAP {
        lemma_steps_keep(v, gap as nat, id);
    } else if gap != 0 {
        // Starting over needs nothing to lose, and this record is something.
        assert(!v.ring.pages[j].is_empty());
        if j != v.ring.active {
            assert(v.ring.pages[j].end() <= v.ring.pages[v.ring.active].first);
        }
        assert(!v.nothing_to_lose());
    }
    if there {
        append_keeps_what_it_must(w.ring, record, id);
        let (ring, outcome) = w.ring.appended(record);
        let x = PoolView {
            ring,
            written: if w.opens_page(record) {
                w.written.update(ring.active, 0)
            } else {
                w.written
            },
            unwritten: w.appended(record).0.unwritten,
            ..w
        };
        lemma_absorbed_same(x);
    }
}

/// A placed record is held under the id that it was to get, and the id sequence
/// goes on from there.
pub proof fn placed_record_is_held(v: PoolView, expected: u64, record: Seq<u8>)
    requires
        v.wf(),
        expected < u64::MAX,
        v.placed(expected, record).1 is Placed,
    ensures
        ({
            let w = v.placed(expected, record).0;
            let p = v.placed(expected, record).1->placement;
            &&& w.ring.next == expected + 1
            &&& w.ring.has(expected as int)
            &&& w.ring.record(expected as int) == record
            &&& p.in_pool
            &&& p.record_len == record.len()
        }),
{
    let (w, there) = v.synced(expected);
    lemma_synced(v, expected);
    appended_record_is_held(w.ring, record);
    let (ring, outcome) = w.ring.appended(record);
    let x = PoolView {
        ring,
        written: if w.opens_page(record) {
            w.written.update(ring.active, 0)
        } else {
            w.written
        },
        unwritten: w.appended(record).0.unwritten,
        ..w
    };
    lemma_absorbed_same(x);
}

pub proof fn lemma_steps(v: PoolView, n: nat)
    requires
        v.wf(),
        v.ring.next + n <= u64::MAX,
    ensures
        v.stepped_over(n).0.wf(),
        v.stepped_over(n).1 ==> v.stepped_over(n).0.ring.next == v.ring.next + n,
        v.stepped_over(n).0.fill == v.fill,
        v.stepped_over(n).0.handed_through == v.handed_through,
        v.stepped_over(n).0.epochs == v.epochs,
        n > 0 && v.stepped_over(n).1 ==> v.stepped_over(n).0.ring.pages[v.stepped_over(
            n,
        ).0.ring.active].is_empty(),
    decreases n,
{
    if n > 0 {
        page_pool::lemma_pool_skipped_wf(v);
        if let Some(w) = v.skipped() {
            if let Some(k) = v.ring.target() {
                assert(v.ring.is_target(k));
            }
            assert(w.ring.pages[w.ring.active].is_empty());
            lemma_steps(w, (n - 1) as nat);
            if n == 1 {
                assert(w.stepped_over(0) == (w, true));
            }
        }
    }
}

pub proof fn lemma_synced(v: PoolView, expected: u64)
    requires
        v.wf(),
    ensures
        v.synced(expected).0.wf(),
        v.synced(expected).1 ==> v.synced(expected).0.ring.next == expected,
        v.synced(expected).0.fill == v.fill,
        v.synced(expected).0.epochs == v.epochs,
{
    let gap = expected - v.ring.next;
    if 0 < gap <= MAX_STEPPABLE_GAP {
        lemma_steps(v, gap as nat);
    } else if gap != 0 {
        page_pool::lemma_reseeded_wf(v, expected);
    }
}

/// Reads are never served across a gap: every id that an append makes memory
/// lose is below the floor from then on, and the floor never falls.
pub proof fn lost_ids_are_below_the_floor(v: PoolView, record: Seq<u8>, id: int)
    requires
        v.wf(),
        v.ring.next < u64::MAX,
        v.ring.has(id),
    ensures
        ({
            let w = v.appended(record).0;
            &&& kept(v.ring, w.ring, id) || id < w.cache_floor
            &&& w.cache_floor >= v.cache_floor
        }),
{
    lost_ids_are_evicted(v.ring, record, id);
    let (ring, outcome) = v.ring.appended(record);
    let x = PoolView {
        ring,
        written: if v.opens_page(record) {
            v.written.update(ring.active, 0)
        } else {
            v.written
        },
        unwritten: v.appended(record).0.unwritten,
        ..v
    };
    lemma_absorbed_same(x);
    lemma_has_page(v.ring, id);
    assert(v.ring.pages[v.ring.page_of(id)].wf(v.ring.page_size));
}

/// The durable boundary only moves forward.
pub proof fn durable_boundary_only_rises(v: PoolView, id: u64)
    ensures
        v.durable(id).ring.essential == page_pool::max_u64(v.ring.essential, id),
{
}

// ---------------------------------------------------------------------------
// The pool and its files.

/// A file begins only with a record that opens a page, so the file before ends
/// where a page ends.
pub proof fn file_ends_where_a_page_ends(v: PoolView, expected: u64, record: Seq<u8>)
    requires
        v.wf(),
        expected < u64::MAX,
        v.placed(expected, record).1 matches TryPlace::Placed { placement, flush }
            && placement.rotate == RotateHint::Before,
    ensures
        ({
            let r = v.placed(expected, record).0.ring;
            r.pages[r.active].first == expected && r.pages[r.active].records.len() == 1
        }),
{
    let (w, there) = v.synced(expected);
    lemma_synced(v, expected);
    if let Some(k) = w.ring.target() {
        assert(w.ring.is_target(k));
    }
    assert(w.opens_page(record));
}

/// The first record of a file never begins another: a file takes at least one
/// record, however large that is and however small the file's maximum.
pub proof fn first_record_does_not_rotate(v: PoolView, expected: u64, record: Seq<u8>)
    requires
        v.wf(),
        v.fill matches Some(f) && !f.has_written,
        v.placed(expected, record).1 is Placed,
    ensures
        v.placed(expected, record).1->placement.rotate == RotateHint::NoRotation,
        v.placed(expected, record).1->placement.epoch == v.fill->0.epoch,
{
    lemma_synced(v, expected);
}

/// Every record is charged to its file exactly once, with its encoded size,
/// and a file that begins starts with its header and its first record.
pub proof fn fill_counts_each_entry_once(v: PoolView, expected: u64, record: Seq<u8>)
    requires
        v.wf(),
        v.fill is Some,
        v.fill->0.used + page_pool::entry_len(record.len()) <= u64::MAX,
        v.fill->0.header_len + page_pool::entry_len(record.len()) <= u64::MAX,
        v.placed(expected, record).1 is Placed,
    ensures
        ({
            let before = v.fill->0;
            let after = v.placed(expected, record).0.fill;
            let len = page_pool::entry_len(record.len());
            &&& after is Some
            &&& after->0.used == (if v.placed(expected, record).1->placement.rotate
                == RotateHint::Before {
                before.header_len + len
            } else {
                before.used + len
            })
        }),
{
    lemma_synced(v, expected);
}

/// A record that was refused, or that has to wait, is charged to no file.
pub proof fn unplaced_record_is_not_charged(v: PoolView, expected: u64, record: Seq<u8>)
    requires
        v.wf(),
        !(v.placed(expected, record).1 is Placed),
    ensures
        v.placed(expected, record).0.fill == v.fill,
        v.placed(expected, record).0.epochs == v.epochs,
{
    lemma_synced(v, expected);
}

/// Whether the page that is being appended to is stamped with the open file, as
/// far as the file has records.
pub open spec fn stamped(v: PoolView) -> bool {
    v.fill matches Some(f) ==> f.has_written && !v.ring.pages[v.ring.active].is_empty()
        ==> v.epochs[v.ring.active] == f.epoch
}

/// A page never holds records of two files: a record that joins a page belongs
/// to the file that the page is stamped with, and the page stays stamped so.
pub proof fn page_belongs_to_one_file(v: PoolView, expected: u64, record: Seq<u8>)
    requires
        v.wf(),
        expected < u64::MAX,
        stamped(v),
        v.fill matches Some(f) && f.has_written,
        v.placed(expected, record).1 is Placed,
    ensures
        ({
            let w = v.placed(expected, record).0;
            let p = v.placed(expected, record).1->placement;
            let page = w.ring.pages[w.ring.active];
            &&& stamped(w)
            &&& w.epochs[w.ring.active] == p.epoch
            &&& page.records.len() > 1 ==> w.ring.active == v.ring.active && p.epoch
                == v.epochs[v.ring.active]
        }),
{
    let (w, there) = v.synced(expected);
    lemma_synced(v, expected);
    let gap = expected - v.ring.next;
    if let Some(k) = w.ring.target() {
        assert(w.ring.is_target(k));
    }
    let after = v.placed(expected, record).0;
    let page = after.ring.pages[after.ring.active];
    if page.records.len() > 1 {
        assert(!w.opens_page(record));
        assert(!w.ring.pages[w.ring.active].is_empty());
        if 0 < gap <= MAX_STEPPABLE_GAP {
            lemma_steps(v, gap as nat);
        } else if gap != 0 {
            page_pool::lemma_reseeded_wf(v, expected);
        }
    }
}

/// A run that may be written is whole entries: the bytes of the page's records
/// from its first id to its last, which the writer has taken on, all of the
/// file that was asked for.
pub proof fn run_is_whole_entries(v: PoolView, k: int, epoch: u64)
    requires
        v.wf(),
        0 <= k < v.ring.pages.len(),
        v.run(k, epoch) is Some,
    ensures
        ({
            let p = v.ring.pages[k];
            let w = v.run(k, epoch)->0;
            &&& v.epochs[k] == epoch
            &&& v.handed_through matches Some(bound) && w.last_entry_id <= bound
            &&& p.first <= w.first_entry_id <= w.last_entry_id < p.end()
            &&& p.bytes().subrange(w.from as int, w.to as int) == wal_file::packed(
                p.records.subrange(w.first_entry_id - p.first, w.last_entry_id - p.first + 1),
            )
        }),
{
    let p = v.ring.pages[k];
    let w = v.run(k, epoch)->0;
    page_pool::lemma_run_bounds(v, k, epoch);
    assert(p.wf(v.ring.page_size));
    let i = w.first_entry_id - p.first;
    let j = w.last_entry_id - p.first + 1;
    wal_page::lemma_packed_split(p.records, j);
    let t = p.records.take(j);
    wal_page::lemma_packed_split(t, i);
    assert(t.take(i) =~= p.records.take(i));
    assert(t.skip(i) =~= p.records.subrange(i, j));
    assert(p.bytes().subrange(w.from as int, w.to as int) =~= wal_file::packed(
        p.records.subrange(i, j),
    ));
}

/// Whether a page holds a record that is not on disk.
pub open spec fn holds_undurable(r: RingView, k: int) -> bool {
    &&& 0 <= k < r.pages.len()
    &&& !r.pages[k].is_empty()
    &&& r.pages[k].end() - 1 >= r.essential
}

proof fn lemma_steps_keep_page(v: PoolView, n: nat, k: int)
    requires
        v.wf(),
        v.ring.next + n <= u64::MAX,
        holds_undurable(v.ring, k),
    ensures
        v.stepped_over(n).0.wf(),
        v.stepped_over(n).0.ring.pages.len() == v.ring.pages.len(),
        v.stepped_over(n).0.ring.pages[k] == v.ring.pages[k],
        v.stepped_over(n).0.ring.essential == v.ring.essential,
    decreases n,
{
    if n > 0 {
        page_pool::lemma_pool_skipped_wf(v);
        if let Some(w) = v.skipped() {
            if let Some(t) = v.ring.target() {
                assert(v.ring.is_target(t));
            }
            lemma_steps_keep_page(w, (n - 1) as nat, k);
        }
    }
}

/// A page with a record that is not on disk keeps its bytes while records are
/// placed: what a flush took from it is there, at the same place, when the
/// flush ends.
pub proof fn unflushed_page_stays(v: PoolView, expected: u64, record: Seq<u8>, k: int, n: nat)
    requires
        v.wf(),
        expected < u64::MAX,
        holds_undurable(v.ring, k),
        page_pool::is_boundary(v.ring.pages[k], n),
    ensures
        ({
            let w = v.placed(expected, record).0;
            &&& k < w.ring.pages.len()
            &&& page_pool::is_boundary(w.ring.pages[k], n)
            &&& v.ring.pages[k].bytes() == w.ring.pages[k].bytes().take(
                v.ring.pages[k].bytes().len() as int,
            )
        }),
{
    let p = v.ring.pages[k];
    let gap = expected - v.ring.next;
    if 0 < gap <= MAX_STEPPABLE_GAP {
        lemma_steps_keep_page(v, gap as nat, k);
    } else if gap != 0 {
        if k != v.ring.active {
            assert(p.end() <= v.ring.pages[v.ring.active].first);
        }
        assert(!v.nothing_to_lose());
    }
    let (w, there) = v.synced(expected);
    assert(w.ring.pages[k] == p);
    if let Some(t) = w.ring.target() {
        assert(w.ring.is_target(t));
    }
    page_pool::lemma_boundary_pushed(p, record, n);
    wal_page::lemma_packed_push(p.records, record);
    let q = v.placed(expected, record).0.ring.pages[k];
    assert(q == p || q.records == p.records.push(record) && q.first == p.first);
    assert(p.bytes() =~= q.bytes().take(p.bytes().len() as int));
    if q != p {
        assert(page_pool::is_boundary(p.pushed(record), n));
        let i = choose|i: int| 0 <= i <= p.pushed(record).records.len() && #[trigger] p.pushed(
            record,
        ).offset(i) == n;
        assert(q.offset(i) == n);
    }
}

/// A run that was committed is not handed out again, and the runs of other
/// pages are as they were.
pub proof fn committed_run_is_gone(v: PoolView, k: int, j: int, epoch: u64)
    requires
        v.wf(),
        0 <= k < v.ring.pages.len(),
        0 <= j < v.ring.pages.len(),
        v.run(k, epoch) is Some,
    ensures
        ({
            let w = v.committed(v.run(k, epoch)->0);
            &&& w.run(k, epoch) is None
            &&& j != k ==> w.run(j, epoch) == v.run(j, epoch)
        }),
{
    page_pool::lemma_run_bounds(v, k, epoch);
}

/// A writer that begins adopts nothing: its file holds a header and is the
/// first, and none of what the pages hold is handed out, now or after the
/// writer has taken on what follows.
pub proof fn arming_adopts_nothing(
    v: PoolView,
    max_file_size: u64,
    header_len: u64,
    k: int,
    epoch: u64,
    handed: u64,
)
    requires
        v.wf(),
        0 <= k < v.ring.pages.len(),
    ensures
        ({
            let w = v.armed(max_file_size, header_len);
            &&& w.fill matches Some(f) && f.used == header_len && f.epoch == 0
            &&& w.run(k, epoch) is None
            &&& (PoolView { handed_through: Some(handed), ..w }).run(k, epoch) is None
        }),
{
    let p = v.ring.pages[k];
    if !p.is_empty() && p.first <= handed {
        let last = if p.end() - 1 <= handed {
            p.end() - 1
        } else {
            handed as int
        };
        wal_page::lemma_offset_monotone(p, last - p.first + 1, p.records.len() as int);
    }
}

// ---------------------------------------------------------------------------
// The pool and its readers.

proof fn lemma_plan_pages(r: RingView, start: u64, end: u64, n: int, quotas: Seq<nat>)
    requires
        0 <= n <= r.pages.len(),
        quotas.len() == r.pages.len(),
        forall|k: int|
            0 <= k < n ==> #[trigger] quotas[k] == page_pool::pin_plan(r, start, end, n).quotas[k],
        forall|k: int| 0 <= k < r.pages.len() ==> (#[trigger] r.pages[k]).pins + 4096 <= u32::MAX,
        forall|k: int| 0 <= k < quotas.len() ==> #[trigger] quotas[k] <= 4096,
    ensures
        page_pool::pinned_below(page_pool::with_quotas(r, quotas), n) <= page_pool::pinned_below(
            r,
            n,
        ) + page_pool::pin_plan(r, start, end, 0).budget - page_pool::pin_plan(
            r,
            start,
            end,
            n,
        ).budget,
    decreases n,
{
    if n > 0 {
        page_pool::lemma_pin_plan_bounds(r, start, end, n);
        page_pool::lemma_pin_plan_bounds(r, start, end, n - 1);
        let before = page_pool::pin_plan(r, start, end, n - 1);
        let plan = page_pool::pin_plan(r, start, end, n);
        assert forall|k: int| 0 <= k < n - 1 implies #[trigger] quotas[k] == before.quotas[k] by {
            assert(quotas[k] == plan.quotas[k]);
        }
        lemma_plan_pages(r, start, end, n - 1, quotas);
        assert(quotas[n - 1] == plan.quotas[n - 1]);
        assert(r.pages[n - 1].pins + 4096 <= u32::MAX);
        let s = page_pool::with_quotas(r, quotas);
        assert(s.pages[n - 1].pins == r.pages[n - 1].pins + quotas[n - 1]);
    }
}

/// Reads hold at most their share of the pool, and never a page that the pool
/// is appending to unless they held it already: after a read, no more pages are
/// pinned than the share, or than were pinned before.
pub proof fn reads_pin_only_their_share(r: RingView, start: u64, end: u64)
    requires
        r.wf(),
        forall|k: int| 0 <= k < r.pages.len() ==> (#[trigger] r.pages[k]).pins + 4096 <= u32::MAX,
    ensures
        ({
            let quotas = page_pool::full_plan(r, start, end).quotas;
            let s = page_pool::with_quotas(r, quotas);
            let n = r.pages.len() as int;
            let before = page_pool::pinned_below(r, n);
            let after = page_pool::pinned_below(s, n);
            &&& after <= page_pool::pin_share(n) || after <= before
            &&& r.pages[r.active].pins == 0 ==> s.pages[r.active].pins == 0
            &&& page_pool::pin_share(n) < n
        }),
{
    let n = r.pages.len() as int;
    let quotas = page_pool::full_plan(r, start, end).quotas;
    page_pool::lemma_pin_plan_bounds(r, start, end, n);
    assert forall|k: int| 0 <= k < quotas.len() implies #[trigger] quotas[k] <= 4096 by {}
    lemma_plan_pages(r, start, end, n, quotas);
    lemma_active_quota(r, start, end, n);
}

proof fn lemma_active_quota(r: RingView, start: u64, end: u64, n: int)
    requires
        r.wf(),
        0 <= n <= r.pages.len(),
    ensures
        r.active < n && r.pages[r.active].pins == 0 ==> page_pool::pin_plan(
            r,
            start,
            end,
            n,
        ).quotas[r.active] == 0,
    decreases n,
{
    if n > 0 {
        page_pool::lemma_pin_plan_bounds(r, start, end, n - 1);
        lemma_active_quota(r, start, end, n - 1);
    }
}

} // verus!
