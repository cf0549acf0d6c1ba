//! What memory serves, takes and gives up, said of the records on the pages.

use vstd::prelude::*;
use crate::page_pool;
use crate::page_pool::{PoolError, PoolView, TryPlace};
use crate::page_pool::PlaceStep;
use crate::pool_laws;
use crate::wal_entry_v1;
use crate::wal_ring_range;
use crate::wal_ring_v1::{AppendOutcome, RingView};

verus! {

/// Whether the record at position `i` of page `k` is this one, under this id.
pub open spec fn on_page(r: RingView, k: int, i: int, id: int, record: Seq<u8>) -> bool {
    &&& 0 <= k < r.pages.len()
    &&& 0 <= i < r.pages[k].records.len()
    &&& r.pages[k].first + i == id
    &&& r.pages[k].records[i] == record
}

/// Whether a page holds this record under this id.
pub open spec fn holds(r: RingView, id: int, record: Seq<u8>) -> bool {
    exists|k: int, i: int| on_page(r, k, i, id, record)
}

/// Whether page `k` could take the place of new records: no reader holds it,
/// and all its records are on disk.
pub open spec fn can_go(r: RingView, k: int) -> bool {
    &&& 0 <= k < r.pages.len()
    &&& r.pages[k].pins == 0
    &&& r.pages[k].records.len() > 0 ==> r.pages[k].first + r.pages[k].records.len() - 1
        < r.essential
}

/// What is on a page is what the ring says of its id.
pub proof fn held_record_is_found(r: RingView, k: int, i: int, id: int, record: Seq<u8>)
    requires
        r.wf(),
        on_page(r, k, i, id, record),
    ensures
        r.has(id),
        r.record(id) == record,
        0 <= id < r.next,
{
    assert(r.pages[k].has(id));
    let j = r.page_of(id);
    assert(r.pages[j].has(id));
    if j != k {
        assert(!r.pages[j].is_empty() && !r.pages[k].is_empty());
        assert(r.apart(j, k));
    }
    if k != r.active {
        assert(!r.pages[k].is_empty());
        assert(r.pages[k].end() <= r.pages[r.active].first);
    }
}

/// What the ring says of an id is on a page.
pub proof fn found_record_is_held(r: RingView, id: int)
    requires
        r.wf(),
        r.has(id),
    ensures
        holds(r, id, r.record(id)),
{
    let k = r.page_of(id);
    assert(r.pages[k].has(id));
    assert(on_page(r, k, id - r.pages[k].first, id, r.record(id)));
}

// ---------------------------------------------------------------------------
// Reads.

/// A read from memory finds every record on a page whose id is within what was
/// asked for and at or above the cache floor, however many there are, and
/// nothing else, in the order of the ids.
pub proof fn memory_read_is_whole(
    v: PoolView,
    out: Seq<(u64, Seq<u8>)>,
    start: u64,
    end: u64,
)
    requires
        v.wf(),
        wal_ring_range::range_is(v.ring, out, v.served_from(start), end),
    ensures
        forall|id: u64, record: Seq<u8>|
            #[trigger] holds(v.ring, id as int, record) && start <= id <= end && v.cache_floor <= id
                ==> out.contains((id, record)),
        forall|j: int|
            0 <= j < out.len() ==> start <= (#[trigger] out[j]).0 <= end && v.cache_floor
                <= out[j].0 && holds(v.ring, out[j].0 as int, out[j].1),
        forall|i: int, j: int|
            0 <= i < j < out.len() ==> (#[trigger] out[i]).0 < (#[trigger] out[j]).0,
{
    let r = v.ring;
    assert forall|id: u64, record: Seq<u8>|
        #[trigger] holds(r, id as int, record) && start <= id <= end && v.cache_floor
            <= id implies out.contains((id, record)) by {
        let (k, i) = choose|k: int, i: int| on_page(r, k, i, id as int, record);
        held_record_is_found(r, k, i, id as int, record);
        let j = choose|j: int| 0 <= j < out.len() && (#[trigger] out[j]).0 == id;
        assert(out[j] == (id, record));
    }
    assert forall|j: int| 0 <= j < out.len() implies start <= (#[trigger] out[j]).0 <= end
        && v.cache_floor <= out[j].0 && holds(r, out[j].0 as int, out[j].1) by {
        found_record_is_held(r, out[j].0 as int);
    }
}

/// A read from memory finds every record that the ring has from the lowest id
/// that memory claims to serve, or from where the read starts, to where it
/// ends.
pub proof fn memory_read_reaches_down_to_the_lowest(
    v: PoolView,
    out: Seq<(u64, Seq<u8>)>,
    start: u64,
    end: u64,
    id: u64,
)
    requires
        v.wf(),
        wal_ring_range::range_is(v.ring, out, v.served_from(start), end),
        v.min_cached() is Some,
        start <= id <= end,
        v.min_cached()->0 <= id,
        v.ring.has(id as int),
    ensures
        out.contains((id, v.ring.record(id as int))),
{
    memory_read_is_whole(v, out, start, end);
    found_record_is_held(v.ring, id as int);
    lowest_id_served(v);
}

/// Whether what was read is all that memory serves of the ids that were asked
/// for: every record on a page at or above the cache floor, and nothing else.
pub open spec fn is_all_served(
    v: PoolView,
    out: Seq<(u64, Seq<u8>)>,
    start: u64,
    end: u64,
) -> bool {
    &&& forall|id: u64, record: Seq<u8>|
        #[trigger] holds(v.ring, id as int, record) && start <= id <= end && v.cache_floor <= id
            ==> out.contains((id, record))
    &&& forall|j: int|
        0 <= j < out.len() ==> start <= (#[trigger] out[j]).0 <= end && v.cache_floor <= out[j].0
            && holds(v.ring, out[j].0 as int, out[j].1)
    &&& forall|id: u64|
        v.min_cached() is Some && v.min_cached()->0 <= id && start <= id <= end
            && #[trigger] v.ring.has(id as int) ==> out.contains((id, v.ring.record(id as int)))
}

/// A read of the range that memory serves is all that memory serves.
pub proof fn lemma_all_served(v: PoolView, out: Seq<(u64, Seq<u8>)>, start: u64, end: u64)
    requires
        v.wf(),
        wal_ring_range::range_is(v.ring, out, v.served_from(start), end),
    ensures
        is_all_served(v, out, start, end),
{
    memory_read_is_whole(v, out, start, end);
    assert forall|id: u64|
        v.min_cached() is Some && v.min_cached()->0 <= id && start <= id <= end
            && #[trigger] v.ring.has(id as int) implies out.contains(
        (id, v.ring.record(id as int)),
    ) by {
        memory_read_reaches_down_to_the_lowest(v, out, start, end, id);
    }
}

proof fn lemma_lowest_exists(r: RingView)
    requires
        r.wf(),
        !r.is_empty(),
    ensures
        ({
            let m = page_pool::lowest_id(r);
            r.has(m as int) && (forall|id: int| #[trigger] r.has(id) ==> m <= id)
        }),
{
    let k = choose|k: int| 0 <= k < r.pages.len() && !(#[trigger] r.pages[k]).is_empty();
    assert(r.pages[k].has(r.pages[k].first as int));
    assert(r.has(r.pages[k].first as int));
    lemma_lowest_below(r, r.pages[k].first);
}

proof fn lemma_lowest_below(r: RingView, id: u64)
    requires
        r.wf(),
        r.has(id as int),
    ensures
        ({
            let m = page_pool::lowest_id(r);
            r.has(m as int) && (forall|id: int| #[trigger] r.has(id) ==> m <= id)
        }),
    decreases id,
{
    if exists|low: u64| low < id && #[trigger] r.has(low as int) {
        let low = choose|low: u64| low < id && #[trigger] r.has(low as int);
        lemma_lowest_below(r, low);
    } else {
        assert forall|other: int| #[trigger] r.has(other) implies id <= other by {
            if other < id {
                assert(r.pages[r.page_of(other)].has(other));
                assert(r.has(other as u64 as int));
            }
        }
    }
}

/// The lowest id that memory claims to serve is at or above the cache floor,
/// and memory has no record between the two. It is the floor itself or the id
/// of a record, and if there is none, memory has nothing at or above the floor.
pub proof fn lowest_id_served(v: PoolView)
    requires
        v.wf(),
    ensures
        match v.min_cached() {
            Some(m) => {
                &&& v.cache_floor <= m < v.ring.next
                &&& forall|id: int, record: Seq<u8>|
                    #[trigger] holds(v.ring, id, record) && id >= v.cache_floor ==> id >= m
                &&& m == v.cache_floor || exists|record: Seq<u8>| holds(v.ring, m as int, record)
                &&& exists|id: int, record: Seq<u8>| #[trigger] holds(v.ring, id, record) && id <= m
            },
            None => forall|id: int, record: Seq<u8>|
                #[trigger] holds(v.ring, id, record) ==> id < v.cache_floor,
        },
{
    let r = v.ring;
    assert forall|id: int, record: Seq<u8>| #[trigger] holds(r, id, record) implies r.has(id)
        && !r.is_empty() && id < r.next by {
        let (k, i) = choose|k: int, i: int| on_page(r, k, i, id, record);
        held_record_is_found(r, k, i, id, record);
        assert(!r.pages[k].is_empty());
    }
    if !r.is_empty() {
        lemma_lowest_exists(r);
        found_record_is_held(r, page_pool::lowest_id(r) as int);
    }
}

// ---------------------------------------------------------------------------
// Room.

proof fn lemma_first_empty(r: RingView, k: int)
    requires
        0 <= k < r.pages.len(),
        r.reusable(k),
        r.pages[k].is_empty(),
    ensures
        r.target() is Some,
    decreases k,
{
    if exists|j: int| 0 <= j < k && r.reusable(j) && (#[trigger] r.pages[j]).is_empty() {
        let j = choose|j: int| 0 <= j < k && r.reusable(j) && (#[trigger] r.pages[j]).is_empty();
        lemma_first_empty(r, j);
    } else {
        assert(r.is_target(k));
    }
}

proof fn lemma_oldest(r: RingView, k: int)
    requires
        0 <= k < r.pages.len(),
        r.reusable(k),
        forall|j: int|
            0 <= j < r.pages.len() && r.reusable(j) ==> !(#[trigger] r.pages[j]).is_empty(),
    ensures
        r.target() is Some,
    decreases r.pages[k].first,
{
    if exists|j: int|
        0 <= j < r.pages.len() && r.reusable(j) && (#[trigger] r.pages[j]).first
            < r.pages[k].first {
        let j = choose|j: int|
            0 <= j < r.pages.len() && r.reusable(j) && (#[trigger] r.pages[j]).first
                < r.pages[k].first;
        lemma_oldest(r, j);
    } else {
        assert(r.is_target(k));
    }
}

/// If a page can go, there is one to rotate into.
pub proof fn lemma_target_exists(r: RingView, k: int)
    requires
        0 <= k < r.pages.len(),
        r.reusable(k),
    ensures
        r.target() is Some,
{
    if exists|j: int|
        0 <= j < r.pages.len() && r.reusable(j) && (#[trigger] r.pages[j]).is_empty() {
        let j = choose|j: int|
            0 <= j < r.pages.len() && r.reusable(j) && (#[trigger] r.pages[j]).is_empty();
        lemma_first_empty(r, j);
    } else {
        lemma_oldest(r, k);
    }
}

/// The size that a record is charged with is that of its entry.
pub proof fn record_costs_its_entry(record: Seq<u8>)
    requires
        record.len() <= u32::MAX,
    ensures
        page_pool::entry_len(record.len()) == wal_entry_v1::entry(record).len(),
{
    wal_entry_v1::lemma_entry_len(record);
}

/// What becomes of a record that is appended. It is refused for its size if
/// and only if its entry and its slot do not fit on an empty page; it has to
/// wait only if the page that is being filled has no room for it and no other
/// page can go; and else it is the last record of the page that is being
/// filled from then on, under the next id.
pub proof fn append_takes_what_fits(v: PoolView, record: Seq<u8>)
    requires
        v.wf(),
        v.ring.next < u64::MAX,
    ensures
        ({
            let (w, outcome) = v.appended(record);
            let r = v.ring;
            let s = w.ring;
            let page = r.pages[r.active];
            let entry = wal_entry_v1::entry(record).len();
            let room = page.bytes().len() + 4 * page.records.len() + entry + 4 <= r.page_size;
            match outcome {
                AppendOutcome::TooLarge => record.len() > u32::MAX || entry + 4 > r.page_size,
                AppendOutcome::Full => {
                    &&& record.len() <= u32::MAX && entry + 4 <= r.page_size
                    &&& !room
                    &&& forall|k: int| 0 <= k < r.pages.len() ==> !#[trigger] can_go(r, k)
                    &&& s.pages == r.pages && s.next == r.next
                },
                AppendOutcome::Cached(id) => {
                    let last = s.pages[s.active];
                    &&& record.len() <= u32::MAX && entry + 4 <= r.page_size
                    &&& id == r.next && s.next == r.next + 1
                    &&& on_page(s, s.active, last.records.len() - 1, id as int, record)
                    &&& room ==> s.active == r.active && last.records.drop_last() == page.records
                    &&& !room ==> can_go(r, s.active) && last.records.len() == 1
                    &&& s.pages.len() == r.pages.len()
                    &&& forall|k: int|
                        0 <= k < r.pages.len() && k != s.active ==> #[trigger] s.pages[k]
                            == r.pages[k]
                },
            }
        }),
{
    let r = v.ring;
    if record.len() <= u32::MAX {
        wal_entry_v1::lemma_entry_len(record);
    }
    assert forall|k: int| 0 <= k < r.pages.len() implies #[trigger] can_go(r, k)
        == r.reusable(k) by {}
    let (s, outcome) = r.appended(record);
    if outcome is Full {
        if exists|k: int| 0 <= k < r.pages.len() && #[trigger] can_go(r, k) {
            let k = choose|k: int| 0 <= k < r.pages.len() && #[trigger] can_go(r, k);
            lemma_target_exists(r, k);
        }
    }
    if let AppendOutcome::Cached(_) = outcome {
        let page = r.pages[r.active];
        if page.has_room(wal_entry_v1::entry(record).len(), r.page_size) {
            assert(page.records.push(record).drop_last() =~= page.records);
        } else {
            let k = r.target()->0;
            assert(r.is_target(k));
            assert(s.pages[k].records =~= seq![record]);
        }
    }
}

/// Records are given up oldest first, and none while an empty page could be
/// used: if an append makes memory lose a record, then every page that could
/// go holds records, and none of them is older than those lost.
pub proof fn oldest_page_goes_first(
    v: PoolView,
    record: Seq<u8>,
    k: int,
    i: int,
    id: int,
    lost: Seq<u8>,
    j: int,
)
    requires
        v.wf(),
        v.ring.next < u64::MAX,
        on_page(v.ring, k, i, id, lost),
        !holds(v.appended(record).0.ring, id, lost),
        can_go(v.ring, j),
    ensures
        v.ring.pages[j].records.len() > 0,
        j == k || id < v.ring.pages[j].first,
{
    let r = v.ring;
    let s = v.appended(record).0.ring;
    append_takes_what_fits(v, record);
    assert forall|n: int| 0 <= n < r.pages.len() implies #[trigger] can_go(r, n)
        == r.reusable(n) by {}
    assert(s.pages =~= r.appended(record).0.pages);
    if !(r.appended(record).1 is Cached) || k != s.active {
        assert(on_page(s, k, i, id, lost));
    }
    let page = r.pages[r.active];
    if page.has_room(wal_entry_v1::entry(record).len(), r.page_size) {
        assert(s.pages[k].records == page.records.push(record));
        assert(on_page(s, k, i, id, lost));
    }
    assert(r.target() == Some(k));
    assert(r.is_target(k));
    assert(!r.pages[k].is_empty());
    assert(r.reusable(j));
    assert(!r.pages[j].is_empty());
    if j != k {
        assert(r.apart(j, k));
    }
}

/// The cache floor rises no further than it must: to just behind the last
/// record of the page that was given up, and not at all if none was.
pub proof fn floor_rises_only_past_what_was_lost(v: PoolView, record: Seq<u8>)
    requires
        v.wf(),
        v.ring.next < u64::MAX,
        v.ring.evicted is None,
    ensures
        ({
            let w = v.appended(record).0;
            &&& w.ring.evicted is None
            &&& w.cache_floor != v.cache_floor ==> exists|k: int|
                {
                    let page = #[trigger] v.ring.pages[k];
                    &&& can_go(v.ring, k)
                    &&& page.records.len() > 0
                    &&& w.cache_floor == page.first + page.records.len()
                    &&& w.ring.pages[k].records == seq![record]
                }
        }),
{
    let r = v.ring;
    let w = v.appended(record).0;
    let s = r.appended(record).0;
    if w.cache_floor != v.cache_floor {
        let k = r.target()->0;
        assert(r.is_target(k));
        assert(r.pages[k].wf(r.page_size));
        assert(can_go(r, k));
        assert(!r.pages[k].is_empty());
        assert(s.pages[k].records =~= seq![record]);
        assert(w.cache_floor == r.pages[k].first + r.pages[k].records.len());
    }
}

// ---------------------------------------------------------------------------
// Placing.

/// An id is stepped over whenever there is a page to step onto: bringing a
/// pool that is behind by no more than a thousand or so ids to where a record
/// is expected fails only if the page that is being filled holds records and no
/// page can go.
pub proof fn small_gap_is_stepped_over(v: PoolView, expected: u64)
    requires
        v.wf(),
        v.ring.next < expected,
        expected - v.ring.next <= 1024,
        v.ring.pages[v.ring.active].records.len() == 0 || exists|k: int| can_go(v.ring, k),
    ensures
        v.synced(expected).1,
        v.synced(expected).0.ring.next == expected,
{
    pool_laws::lemma_synced(v, expected);
    let n = (expected - v.ring.next) as nat;
    if !v.ring.pages[v.ring.active].is_empty() {
        let k = choose|k: int| can_go(v.ring, k);
        assert(v.ring.reusable(k));
        lemma_target_exists(v.ring, k);
    }
    assert(v.skipped() is Some);
    let w = v.skipped()->0;
    pool_laws::lemma_steps(v, 1);
    assert(v.stepped_over(1).0 == w) by {
        assert(w.stepped_over(0).0 == w);
    }
    assert(w.wf());
    assert(w.ring.pages[w.ring.active].is_empty());
    lemma_empty_page_steps(w, (n - 1) as nat);
}

proof fn lemma_empty_page_steps(v: PoolView, n: nat)
    requires
        v.wf(),
        v.ring.pages[v.ring.active].is_empty(),
        v.ring.next + n <= u64::MAX,
    ensures
        v.stepped_over(n).1,
    decreases n,
{
    if n > 0 {
        let w = v.skipped()->0;
        pool_laws::lemma_steps(v, 1);
        assert(v.stepped_over(1).0 == w) by {
            assert(w.stepped_over(0).0 == w);
        }
        lemma_empty_page_steps(w, (n - 1) as nat);
    }
}

/// A pool that is ahead of the id that a record is to get, or too far behind
/// it, starts over if and only if that loses nothing and some page is not held
/// by a reader: nothing is on the pages, or all of it is on disk.
pub proof fn pool_starts_over_only_without_loss(v: PoolView, expected: u64)
    requires
        v.wf(),
        expected < v.ring.next || expected - v.ring.next > 1024,
    ensures
        v.synced(expected).1 <==> {
            &&& v.ring.essential >= v.ring.next || forall|k: int|
                0 <= k < v.ring.pages.len() ==> (#[trigger] v.ring.pages[k]).records.len() == 0
            &&& exists|k: int| 0 <= k < v.ring.pages.len() && (#[trigger] v.ring.pages[k]).pins == 0
        },
        v.synced(expected).1 ==> {
            let w = v.synced(expected).0;
            &&& w.ring.next == expected
            &&& w.ring.pages.len() == v.ring.pages.len()
            &&& w.unwritten == 0
            &&& forall|k: int|
                0 <= k < w.ring.pages.len() ==> (#[trigger] w.ring.pages[k]).records.len() == 0
        },
        !v.synced(expected).1 ==> v.synced(expected).0 == v,
{
    pool_laws::lemma_synced(v, expected);
    if v.ring.is_empty() {
        assert forall|k: int| 0 <= k < v.ring.pages.len() implies (
        #[trigger] v.ring.pages[k]).records.len() == 0 by {
            assert(v.ring.pages[k].is_empty());
        }
    }
    if forall|k: int|
        0 <= k < v.ring.pages.len() ==> (#[trigger] v.ring.pages[k]).records.len() == 0 {
        assert(v.ring.is_empty());
    }
}

/// A placement asks for a flush if and only if, with the record, at least as
/// many bytes are unwritten as the watermark says.
pub proof fn flush_is_asked_for_at_the_watermark(v: PoolView, expected: u64, record: Seq<u8>)
    requires
        v.wf(),
        expected == v.ring.next,
        v.ring.next < u64::MAX,
        v.unwritten + wal_entry_v1::entry(record).len() <= usize::MAX,
    ensures
        v.placed(expected, record).1 matches TryPlace::Placed { placement, flush } ==> {
            let w = v.placed(expected, record).0;
            &&& w.unwritten == v.unwritten + wal_entry_v1::entry(record).len()
            &&& w.flush_watermark == v.flush_watermark
            &&& flush <==> v.unwritten + wal_entry_v1::entry(record).len() >= v.flush_watermark
        },
{
    append_takes_what_fits(v, record);
    if record.len() <= u32::MAX {
        wal_entry_v1::lemma_entry_len(record);
    }
}

/// A placement under any id asks for a flush if and only if as many bytes are
/// unwritten then as the watermark says.
pub proof fn every_placement_may_ask_for_a_flush(v: PoolView, expected: u64, record: Seq<u8>)
    requires
        v.wf(),
    ensures
        v.placed(expected, record).1 matches TryPlace::Placed { placement, flush } ==> {
            let w = v.placed(expected, record).0;
            flush == (w.unwritten >= w.flush_watermark)
        },
{
    pool_laws::lemma_synced(v, expected);
}

/// A record waits if and only if the pool cannot take it yet and its writer has
/// not gone since it began to wait; one that no page can take is refused at
/// once, and no record is both taken and refused.
pub proof fn record_waits_only_for_its_writer(
    v: PoolView,
    expected: u64,
    record: Seq<u8>,
    had_drainer: bool,
)
    ensures
        ({
            let (w, step) = v.place_stepped(expected, record, had_drainer);
            let gone = had_drainer && !v.drainer;
            &&& w == v.placed(expected, record).0
            &&& step matches PlaceStep::Placed { placement, flush } ==> v.placed(
                expected,
                record,
            ).1 == (TryPlace::Placed { placement, flush })
            &&& step is Wait ==> v.placed(expected, record).1 is Full && !gone
            &&& step == PlaceStep::Refused(PoolError::NoDrainer) ==> v.placed(expected, record).1
                is Full && gone
            &&& step == PlaceStep::Refused(PoolError::TooLarge) ==> v.placed(expected, record).1
                is TooLarge
        }),
{
}

// ---------------------------------------------------------------------------
// Pages that go.

/// A page that an append opens gets the next number, which no page gets again
/// until the numbers run out. No other page's number changes.
pub proof fn opened_page_gets_the_next_number(v: PoolView, record: Seq<u8>, k: int)
    requires
        v.wf(),
        v.ring.next < u64::MAX,
        v.appended(record).1 is Cached,
        0 <= k < v.ring.pages.len(),
    ensures
        ({
            let r = v.ring;
            let s = v.appended(record).0.ring;
            let page = r.pages[r.active];
            let room = page.bytes().len() + 4 * page.records.len() + wal_entry_v1::entry(
                record,
            ).len() + 4 <= r.page_size;
            &&& k != s.active || room ==> s.pages[k].page_id == r.pages[k].page_id
            &&& room ==> s.next_page_id == r.next_page_id
            &&& !room ==> s.pages[s.active].page_id == r.next_page_id && s.pages[s.active].first
                == r.next
            &&& !room && r.next_page_id < u64::MAX ==> s.next_page_id == r.next_page_id + 1
        }),
{
    append_takes_what_fits(v, record);
    if v.ring.target() is Some {
        assert(v.ring.is_target(v.ring.target()->0));
    }
}

/// Stepping over an id puts no record under it and moves the sequence on by
/// one. What it makes memory lose is below the cache floor from then on, and
/// the floor rises no further than that.
pub proof fn stepped_over_id_has_no_record(v: PoolView)
    requires
        v.wf(),
        v.ring.next < u64::MAX,
        v.ring.evicted is None,
    ensures
        v.skipped() matches Some(w) ==> {
            &&& w.ring.next == v.ring.next + 1
            &&& w.ring.pages[w.ring.active].records.len() == 0
            &&& w.ring.pages[w.ring.active].first == w.ring.next
            &&& w.ring.essential == v.ring.essential
            &&& forall|record: Seq<u8>| !holds(w.ring, v.ring.next as int, record)
            &&& forall|k: int|
                0 <= k < v.ring.pages.len() && k != w.ring.active ==> #[trigger] w.ring.pages[k]
                    == v.ring.pages[k]
            &&& w.cache_floor >= v.cache_floor
            &&& w.cache_floor != v.cache_floor ==> {
                let page = v.ring.pages[w.ring.active];
                page.records.len() > 0 && w.cache_floor == page.first + page.records.len()
            }
            &&& v.ring.pages[w.ring.active].records.len() > 0 ==> can_go(v.ring, w.ring.active)
                && w.cache_floor >= v.ring.pages[w.ring.active].first
                + v.ring.pages[w.ring.active].records.len()
        },
        v.skipped() is None ==> v.ring.pages[v.ring.active].records.len() > 0 && forall|k: int|
            0 <= k < v.ring.pages.len() ==> !#[trigger] can_go(v.ring, k),
{
    let r = v.ring;
    if let Some(w) = v.skipped() {
        if !r.pages[r.active].is_empty() {
            let k = r.target()->0;
            assert(r.is_target(k));
            assert(r.pages[k].wf(r.page_size));
        }
        assert forall|record: Seq<u8>| !holds(w.ring, r.next as int, record) by {
            if holds(w.ring, r.next as int, record) {
                let (k, i) = choose|k: int, i: int|
                    on_page(w.ring, k, i, r.next as int, record);
                assert(k != w.ring.active);
                assert(w.ring.pages[k] == r.pages[k]);
                assert(on_page(r, k, i, r.next as int, record));
                held_record_is_found(r, k, i, r.next as int, record);
            }
        }
    } else {
        assert forall|k: int| 0 <= k < r.pages.len() implies !#[trigger] can_go(r, k) by {
            if can_go(r, k) {
                assert(r.reusable(k));
                lemma_target_exists(r, k);
            }
        }
    }
}

/// The records of pages that a pool gives up are below the cache floor from
/// then on, so that no read misses them between others.
pub proof fn given_up_records_are_below_the_floor(v: PoolView, id: u64, k: int, i: int)
    requires
        v.wf(),
        0 <= k < v.ring.pages.len(),
        0 <= i < v.ring.pages[k].records.len(),
    ensures
        ({
            let w = v.durable_in(id);
            k < w.ring.pages.len() || v.ring.pages[k].first + i < w.cache_floor
        }),
{
    if id > v.ring.essential {
        let risen = RingView { essential: id, ..v.ring };
        page_pool::lemma_essential_wf(v.ring, id);
        page_pool::lemma_shrunk_down(risen, v.floor);
        lemma_shrunk_evicts(risen, v.floor, k);
        assert(v.ring.pages[k].wf(v.ring.page_size));
    }
}

proof fn lemma_shrunk_evicts(r: RingView, floor: nat, k: int)
    requires
        r.wf(),
        0 <= k < r.pages.len(),
        !r.pages[k].is_empty(),
    ensures
        ({
            let s = page_pool::shrunk_down(r, floor);
            k < s.pages.len() || (s.evicted is Some && s.evicted->0 >= r.pages[k].end() - 1)
        }),
    decreases r.pages.len(),
{
    if r.can_shrink(floor) {
        let top = r.pages.len() - 1;
        let t = r.shrunk();
        crate::wal_ring_v1::lemma_shrunk_wf(r);
        assert(page_pool::shrunk_down(r, floor) == page_pool::shrunk_down(t, floor));
        if k < top {
            assert(t.pages[k] == r.pages[k]);
            lemma_shrunk_evicts(t, floor, k);
        } else {
            assert(r.pages[top].wf(r.page_size));
            assert(t.evicted is Some && t.evicted->0 >= r.pages[top].end() - 1);
            lemma_evicted_rises(t, floor);
        }
    }
}

proof fn lemma_evicted_rises(r: RingView, floor: nat)
    requires
        r.wf(),
    ensures
        r.evicted is Some ==> page_pool::shrunk_down(r, floor).evicted is Some
            && page_pool::shrunk_down(r, floor).evicted->0 >= r.evicted->0,
    decreases r.pages.len(),
{
    if r.can_shrink(floor) {
        let t = r.shrunk();
        crate::wal_ring_v1::lemma_shrunk_wf(r);
        assert(r.pages[r.pages.len() - 1].wf(r.page_size));
        assert(page_pool::shrunk_down(r, floor) == page_pool::shrunk_down(t, floor));
        assert(r.evicted is Some ==> t.evicted is Some && t.evicted->0 >= r.evicted->0);
        lemma_evicted_rises(t, floor);
    }
}

} // verus!
