//! The order in which records reach a file from pages.

use vstd::prelude::*;
use crate::ack_file_writer;
use crate::page_pool;
use crate::page_pool::{PendingWrite, PoolView};
use crate::pool_laws;
use crate::wal_file;
use crate::wal_page;
use crate::wal_page::PageView;
use crate::wal_ring_v1;
use crate::wal_ring_v1::RingView;

verus! {

/// The bytes of runs, one after the other.
pub open spec fn joined(runs: Seq<(PendingWrite, Seq<u8>)>) -> Seq<u8>
    decreases runs.len(),
{
    if runs.len() == 0 {
        Seq::empty()
    } else {
        joined(runs.drop_last()) + runs.last().1
    }
}

/// The `n` records from an id on.
pub open spec fn records_from(r: RingView, from: int, n: nat) -> Seq<Seq<u8>> {
    Seq::new(n, |i: int| r.record(from + i))
}

/// How many entries of a page have ids below `id`.
pub open spec fn count_below(p: PageView, id: int) -> int {
    if id <= p.first {
        0
    } else if id >= p.end() {
        p.records.len() as int
    } else {
        id - p.first
    }
}

/// Whether the pages of a file are written up to the entry with this id, and
/// not further.
pub open spec fn written_up_to(v: PoolView, epoch: u64, id: int) -> bool {
    forall|k: int|
        0 <= k < v.ring.pages.len() && !(#[trigger] v.ring.pages[k]).is_empty() && v.epochs[k]
            == epoch ==> v.written[k] == v.ring.pages[k].offset(count_below(v.ring.pages[k], id))
}

/// Whether an id is on a page of this file.
pub open spec fn held(v: PoolView, epoch: u64, id: int) -> bool {
    v.ring.has(id) && v.epochs[v.ring.page_of(id)] == epoch
}

/// Whether every id from `from` to `to` is on a page of this file.
pub open spec fn all_held(v: PoolView, epoch: u64, from: int, to: int) -> bool {
    forall|id: int| from <= id <= to ==> #[trigger] held(v, epoch, id)
}

/// Whether ids below `c` are on the pages of the first `i` runs.
pub open spec fn covered(
    v: PoolView,
    runs: Seq<(PendingWrite, Seq<u8>)>,
    i: int,
    from: int,
    c: int,
) -> bool {
    forall|id: int| from <= id < c ==> #[trigger] on_some_page(v, runs, i, id)
}

pub open spec fn on_some_page(
    v: PoolView,
    runs: Seq<(PendingWrite, Seq<u8>)>,
    i: int,
    id: int,
) -> bool {
    exists|j: int| 0 <= j < i && (#[trigger] runs[j]).0.page == v.ring.page_of(id)
}

proof fn lemma_page_of(v: PoolView, id: int)
    requires
        v.ring.has(id),
    ensures
        0 <= v.ring.page_of(id) < v.ring.pages.len(),
        v.ring.pages[v.ring.page_of(id)].has(id),
{
}

/// The page of an id that is to be written has a run, which reaches the id.
proof fn lemma_has_run(
    v: PoolView,
    runs: Seq<(PendingWrite, Seq<u8>)>,
    epoch: u64,
    from: int,
    bound: u64,
    id: int,
) -> (j: int)
    requires
        v.wf(),
        page_pool::pending_is(v, runs, epoch),
        v.handed_through == Some(bound),
        written_up_to(v, epoch, from),
        all_held(v, epoch, from, bound as int),
        from <= id <= bound,
    ensures
        0 <= j < runs.len(),
        runs[j].0.page == v.ring.page_of(id),
        runs[j].0.last_entry_id >= id,
        runs[j].0.first_entry_id <= id,
{
    assert(held(v, epoch, id));
    lemma_page_of(v, id);
    let k = v.ring.page_of(id);
    let p = v.ring.pages[k];
    assert(p.wf(v.ring.page_size));
    let last = if p.end() - 1 <= bound {
        p.end() - 1
    } else {
        bound as int
    };
    let a = count_below(p, from);
    wal_page::lemma_offset_monotone(p, a, last - p.first + 1);
    assert(v.run(k, epoch) is Some);
    page_pool::lemma_entries_before(p, a);
    let j = choose|j: int| 0 <= j < runs.len() && (#[trigger] runs[j]).0.page == k;
    assert(v.run(k, epoch) == Some(runs[j].0));
    j
}

/// Where a run begins: with the first entry of its page that is not written.
pub proof fn lemma_run_start(
    v: PoolView,
    runs: Seq<(PendingWrite, Seq<u8>)>,
    epoch: u64,
    from: int,
    bound: u64,
    i: int,
)
    requires
        v.wf(),
        page_pool::pending_is(v, runs, epoch),
        v.handed_through == Some(bound),
        written_up_to(v, epoch, from),
        0 <= i < runs.len(),
    ensures
        ({
            let w = runs[i].0;
            let p = v.ring.pages[w.page as int];
            let a = count_below(p, from);
            let s = p.first + a;
            let n = w.last_entry_id - p.first + 1;
            &&& w.page < v.ring.pages.len()
            &&& w.first_entry_id == s
            &&& from <= s <= w.last_entry_id <= bound
            &&& w.last_entry_id < p.end()
            &&& s == (if from <= p.first {
                p.first as int
            } else {
                from
            })
            &&& 0 <= a < n <= p.records.len()
            &&& runs[i].1 == wal_file::packed(p.records.subrange(a, n))
            &&& w.to == p.offset(n)
        }),
{
    let w = runs[i].0;
    let k = w.page as int;
    let p = v.ring.pages[k];
    page_pool::lemma_run_bounds(v, k, epoch);
    assert(v.run(k, epoch) == Some(w));
    assert(!p.is_empty());
    assert(v.written[k] == p.offset(count_below(p, from)));
    let a = count_below(p, from);
    let n = w.last_entry_id - p.first + 1;
    assert(p.wf(v.ring.page_size));
    page_pool::lemma_entries_before(p, a);
    if a >= n {
        wal_page::lemma_offset_monotone(p, n, a);
    }
    wal_page::lemma_packed_split(p.records, n);
    let t = p.records.take(n);
    wal_page::lemma_packed_split(t, a);
    assert(t.take(a) =~= p.records.take(a));
    assert(t.skip(a) =~= p.records.subrange(a, n));
    assert(runs[i].1 =~= wal_file::packed(p.records.subrange(a, n)));
}

/// A run begins where the runs before it ended.
proof fn lemma_run_follows(
    v: PoolView,
    runs: Seq<(PendingWrite, Seq<u8>)>,
    epoch: u64,
    from: int,
    bound: u64,
    i: int,
    c: int,
)
    requires
        v.wf(),
        page_pool::pending_is(v, runs, epoch),
        v.handed_through == Some(bound),
        written_up_to(v, epoch, from),
        all_held(v, epoch, from, bound as int),
        0 <= from <= bound,
        0 < i <= runs.len(),
        from <= c <= bound + 1,
        i == 1 ==> c == from,
        i > 1 ==> c == runs[i - 2].0.last_entry_id + 1,
        covered(v, runs, i - 1, from, c),
    ensures
        runs[i - 1].0.first_entry_id == c,
{
    let w = runs[i - 1].0;
    let k = w.page as int;
    let p = v.ring.pages[k];
    lemma_run_start(v, runs, epoch, from, bound, i - 1);
    let s = w.first_entry_id as int;
    assert(p.has(s));
    wal_ring_v1::lemma_record_at(v.ring, s, k);
    if s < c {
        assert(on_some_page(v, runs, i - 1, s));
        let j = choose|j: int| 0 <= j < i - 1 && (#[trigger] runs[j]).0.page == v.ring.page_of(s);
        assert(v.run(k, epoch) == Some(runs[j].0));
        assert(v.run(k, epoch) == Some(w));
        assert(runs[j].0.last_entry_id < runs[i - 1].0.first_entry_id);
    }
    if s > c {
        let j = lemma_has_run(v, runs, epoch, from, bound, c);
        assert(held(v, epoch, c));
        lemma_page_of(v, c);
        if j < i - 1 {
            if j < i - 2 {
                lemma_run_start(v, runs, epoch, from, bound, i - 2);
                assert(runs[j].0.last_entry_id < runs[i - 2].0.first_entry_id);
            }
        } else if j > i - 1 {
            assert(runs[i - 1].0.last_entry_id < runs[j].0.first_entry_id);
        }
    }
}

proof fn lemma_prefix(
    v: PoolView,
    runs: Seq<(PendingWrite, Seq<u8>)>,
    epoch: u64,
    from: int,
    bound: u64,
    i: int,
) -> (c: int)
    requires
        v.wf(),
        page_pool::pending_is(v, runs, epoch),
        v.handed_through == Some(bound),
        written_up_to(v, epoch, from),
        all_held(v, epoch, from, bound as int),
        0 <= from <= bound,
        0 <= i <= runs.len(),
    ensures
        from <= c <= bound + 1,
        i == 0 ==> c == from,
        i > 0 ==> c == runs[i - 1].0.last_entry_id + 1,
        covered(v, runs, i, from, c),
        joined(runs.take(i)) == wal_file::packed(records_from(v.ring, from, (c - from) as nat)),
    decreases i,
{
    if i == 0 {
        assert(runs.take(0) =~= Seq::empty());
        assert(records_from(v.ring, from, 0) =~= Seq::empty());
        from
    } else {
        let c = lemma_prefix(v, runs, epoch, from, bound, i - 1);
        let w = runs[i - 1].0;
        let k = w.page as int;
        let p = v.ring.pages[k];
        lemma_run_start(v, runs, epoch, from, bound, i - 1);
        let a = count_below(p, from);
        let n = w.last_entry_id - p.first + 1;
        lemma_run_follows(v, runs, epoch, from, bound, i, c);
        let d = w.last_entry_id + 1;
        assert forall|id: int| from <= id < d implies #[trigger] on_some_page(v, runs, i, id) by {
            if id < c {
                assert(on_some_page(v, runs, i - 1, id));
                let j = choose|j: int|
                    0 <= j < i - 1 && (#[trigger] runs[j]).0.page == v.ring.page_of(id);
                assert(runs[j].0.page == v.ring.page_of(id));
            } else {
                assert(p.has(id));
                wal_ring_v1::lemma_record_at(v.ring, id, k);
                assert(runs[i - 1].0.page == v.ring.page_of(id));
            }
        }
        let front = records_from(v.ring, from, (c - from) as nat);
        let more = p.records.subrange(a, n);
        let all = records_from(v.ring, from, (d - from) as nat);
        assert(all =~= front + more) by {
            assert forall|x: int| 0 <= x < all.len() implies #[trigger] all[x] == (front
                + more)[x] by {
                if x >= front.len() {
                    let id = from + x;
                    assert(p.has(id));
                    wal_ring_v1::lemma_record_at(v.ring, id, k);
                }
            }
        }
        wal_file::lemma_packed_concat(front, more);
        assert(runs.take(i).drop_last() =~= runs.take(i - 1));
        assert(runs.take(i).last() == runs[i - 1]);
        d
    }
}

/// Records reach a file from their pages in id order and without a gap. Where
/// the pages of a file are written up to some id, a flush writes exactly the
/// records from that id to the last that was handed over, one after the other.
pub proof fn flush_writes_in_id_order(
    v: PoolView,
    runs: Seq<(PendingWrite, Seq<u8>)>,
    epoch: u64,
    from: int,
    bound: u64,
)
    requires
        v.wf(),
        page_pool::pending_is(v, runs, epoch),
        v.handed_through == Some(bound),
        written_up_to(v, epoch, from),
        all_held(v, epoch, from, bound as int),
        0 <= from <= bound,
    ensures
        joined(runs) == wal_file::packed(
            records_from(v.ring, from, (bound + 1 - from) as nat),
        ),
        runs.len() > 0,
        runs.last().0.last_entry_id == bound,
{
    let c = lemma_prefix(v, runs, epoch, from, bound, runs.len() as int);
    assert(runs.take(runs.len() as int) =~= runs);
    if c <= bound {
        let j = lemma_has_run(v, runs, epoch, from, bound, c);
        let n = runs.len() - 1;
        if j < n {
            lemma_run_start(v, runs, epoch, from, bound, n);
            assert(runs[j].0.last_entry_id < runs[n].0.first_entry_id);
        }
    }
}

/// Whether one of the first `i` runs is on this page.
pub open spec fn has_run_on(runs: Seq<(PendingWrite, Seq<u8>)>, i: int, k: int) -> bool {
    exists|j: int| 0 <= j < i && (#[trigger] runs[j]).0.page == k
}

proof fn lemma_committed_exactly(
    v: PoolView,
    runs: Seq<(PendingWrite, Seq<u8>)>,
    epoch: u64,
    i: int,
    k: int,
)
    requires
        v.wf(),
        page_pool::pending_is(v, runs, epoch),
        0 <= i <= runs.len(),
        0 <= k < v.ring.pages.len(),
    ensures
        ({
            let after = ack_file_writer::all_committed(v, runs.take(i));
            &&& after.written.len() == v.written.len()
            &&& after.written[k] == (if has_run_on(runs, i, k) {
                (v.run(k, epoch)->0).to as nat
            } else {
                v.written[k]
            })
        }),
    decreases i,
{
    if i == 0 {
        assert(runs.take(0) =~= Seq::empty());
    } else {
        let w = runs[i - 1].0;
        let m = w.page as int;
        lemma_committed_exactly(v, runs, epoch, i - 1, k);
        assert(runs.take(i).drop_last() =~= runs.take(i - 1));
        assert(runs.take(i).last() == runs[i - 1]);
        assert(v.run(m, epoch) == Some(w));
        page_pool::lemma_run_bounds(v, m, epoch);
        if m == k {
            if has_run_on(runs, i - 1, k) {
                let j = choose|j: int| 0 <= j < i - 1 && (#[trigger] runs[j]).0.page == k;
                assert(v.run(k, epoch) == Some(runs[j].0));
                assert(runs[j].0.last_entry_id < runs[i - 1].0.first_entry_id);
            }
            assert(runs[i - 1].0.page == k);
            assert(has_run_on(runs, i, k));
        } else if has_run_on(runs, i, k) {
            let j = choose|j: int| 0 <= j < i && (#[trigger] runs[j]).0.page == k;
            assert(runs[j].0.page == k);
            assert(has_run_on(runs, i - 1, k));
        } else if has_run_on(runs, i - 1, k) {
            let j = choose|j: int| 0 <= j < i - 1 && (#[trigger] runs[j]).0.page == k;
            assert(runs[j].0.page == k);
        }
    }
}

/// Once a flush has ended well, the pages of the file are written up to behind
/// the last record that was handed over, so the next flush goes on from there.
pub proof fn flush_goes_on_where_it_ended(
    v: PoolView,
    runs: Seq<(PendingWrite, Seq<u8>)>,
    epoch: u64,
    from: int,
    bound: u64,
)
    requires
        v.wf(),
        page_pool::pending_is(v, runs, epoch),
        v.handed_through == Some(bound),
        written_up_to(v, epoch, from),
        0 <= from <= bound,
    ensures
        written_up_to(ack_file_writer::all_committed(v, runs), epoch, bound + 1),
{
    let after = ack_file_writer::all_committed(v, runs);
    ack_file_writer::lemma_all_committed(v, runs);
    assert(runs.take(runs.len() as int) =~= runs);
    assert forall|k: int|
        0 <= k < after.ring.pages.len() && !(#[trigger] after.ring.pages[k]).is_empty()
            && after.epochs[k] == epoch implies after.written[k] == after.ring.pages[k].offset(
        count_below(after.ring.pages[k], bound + 1),
    ) by {
        let p = v.ring.pages[k];
        lemma_committed_exactly(v, runs, epoch, runs.len() as int, k);
        assert(v.written[k] == p.offset(count_below(p, from)));
        if let Some(w) = v.run(k, epoch) {
            page_pool::lemma_run_bounds(v, k, epoch);
            let j = choose|j: int| 0 <= j < runs.len() && (#[trigger] runs[j]).0.page == k;
            assert(has_run_on(runs, runs.len() as int, k));
        } else {
            assert(!has_run_on(runs, runs.len() as int, k)) by {
                if has_run_on(runs, runs.len() as int, k) {
                    let j = choose|j: int| 0 <= j < runs.len() && (#[trigger] runs[j]).0.page == k;
                    assert(v.run(k, epoch) == Some(runs[j].0));
                }
            }
            assert(p.wf(v.ring.page_size));
            if bound >= p.first {
                let last = if p.end() - 1 <= bound {
                    p.end() - 1
                } else {
                    bound as int
                };
                let a = count_below(p, from);
                if a < last - p.first + 1 {
                    wal_page::lemma_offset_monotone(p, a, last - p.first + 1);
                }
            }
        }
    }
}

/// When a writer begins, nothing that is on the pages is its to write: they
/// count as written up to the next id.
pub proof fn arming_starts_in_order(v: PoolView, max_file_size: u64, header_len: u64)
    requires
        v.wf(),
    ensures
        written_up_to(v.armed(max_file_size, header_len), 0, v.ring.next as int),
{
    let w = v.armed(max_file_size, header_len);
    assert forall|k: int|
        0 <= k < w.ring.pages.len() && !(#[trigger] w.ring.pages[k]).is_empty() && w.epochs[k]
            == 0 implies w.written[k] == w.ring.pages[k].offset(
        count_below(w.ring.pages[k], v.ring.next as int),
    ) by {
        let p = v.ring.pages[k];
        if k != v.ring.active {
            assert(p.end() <= v.ring.pages[v.ring.active].first);
        }
        assert(p.records.take(p.records.len() as int) =~= p.records);
    }
}

/// Whether the page that is appended to belongs to the open file.
pub open spec fn page_is_current(v: PoolView) -> bool {
    v.fill matches Some(f) && (v.ring.pages[v.ring.active].is_empty() || v.epochs[v.ring.active]
        == f.epoch)
}

/// Placing a record keeps every file in order: its pages stay written up to
/// the same id, and a record that belongs to the file follows on those that are
/// held of it.
pub proof fn placing_keeps_the_order(v: PoolView, record: Seq<u8>, epoch: u64, from: int)
    requires
        v.wf(),
        v.ring.next < u64::MAX,
        page_is_current(v),
        written_up_to(v, epoch, from),
        from <= v.ring.next,
        v.placed(v.ring.next, record).1 is Placed,
    ensures
        ({
            let w = v.placed(v.ring.next, record).0;
            let p = v.placed(v.ring.next, record).1->placement;
            &&& page_is_current(w)
            &&& written_up_to(w, epoch, from)
            &&& p.epoch == epoch && from >= v.ring.essential && all_held(
                v,
                epoch,
                from,
                v.ring.next - 1,
            ) ==> all_held(w, epoch, from, v.ring.next as int)
        }),
{
    let next = v.ring.next;
    let w = v.placed(next, record).0;
    let placement = v.placed(next, record).1->placement;
    assert(v.synced(next) == (v, true));
    if let Some(t) = v.ring.target() {
        assert(v.ring.is_target(t));
    }
    let m = w.ring.active;
    pool_laws::placed_record_is_held(v, next, record);
    assert(!w.ring.pages[m].is_empty());
    assert(w.epochs[m] == placement.epoch);
    assert forall|k: int|
        0 <= k < w.ring.pages.len() && !(#[trigger] w.ring.pages[k]).is_empty() && w.epochs[k]
            == epoch implies w.written[k] == w.ring.pages[k].offset(
        count_below(w.ring.pages[k], from),
    ) by {
        let q = w.ring.pages[k];
        let p = v.ring.pages[k];
        if k != m {
            assert(q == p);
            assert(w.epochs[k] == v.epochs[k]);
            assert(w.written[k] == v.written[k]);
        } else if v.opens_page(record) || p.is_empty() {
            assert(q.first == next);
            assert(page_pool::is_boundary(v.ring.pages[k], v.written[k]));
            if !v.opens_page(record) {
                assert(p.records =~= Seq::<Seq<u8>>::empty());
                assert(p.records.take(0) =~= p.records);
                assert(p.offset(0) == 0);
            }
            assert(w.written[k] == 0);
            assert(q.records.take(0) =~= Seq::<Seq<u8>>::empty());
            assert(q.offset(0) == 0);
        } else {
            assert(k == v.ring.active);
            assert(v.epochs[k] == epoch);
            let n = count_below(p, from);
            assert(count_below(q, from) == n);
            assert(q.records.take(n) =~= p.records.take(n));
        }
    }
    assert(written_up_to(w, epoch, from));
    assert(page_is_current(w));
    if placement.epoch == epoch && from >= v.ring.essential && all_held(v, epoch, from, next - 1) {
        lemma_placed_held(v, record, epoch, from);
    }
}

proof fn lemma_placed_held(v: PoolView, record: Seq<u8>, epoch: u64, from: int)
    requires
        v.wf(),
        v.ring.next < u64::MAX,
        page_is_current(v),
        from >= v.ring.essential,
        v.placed(v.ring.next, record).1 is Placed,
        v.placed(v.ring.next, record).1->placement.epoch == epoch,
        all_held(v, epoch, from, v.ring.next - 1),
    ensures
        all_held(v.placed(v.ring.next, record).0, epoch, from, v.ring.next as int),
{
    let next = v.ring.next;
    let w = v.placed(next, record).0;
    assert(v.synced(next) == (v, true));
    if let Some(t) = v.ring.target() {
        assert(v.ring.is_target(t));
    }
    let m = w.ring.active;
    pool_laws::placed_record_is_held(v, next, record);
    page_pool::lemma_pool_appended_wf(v, record);
    assert(w.ring.wf());
    assert(w.epochs[m] == epoch);
    assert forall|id: int| from <= id <= next implies #[trigger] held(w, epoch, id) by {
        if id == next {
            assert(w.ring.pages[m].has(id));
            wal_ring_v1::lemma_record_at(w.ring, id, m);
        } else {
            assert(held(v, epoch, id));
            lemma_page_of(v, id);
            let k = v.ring.page_of(id);
            assert(v.ring.pages[k].end() - 1 >= v.ring.essential);
            assert(w.ring.pages[k].has(id));
            wal_ring_v1::lemma_record_at(w.ring, id, k);
        }
    }
}

} // verus!
