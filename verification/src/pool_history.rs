//! What holds of a pool over any course of operations since its writer began.

use vstd::prelude::*;
use crate::page_pool;
use crate::page_pool::{PendingWrite, PoolView, RotateHint, TryPlace, MAX_STEPPABLE_GAP};
use crate::pool_laws;
use crate::wal_ring_v1;
use crate::wal_ring_v1::{AppendOutcome, RingView};

verus! {

// ---------------------------------------------------------------------------
// Operations.

/// Something that is done to a pool.
pub enum PoolOp {
    Place { expected: u64, record: Seq<u8> },
    Append(Seq<u8>),
    Reseed(u64),
    HandOver(u64),
    Commit(PendingWrite),
    Durable(u64),
    DurableIn(u64),
    Grow,
    Pin { start: u64, end: u64 },
    Unpin(int),
}

/// Whether an operation may be done.
pub open spec fn permitted(v: PoolView, op: PoolOp) -> bool {
    match op {
        PoolOp::Place { expected, record } => expected < u64::MAX,
        PoolOp::Append(_) => v.ring.next < u64::MAX,
        PoolOp::Commit(w) => w.page < v.ring.pages.len() && page_pool::is_boundary(
            v.ring.pages[w.page as int],
            w.to as nat,
        ),
        PoolOp::Grow => v.ring.first_slot matches Some(s) && s + v.ring.pages.len() + 1
            <= usize::MAX,
        PoolOp::Pin { start, end } => forall|k: int|
            0 <= k < v.ring.pages.len() ==> (#[trigger] v.ring.pages[k]).pins + 4096 <= u32::MAX,
        PoolOp::Unpin(k) => 0 <= k < v.ring.pages.len() && v.ring.pages[k].pins > 0,
        _ => true,
    }
}

/// The pool after an operation.
pub open spec fn after(v: PoolView, op: PoolOp) -> PoolView {
    match op {
        PoolOp::Place { expected, record } => v.placed(expected, record).0,
        PoolOp::Append(record) => v.appended(record).0,
        PoolOp::Reseed(first) => match v.reseeded(first) {
            Some(w) => w,
            None => v,
        },
        PoolOp::HandOver(id) => PoolView {
            handed_through: wal_ring_v1::raised(v.handed_through, id),
            ..v
        },
        PoolOp::Commit(w) => v.committed(w),
        PoolOp::Durable(id) => v.durable(id),
        PoolOp::DurableIn(id) => v.durable_in(id),
        PoolOp::Grow => v.grown(),
        PoolOp::Pin { start, end } => {
            let from = v.served_from(start);
            if from > end {
                v
            } else {
                PoolView {
                    ring: page_pool::with_quotas(
                        v.ring,
                        page_pool::full_plan(v.ring, from, end).quotas,
                    ),
                    ..v
                }
            }
        },
        PoolOp::Unpin(k) => PoolView {
            ring: v.ring.with_pins(k, (v.ring.pages[k].pins - 1) as u32),
            ..v
        },
    }
}

// ---------------------------------------------------------------------------
// Operations leave a well-formed pool.

proof fn lemma_with_quotas_wf(r: RingView, quotas: Seq<nat>)
    requires
        r.wf(),
    ensures
        page_pool::with_quotas(r, quotas).wf(),
{
    let s = page_pool::with_quotas(r, quotas);
    assert forall|j: int| 0 <= j < s.pages.len() implies (#[trigger] s.pages[j]).wf(
        s.page_size,
    ) by {
        assert(r.pages[j].wf(r.page_size));
    }
    assert forall|j: int|
        0 <= j < s.pages.len() && j != s.active && !(
        #[trigger] s.pages[j]).is_empty() implies s.pages[j].end() <= s.pages[s.active].first by {
        assert(!r.pages[j].is_empty());
    }
    assert forall|i: int, j: int|
        #![trigger s.pages[i], s.pages[j]]
        0 <= i < s.pages.len() && 0 <= j < s.pages.len() && i != j && !s.pages[i].is_empty()
            && !s.pages[j].is_empty() implies s.apart(i, j) by {
        assert(!r.pages[i].is_empty() && !r.pages[j].is_empty());
        assert(r.apart(i, j));
    }
}

pub proof fn lemma_place_wf(v: PoolView, expected: u64, record: Seq<u8>)
    requires
        v.wf(),
        expected < u64::MAX,
    ensures
        v.placed(expected, record).0.wf(),
{
    let (w, there) = v.synced(expected);
    pool_laws::lemma_synced(v, expected);
    if there {
        page_pool::lemma_pool_appended_wf(w, record);
    }
}

proof fn lemma_same_records_wf(v: PoolView, ring: RingView)
    requires
        v.wf(),
        ring.wf(),
        ring.pages.len() == v.ring.pages.len(),
        forall|k: int|
            0 <= k < ring.pages.len() ==> (#[trigger] ring.pages[k]).records
                == v.ring.pages[k].records,
    ensures
        (PoolView { ring, ..v }).wf(),
{
    let w = PoolView { ring, ..v };
    assert forall|k: int| 0 <= k < w.written.len() implies page_pool::is_boundary(
        w.ring.pages[k],
        #[trigger] w.written[k],
    ) by {
        assert(page_pool::is_boundary(v.ring.pages[k], v.written[k]));
        assert(ring.pages[k].records == v.ring.pages[k].records);
        page_pool::lemma_boundary_same_records(v.ring.pages[k], w.ring.pages[k], v.written[k]);
    }
}

proof fn lemma_durable_in_wf(v: PoolView, id: u64)
    requires
        v.wf(),
    ensures
        v.durable_in(id).wf(),
{
    if id > v.ring.essential {
        let risen = RingView { essential: id, ..v.ring };
        page_pool::lemma_essential_wf(v.ring, id);
        page_pool::lemma_shrunk_down(risen, v.floor);
        let ring = page_pool::shrunk_down(risen, v.floor);
        page_pool::lemma_evicted_irrelevant(ring);
        let w = v.durable_in(id);
        assert forall|k: int| 0 <= k < w.written.len() implies page_pool::is_boundary(
            w.ring.pages[k],
            #[trigger] w.written[k],
        ) by {
            assert(page_pool::is_boundary(v.ring.pages[k], v.written[k]));
            assert(w.ring.pages[k] == v.ring.pages[k]);
        }
    }
}

proof fn lemma_grown_pool_wf(v: PoolView)
    requires
        v.wf(),
        permitted(v, PoolOp::Grow),
    ensures
        v.grown().wf(),
{
    wal_ring_v1::lemma_grown_wf(v.ring);
    let w = v.grown();
    assert forall|k: int| 0 <= k < w.written.len() implies page_pool::is_boundary(
        w.ring.pages[k],
        #[trigger] w.written[k],
    ) by {
        if k < v.written.len() {
            assert(page_pool::is_boundary(v.ring.pages[k], v.written[k]));
        } else {
            page_pool::lemma_zero_is_boundary(w.ring.pages[k]);
        }
    }
}

proof fn lemma_committed_wf(v: PoolView, c: PendingWrite)
    requires
        v.wf(),
        permitted(v, PoolOp::Commit(c)),
    ensures
        v.committed(c).wf(),
{
    let w = v.committed(c);
    assert forall|k: int| 0 <= k < w.written.len() implies page_pool::is_boundary(
        w.ring.pages[k],
        #[trigger] w.written[k],
    ) by {
        assert(page_pool::is_boundary(v.ring.pages[k], v.written[k]));
    }
}

/// Whatever is done to a pool, it stays well-formed.
pub proof fn operations_keep_a_pool_sound(v: PoolView, op: PoolOp)
    requires
        v.wf(),
        permitted(v, op),
    ensures
        after(v, op).wf(),
{
    match op {
        PoolOp::Place { expected, record } => {
            lemma_place_wf(v, expected, record);
        },
        PoolOp::Append(record) => {
            page_pool::lemma_pool_appended_wf(v, record);
        },
        PoolOp::Reseed(first) => {
            page_pool::lemma_reseeded_wf(v, first);
        },
        PoolOp::HandOver(id) => {},
        PoolOp::Commit(w) => {
            lemma_committed_wf(v, w);
        },
        PoolOp::Durable(id) => {
            if id > v.ring.essential {
                let risen = RingView { essential: id, ..v.ring };
                page_pool::lemma_essential_wf(v.ring, id);
                page_pool::lemma_evicted_irrelevant(risen);
                let ring = RingView { evicted: None, ..risen };
                lemma_same_records_wf(v, ring);
            }
        },
        PoolOp::DurableIn(id) => {
            lemma_durable_in_wf(v, id);
        },
        PoolOp::Grow => {
            lemma_grown_pool_wf(v);
        },
        PoolOp::Pin { start, end } => {
            let quotas = page_pool::full_plan(v.ring, v.served_from(start), end).quotas;
            lemma_with_quotas_wf(v.ring, quotas);
            lemma_same_records_wf(v, page_pool::with_quotas(v.ring, quotas));
        },
        PoolOp::Unpin(k) => {
            let pins = (v.ring.pages[k].pins - 1) as u32;
            wal_ring_v1::lemma_with_pins_wf(v.ring, k, pins);
            lemma_same_records_wf(v, v.ring.with_pins(k, pins));
        },
    }
}

// ---------------------------------------------------------------------------
// Courses of operations.

/// A pool since its writer began.
pub struct History {
    pub pool: PoolView,
    /// Per page, how many of its bytes were there when the writer began.
    pub old: Seq<nat>,
    /// The file that each placed record was said to belong to, by id.
    pub placed: Map<int, u64>,
    /// The file of the last placed record.
    pub last: Option<u64>,
}

/// A writer begins.
pub open spec fn begun(v: PoolView, max_file_size: u64, header_len: u64) -> History {
    let pool = v.armed(max_file_size, header_len);
    History {
        pool,
        old: Seq::new(pool.ring.pages.len(), |k: int| pool.ring.pages[k].bytes().len()),
        placed: Map::empty(),
        last: None,
    }
}

/// How many bytes of each page are still those that were there before: all that
/// were, or none once the page was emptied. A pool forgets about its written
/// bytes at the same moments.
pub open spec fn still_there(v: PoolView, old: Seq<nat>, op: PoolOp) -> Seq<nat> {
    if op is Commit {
        old
    } else {
        after(PoolView { written: old, ..v }, op).written
    }
}

/// One operation more.
pub open spec fn then_done(h: History, op: PoolOp) -> History {
    let next = History {
        pool: after(h.pool, op),
        old: still_there(h.pool, h.old, op),
        ..h
    };
    match op {
        PoolOp::Place { expected, record } => match h.pool.placed(expected, record).1 {
            TryPlace::Placed { placement, flush } => History {
                placed: h.placed.insert(expected as int, placement.epoch),
                last: Some(placement.epoch),
                ..next
            },
            _ => next,
        },
        PoolOp::Append(record) => match h.pool.appended(record).1 {
            AppendOutcome::Cached(id) => History { placed: h.placed.remove(id as int), ..next },
            _ => next,
        },
        _ => next,
    }
}

/// A course of operations.
pub open spec fn course(h: History, ops: Seq<PoolOp>) -> History
    decreases ops.len(),
{
    if ops.len() == 0 {
        h
    } else {
        then_done(course(h, ops.drop_last()), ops.last())
    }
}

/// Whether each operation of a course may be done when its turn comes.
pub open spec fn all_permitted(h: History, ops: Seq<PoolOp>) -> bool
    decreases ops.len(),
{
    ops.len() > 0 ==> {
        &&& all_permitted(h, ops.drop_last())
        &&& permitted(course(h, ops.drop_last()).pool, ops.last())
    }
}

// ---------------------------------------------------------------------------
// What was there when the writer began.

/// Whether two pools differ only in what counts as written, which is less in
/// the first.
spec fn like(u: PoolView, v: PoolView) -> bool {
    &&& u == (PoolView { written: u.written, ..v })
    &&& u.written.len() == v.written.len()
    &&& forall|k: int| 0 <= k < u.written.len() ==> (#[trigger] u.written[k]) <= v.written[k]
}

proof fn lemma_steps_like(u: PoolView, v: PoolView, n: nat)
    requires
        v.wf(),
        like(u, v),
        v.ring.next + n <= u64::MAX,
    ensures
        like(u.stepped_over(n).0, v.stepped_over(n).0),
        u.stepped_over(n).1 == v.stepped_over(n).1,
    decreases n,
{
    if n > 0 {
        page_pool::lemma_pool_skipped_wf(v);
        if let Some(k) = v.ring.target() {
            assert(v.ring.is_target(k));
        }
        if let Some(w) = v.skipped() {
            let x = u.skipped()->0;
            assert(like(x, w));
            lemma_steps_like(x, w, (n - 1) as nat);
        }
    }
}

proof fn lemma_synced_like(u: PoolView, v: PoolView, expected: u64)
    requires
        v.wf(),
        like(u, v),
    ensures
        like(u.synced(expected).0, v.synced(expected).0),
        u.synced(expected).1 == v.synced(expected).1,
{
    let gap = expected - v.ring.next;
    if 0 < gap <= MAX_STEPPABLE_GAP {
        lemma_steps_like(u, v, gap as nat);
    }
}

proof fn lemma_appended_like(u: PoolView, v: PoolView, record: Seq<u8>)
    requires
        v.wf(),
        like(u, v),
    ensures
        like(u.appended(record).0, v.appended(record).0),
        u.appended(record).1 == v.appended(record).1,
{
    if let Some(k) = v.ring.target() {
        assert(v.ring.is_target(k));
    }
    assert(u.opens_page(record) == v.opens_page(record));
}

proof fn lemma_placed_like(u: PoolView, v: PoolView, expected: u64, record: Seq<u8>)
    requires
        v.wf(),
        like(u, v),
        expected < u64::MAX,
    ensures
        like(u.placed(expected, record).0, v.placed(expected, record).0),
{
    lemma_synced_like(u, v, expected);
    pool_laws::lemma_synced(v, expected);
    let (x, there) = u.synced(expected);
    let (w, _) = v.synced(expected);
    lemma_appended_like(x, w, record);
}

proof fn lemma_still_there(v: PoolView, old: Seq<nat>, op: PoolOp)
    requires
        v.wf(),
        permitted(v, op),
        old.len() == v.written.len(),
        forall|k: int| 0 <= k < old.len() ==> (#[trigger] old[k]) <= v.written[k],
    ensures
        ({
            let left = still_there(v, old, op);
            let w = after(v, op);
            &&& left.len() == w.written.len()
            &&& forall|k: int| 0 <= k < left.len() ==> (#[trigger] left[k]) <= w.written[k]
        }),
{
    let u = PoolView { written: old, ..v };
    assert(like(u, v));
    match op {
        PoolOp::Place { expected, record } => {
            lemma_placed_like(u, v, expected, record);
        },
        PoolOp::Append(record) => {
            lemma_appended_like(u, v, record);
        },
        PoolOp::DurableIn(id) => {
            if id > v.ring.essential {
                let risen = RingView { essential: id, ..v.ring };
                page_pool::lemma_essential_wf(v.ring, id);
                page_pool::lemma_shrunk_down(risen, v.floor);
            }
        },
        _ => {},
    }
}

// ---------------------------------------------------------------------------
// Files and pages.

/// Whether every placed record that is held belongs to the file that its page
/// is stamped with.
pub open spec fn pages_agree(h: History) -> bool {
    forall|k: int, id: int|
        0 <= k < h.pool.ring.pages.len() && #[trigger] h.pool.ring.pages[k].has(id)
            && h.placed.contains_key(id) ==> h.placed[id] == h.pool.epochs[k]
}

/// Whether the records on the page that is appended to belong to the open file.
pub open spec fn active_is_current(h: History) -> bool {
    forall|id: int|
        #[trigger] h.pool.ring.pages[h.pool.ring.active].has(id) && h.placed.contains_key(id)
            ==> h.pool.epochs[h.pool.ring.active] == h.pool.fill->0.epoch
}

/// Whether the open file is that of the last placed record.
pub open spec fn last_is_open(h: History) -> bool {
    &&& h.pool.fill is Some
    &&& match h.last {
        None => !h.pool.fill->0.has_written && h.pool.fill->0.epoch == 0,
        Some(e) => h.pool.fill->0.has_written && h.pool.fill->0.epoch == e,
    }
}

/// What holds of a pool since its writer began, whatever was done to it.
pub open spec fn sound(h: History) -> bool {
    &&& h.pool.wf()
    &&& h.old.len() == h.pool.written.len()
    &&& forall|k: int| 0 <= k < h.old.len() ==> (#[trigger] h.old[k]) <= h.pool.written[k]
    &&& pages_agree(h)
    &&& active_is_current(h)
    &&& last_is_open(h)
}

/// Whether each page of a ring is as it was in another, or empty.
spec fn same_or_empty(r: RingView, s: RingView) -> bool {
    &&& s.pages.len() == r.pages.len()
    &&& forall|k: int|
        0 <= k < s.pages.len() ==> (#[trigger] s.pages[k]).is_empty() || s.pages[k] == r.pages[k]
    &&& s.pages[s.active].is_empty() || s.active == r.active
}

proof fn lemma_steps_same(v: PoolView, n: nat)
    requires
        v.wf(),
        v.ring.next + n <= u64::MAX,
    ensures
        same_or_empty(v.ring, v.stepped_over(n).0.ring),
    decreases n,
{
    if n > 0 {
        page_pool::lemma_pool_skipped_wf(v);
        if let Some(k) = v.ring.target() {
            assert(v.ring.is_target(k));
        }
        if let Some(w) = v.skipped() {
            assert(same_or_empty(v.ring, w.ring));
            lemma_steps_same(w, (n - 1) as nat);
            let s = w.stepped_over((n - 1) as nat).0.ring;
            assert forall|k: int| 0 <= k < s.pages.len() implies (
            #[trigger] s.pages[k]).is_empty() || s.pages[k] == v.ring.pages[k] by {
                assert(w.ring.pages[k].is_empty() || w.ring.pages[k] == v.ring.pages[k]);
            }
        }
    }
}

proof fn lemma_synced_same(v: PoolView, expected: u64)
    requires
        v.wf(),
    ensures
        same_or_empty(v.ring, v.synced(expected).0.ring),
{
    let gap = expected - v.ring.next;
    if 0 < gap <= MAX_STEPPABLE_GAP {
        lemma_steps_same(v, gap as nat);
    } else if gap != 0 {
        page_pool::lemma_reseeded_wf(v, expected);
        page_pool::lemma_reinitialised_len(v.ring, expected);
    }
}

/// Whether what a history holds is held in another, on the same pages.
spec fn holds_less(h: History, g: History) -> bool {
    let (r, s) = (h.pool.ring, g.pool.ring);
    &&& forall|k: int|
        0 <= k < s.pages.len() && !(#[trigger] s.pages[k]).is_empty() ==> {
            &&& k < r.pages.len()
            &&& s.pages[k].first == r.pages[k].first
            &&& s.pages[k].records == r.pages[k].records
            &&& g.pool.epochs[k] == h.pool.epochs[k]
        }
    &&& s.pages[s.active].is_empty() || s.active == r.active
    &&& g.pool.fill == h.pool.fill
    &&& g.placed == h.placed
    &&& g.last == h.last
}

proof fn lemma_less_agrees(h: History, g: History)
    requires
        sound(h),
        g.pool.wf(),
        holds_less(h, g),
    ensures
        pages_agree(g),
        active_is_current(g),
        last_is_open(g),
{
    let (r, s) = (h.pool.ring, g.pool.ring);
    assert forall|k: int, id: int|
        0 <= k < s.pages.len() && #[trigger] s.pages[k].has(id) && g.placed.contains_key(
            id,
        ) implies g.placed[id] == g.pool.epochs[k] by {
        assert(!s.pages[k].is_empty());
        assert(r.pages[k].has(id));
    }
    assert forall|id: int|
        #[trigger] s.pages[s.active].has(id) && g.placed.contains_key(
            id,
        ) implies g.pool.epochs[s.active] == g.pool.fill->0.epoch by {
        assert(!s.pages[s.active].is_empty());
        assert(r.pages[r.active].has(id));
    }
}

proof fn lemma_append_agrees(h: History, record: Seq<u8>)
    requires
        sound(h),
        h.pool.ring.next < u64::MAX,
    ensures
        ({
            let g = then_done(h, PoolOp::Append(record));
            pages_agree(g) && active_is_current(g) && last_is_open(g)
        }),
{
    let v = h.pool;
    let g = then_done(h, PoolOp::Append(record));
    let (r, s) = (v.ring, g.pool.ring);
    page_pool::lemma_pool_appended_wf(v, record);
    if let Some(k) = r.target() {
        assert(r.is_target(k));
    }
    if v.appended(record).1 is Cached {
        let id = r.next as int;
        assert(s.pages[s.active].has(id));
        assert forall|k: int, i: int|
            0 <= k < s.pages.len() && #[trigger] s.pages[k].has(i) && g.placed.contains_key(
                i,
            ) implies g.placed[i] == g.pool.epochs[k] by {
            assert(i != id);
            assert(r.pages[k].has(i));
        }
        assert forall|i: int|
            #[trigger] s.pages[s.active].has(i) && g.placed.contains_key(
                i,
            ) implies g.pool.epochs[s.active] == g.pool.fill->0.epoch by {
            assert(i != id);
            assert(s.active == r.active);
            assert(r.pages[r.active].has(i));
        }
    } else {
        lemma_less_agrees(h, g);
    }
}

/// What a placement says of the file that its record belongs to, in view of the
/// one before.
pub open spec fn follows_on(last: Option<u64>, rotate: RotateHint, epoch: u64) -> bool {
    match (last, rotate) {
        (None, RotateHint::NoRotation) => epoch == 0,
        (Some(e), RotateHint::NoRotation) => epoch == e,
        (Some(e), RotateHint::Before) => epoch == wal_ring_v1::next_count(e),
        _ => false,
    }
}

pub proof fn lemma_place_agrees(h: History, expected: u64, record: Seq<u8>)
    requires
        sound(h),
        expected < u64::MAX,
    ensures
        ({
            let g = then_done(h, PoolOp::Place { expected, record });
            let (x, outcome) = h.pool.placed(expected, record);
            &&& pages_agree(g)
            &&& active_is_current(g)
            &&& last_is_open(g)
            &&& outcome matches TryPlace::Placed { placement, flush } ==> {
                &&& follows_on(h.last, placement.rotate, placement.epoch)
                &&& placement.rotate == RotateHint::Before ==> x.ring.pages[x.ring.active].first
                    == expected && x.ring.pages[x.ring.active].records.len() == 1
            }
        }),
{
    let v = h.pool;
    let g = then_done(h, PoolOp::Place { expected, record });
    let (w, there) = v.synced(expected);
    pool_laws::lemma_synced(v, expected);
    lemma_synced_same(v, expected);
    lemma_place_wf(v, expected, record);
    let (x, outcome) = v.placed(expected, record);
    if let Some(k) = w.ring.target() {
        assert(w.ring.is_target(k));
    }
    if outcome is Placed {
        let placement = outcome->placement;
        let id = expected as int;
        let (r, s) = (v.ring, x.ring);
        let a = s.active;
        assert(s.pages[a].has(id));
        if placement.rotate == RotateHint::Before {
            pool_laws::file_ends_where_a_page_ends(v, expected, record);
        }
        assert forall|k: int, i: int|
            0 <= k < s.pages.len() && #[trigger] s.pages[k].has(i) && g.placed.contains_key(
                i,
            ) implies g.placed[i] == g.pool.epochs[k] by {
            if k != a {
                if i == id {
                    wal_ring_v1::lemma_page_unique(s, id, k, a);
                }
                assert(s.pages[k] == w.ring.pages[k]);
                assert(!w.ring.pages[k].is_empty());
                assert(r.pages[k].has(i));
            } else if i != id {
                assert(!w.opens_page(record));
                assert(w.ring.pages[a].has(i));
                assert(!w.ring.pages[a].is_empty());
                assert(r.pages[r.active].has(i));
            }
        }
        assert(g.pool.epochs[a] == placement.epoch);
    } else {
        assert(x.ring.pages == w.ring.pages);
        assert(x.ring.active == w.ring.active);
        assert forall|k: int|
            0 <= k < x.ring.pages.len() && !(
            #[trigger] x.ring.pages[k]).is_empty() implies x.ring.pages[k] == v.ring.pages[k] by {
            assert(w.ring.pages[k].is_empty() || w.ring.pages[k] == v.ring.pages[k]);
        }
        lemma_less_agrees(h, g);
    }
}

pub proof fn lemma_step_sound(h: History, op: PoolOp)
    requires
        sound(h),
        permitted(h.pool, op),
    ensures
        sound(then_done(h, op)),
{
    let g = then_done(h, op);
    operations_keep_a_pool_sound(h.pool, op);
    lemma_still_there(h.pool, h.old, op);
    match op {
        PoolOp::Place { expected, record } => {
            lemma_place_agrees(h, expected, record);
        },
        PoolOp::Append(record) => {
            lemma_append_agrees(h, record);
        },
        PoolOp::Reseed(first) => {
            page_pool::lemma_reseeded_wf(h.pool, first);
            lemma_less_agrees(h, g);
        },
        PoolOp::DurableIn(id) => {
            if id > h.pool.ring.essential {
                let risen = RingView { essential: id, ..h.pool.ring };
                page_pool::lemma_essential_wf(h.pool.ring, id);
                page_pool::lemma_shrunk_down(risen, h.pool.floor);
            }
            lemma_less_agrees(h, g);
        },
        PoolOp::Grow => {
            assert forall|k: int|
                0 <= k < g.pool.ring.pages.len() && !(
                #[trigger] g.pool.ring.pages[k]).is_empty() implies k
                < h.pool.ring.pages.len() by {}
            lemma_less_agrees(h, g);
        },
        _ => {
            lemma_less_agrees(h, g);
        },
    }
}

pub proof fn lemma_course_sound(
    v: PoolView,
    max_file_size: u64,
    header_len: u64,
    ops: Seq<PoolOp>,
)
    requires
        v.wf(),
        all_permitted(begun(v, max_file_size, header_len), ops),
    ensures
        sound(course(begun(v, max_file_size, header_len), ops)),
    decreases ops.len(),
{
    let h = begun(v, max_file_size, header_len);
    if ops.len() == 0 {
        assert forall|k: int| 0 <= k < h.pool.written.len() implies page_pool::is_boundary(
            h.pool.ring.pages[k],
            #[trigger] h.pool.written[k],
        ) by {
            page_pool::lemma_end_is_boundary(h.pool.ring.pages[k]);
        }
    } else {
        lemma_course_sound(v, max_file_size, header_len, ops.drop_last());
        lemma_step_sound(course(h, ops.drop_last()), ops.last());
    }
}

// ---------------------------------------------------------------------------
// What always holds.

/// A page never holds records of two files: whatever was done since the writer
/// began, all placed records on a page were said to belong to the same file,
/// the one that the page is stamped with.
pub proof fn page_holds_one_file(
    v: PoolView,
    max_file_size: u64,
    header_len: u64,
    ops: Seq<PoolOp>,
)
    requires
        v.wf(),
        all_permitted(begun(v, max_file_size, header_len), ops),
    ensures
        pages_agree(course(begun(v, max_file_size, header_len), ops)),
{
    lemma_course_sound(v, max_file_size, header_len, ops);
}

/// Files are counted as records are placed: the first belongs to file zero, and
/// every other to the file of the one before it, or to the next file, if it is
/// the first on its page.
pub proof fn placements_count_files(
    v: PoolView,
    max_file_size: u64,
    header_len: u64,
    ops: Seq<PoolOp>,
    expected: u64,
    record: Seq<u8>,
)
    requires
        v.wf(),
        all_permitted(begun(v, max_file_size, header_len), ops),
        expected < u64::MAX,
    ensures
        ({
            let h = course(begun(v, max_file_size, header_len), ops);
            let (after, outcome) = h.pool.placed(expected, record);
            outcome matches TryPlace::Placed { placement, flush } ==> {
                let page = after.ring.pages[after.ring.active];
                &&& follows_on(h.last, placement.rotate, placement.epoch)
                &&& placement.rotate == RotateHint::Before ==> page.first == expected
                    && page.records.len() == 1
            }
        }),
{
    lemma_course_sound(v, max_file_size, header_len, ops);
    lemma_place_agrees(course(begun(v, max_file_size, header_len), ops), expected, record);
}

/// No byte that was on a page when the writer began is ever handed out for
/// writing, whatever is placed, handed over or committed afterwards. Until the
/// writer takes something on, nothing is handed out at all.
pub proof fn old_bytes_are_never_taken(
    v: PoolView,
    max_file_size: u64,
    header_len: u64,
    ops: Seq<PoolOp>,
    k: int,
    epoch: u64,
)
    requires
        v.wf(),
        all_permitted(begun(v, max_file_size, header_len), ops),
        0 <= k < course(begun(v, max_file_size, header_len), ops).pool.ring.pages.len(),
    ensures
        ({
            let h = course(begun(v, max_file_size, header_len), ops);
            &&& h.pool.run(k, epoch) matches Some(w) ==> h.old[k] <= w.from
            &&& (forall|i: int| 0 <= i < ops.len() ==> !((#[trigger] ops[i]) is HandOver))
                ==> h.pool.run(k, epoch) is None
        }),
{
    let h = course(begun(v, max_file_size, header_len), ops);
    lemma_course_sound(v, max_file_size, header_len, ops);
    page_pool::lemma_run_bounds(h.pool, k, epoch);
    if forall|i: int| 0 <= i < ops.len() ==> !((#[trigger] ops[i]) is HandOver) {
        lemma_nothing_handed_over(v, max_file_size, header_len, ops);
    }
}

proof fn lemma_steps_handed(v: PoolView, n: nat)
    ensures
        v.stepped_over(n).0.handed_through == v.handed_through,
    decreases n,
{
    if n > 0 {
        if let Some(w) = v.skipped() {
            lemma_steps_handed(w, (n - 1) as nat);
        }
    }
}

proof fn lemma_nothing_handed_over(
    v: PoolView,
    max_file_size: u64,
    header_len: u64,
    ops: Seq<PoolOp>,
)
    requires
        forall|i: int| 0 <= i < ops.len() ==> !((#[trigger] ops[i]) is HandOver),
    ensures
        course(begun(v, max_file_size, header_len), ops).pool.handed_through is None,
    decreases ops.len(),
{
    if ops.len() > 0 {
        let rest = ops.drop_last();
        assert forall|i: int| 0 <= i < rest.len() implies !((#[trigger] rest[i]) is HandOver) by {
            assert(rest[i] == ops[i]);
        }
        lemma_nothing_handed_over(v, max_file_size, header_len, rest);
        let before = course(begun(v, max_file_size, header_len), rest).pool;
        assert(!(ops[ops.len() - 1] is HandOver));
        if let PoolOp::Place { expected, record } = ops.last() {
            let gap = expected - before.ring.next;
            if 0 < gap <= MAX_STEPPABLE_GAP {
                lemma_steps_handed(before, gap as nat);
            }
        }
    }
}

} // verus!
