//! How pages are counted, given and taken back.

use vstd::prelude::*;
use crate::memory_laws;
use crate::page_pool;
use crate::page_pool::{PendingWrite, PoolView};
use crate::pool_laws;
use crate::rotation_laws;
use crate::wal_arena::{not_of, ArenaView, POOL_FREE};
use crate::wal_page;
use crate::wal_page::PageView;
use crate::wal_ring_v1;
use crate::wal_ring_v1::RingView;

verus! {

// ---------------------------------------------------------------------------
// Arenas.

/// Giving a run of slots to an owner changes the owner of those slots and of no
/// other.
pub proof fn given_slots_change_hands(a: ArenaView, first: int, count: int, id: u64)
    ensures
        ({
            let b = a.given(first, count, id);
            &&& b.owners.len() == a.owners.len()
            &&& forall|i: int|
                0 <= i < a.owners.len() && first <= i < first + count ==> #[trigger] b.owners[i]
                    == id
            &&& forall|i: int|
                0 <= i < a.owners.len() && !(first <= i < first + count) ==> #[trigger] b.owners[i]
                    == a.owners[i]
            &&& b.labels == a.labels
            &&& b.page_size == a.page_size
        }),
{
}

/// An owner is said to hold no page if and only if no slot is theirs, and never
/// more pages than there are.
pub proof fn held_pages_are_there(a: ArenaView, id: u64)
    ensures
        0 <= a.held(id) <= a.owners.len(),
        a.held(id) > 0 <==> exists|i: int| 0 <= i < a.owners.len() && #[trigger] a.owners[i] == id,
        a.held(id) == a.owners.len() <==> forall|i: int|
            0 <= i < a.owners.len() ==> #[trigger] a.owners[i] == id,
{
    lemma_held(a, id, a.owners.len() as int);
}

proof fn lemma_held(a: ArenaView, id: u64, n: int)
    requires
        0 <= n <= a.owners.len(),
    ensures
        0 <= a.held_below(id, n) <= n,
        a.held_below(id, n) > 0 <==> exists|i: int| 0 <= i < n && #[trigger] a.owners[i] == id,
        a.held_below(id, n) == n <==> forall|i: int|
            0 <= i < n ==> #[trigger] a.owners[i] == id,
    decreases n,
{
    if n > 0 {
        lemma_held(a, id, n - 1);
        if a.owners[n - 1] == id {
        } else {
            assert(!(forall|i: int| 0 <= i < n ==> #[trigger] a.owners[i] == id));
        }
    }
}

/// Pages that change hands are counted with their new owner, and no longer with
/// the old one; everyone else holds as many as before.
pub proof fn pages_are_counted_once(
    a: ArenaView,
    first: int,
    count: int,
    from: u64,
    to: u64,
    other: u64,
)
    requires
        a.holds(first, count, from),
        from != to,
        other != from,
        other != to,
    ensures
        ({
            let b = a.given(first, count, to);
            &&& b.held(to) == a.held(to) + count
            &&& b.held(from) == a.held(from) - count
            &&& b.held(other) == a.held(other)
        }),
{
    lemma_given_held(a, first, count, from, to, other, a.owners.len() as int);
}

spec fn overlap(first: int, count: int, n: int) -> int {
    if n <= first {
        0
    } else if n <= first + count {
        n - first
    } else {
        count
    }
}

proof fn lemma_given_held(
    a: ArenaView,
    first: int,
    count: int,
    from: u64,
    to: u64,
    other: u64,
    n: int,
)
    requires
        a.holds(first, count, from),
        from != to,
        other != from,
        other != to,
        0 <= n <= a.owners.len(),
    ensures
        ({
            let b = a.given(first, count, to);
            let m = overlap(first, count, n);
            &&& b.held_below(to, n) == a.held_below(to, n) + m
            &&& b.held_below(from, n) == a.held_below(from, n) - m
            &&& b.held_below(other, n) == a.held_below(other, n)
        }),
    decreases n,
{
    if n > 0 {
        lemma_given_held(a, first, count, from, to, other, n - 1);
        let b = a.given(first, count, to);
        if first <= n - 1 < first + count {
            assert(a.owners[n - 1] == from);
            assert(b.owners[n - 1] == to);
        } else {
            assert(b.owners[n - 1] == a.owners[n - 1]);
        }
    }
}

/// The list of holders names every label whose owner holds pages, with how many
/// those are.
pub proof fn every_holder_is_listed(a: ArenaView, i: int) -> (j: int)
    requires
        0 <= i < a.labels.len(),
        exists|s: int| 0 <= s < a.owners.len() && #[trigger] a.owners[s] == a.labels[i].0,
    ensures
        0 <= j < a.holders_below(a.labels.len() as int).len(),
        a.holders_below(a.labels.len() as int)[j] == (a.labels[i].1, a.held(a.labels[i].0)),
{
    held_pages_are_there(a, a.labels[i].0);
    lemma_listed(a, i, a.labels.len() as int)
}

proof fn lemma_listed(a: ArenaView, i: int, n: int) -> (j: int)
    requires
        0 <= i < n <= a.labels.len(),
        a.held(a.labels[i].0) > 0,
    ensures
        0 <= j < a.holders_below(n).len(),
        a.holders_below(n)[j] == (a.labels[i].1, a.held(a.labels[i].0)),
    decreases n,
{
    if i == n - 1 {
        a.holders_below(n).len() - 1
    } else {
        lemma_listed(a, i, n - 1)
    }
}

/// The list of holders names no one else: each on it is a label, with pages of
/// its own.
pub proof fn only_holders_are_listed(a: ArenaView, j: int) -> (i: int)
    requires
        0 <= j < a.holders_below(a.labels.len() as int).len(),
    ensures
        0 <= i < a.labels.len(),
        a.holders_below(a.labels.len() as int)[j].0 == a.labels[i].1,
        a.holders_below(a.labels.len() as int)[j].1 == a.held(a.labels[i].0),
        a.held(a.labels[i].0) > 0,
{
    lemma_only_listed(a, j, a.labels.len() as int)
}

proof fn lemma_only_listed(a: ArenaView, j: int, n: int) -> (i: int)
    requires
        0 <= n <= a.labels.len(),
        0 <= j < a.holders_below(n).len(),
    ensures
        0 <= i < n,
        a.holders_below(n)[j] == (a.labels[i].1, a.held(a.labels[i].0)),
        a.held(a.labels[i].0) > 0,
    decreases n,
{
    if n <= 0 {
        0
    } else if a.held(a.labels[n - 1].0) > 0 && j == a.holders_below(n).len() - 1 {
        n - 1
    } else {
        lemma_only_listed(a, j, n - 1)
    }
}

/// Forgetting a ring's labels takes those away and keeps all others.
pub proof fn only_the_ring_loses_its_label(a: ArenaView, ring_id: u64, l: (u64, Seq<char>))
    ensures
        a.without_label(ring_id).labels.contains(l) <==> a.labels.contains(l) && l.0 != ring_id,
        a.without_label(ring_id).owners == a.owners,
{
    lemma_kept_labels(a.labels, ring_id, l);
}

proof fn lemma_kept_labels(labels: Seq<(u64, Seq<char>)>, ring_id: u64, l: (u64, Seq<char>))
    ensures
        labels.filter(not_of(ring_id)).contains(l) <==> labels.contains(l) && l.0 != ring_id,
    decreases labels.len(),
{
    reveal(Seq::filter);
    if labels.len() > 0 {
        let front = labels.drop_last();
        lemma_kept_labels(front, ring_id, l);
        let before = front.filter(not_of(ring_id));
        let kept = labels.filter(not_of(ring_id));
        assert(labels =~= front.push(labels.last()));
        assert(labels.contains(l) <==> front.contains(l) || labels.last() == l) by {
            if front.contains(l) {
                let i = choose|i: int| 0 <= i < front.len() && front[i] == l;
                assert(labels[i] == l);
            }
            if labels.last() == l {
                assert(labels[labels.len() - 1] == l);
            }
            if labels.contains(l) && labels.last() != l {
                let i = choose|i: int| 0 <= i < labels.len() && labels[i] == l;
                assert(front[i] == l);
            }
        }
        if labels.last().0 != ring_id {
            assert(kept == before.push(labels.last()));
            if before.contains(l) {
                let i = choose|i: int| 0 <= i < before.len() && before[i] == l;
                assert(kept[i] == l);
            }
            if labels.last() == l {
                assert(kept[kept.len() - 1] == l);
            }
            if kept.contains(l) && labels.last() != l {
                let i = choose|i: int| 0 <= i < kept.len() && kept[i] == l;
                assert(before[i] == l);
            }
        } else {
            assert(kept == before);
        }
    }
}

// ---------------------------------------------------------------------------
// Rings.

/// A new ring has as many pages as it was given, all empty and free to take,
/// and its first record gets the id that it was told.
pub proof fn new_ring_is_empty(
    page_count: nat,
    page_size: nat,
    first: u64,
    ring_id: u64,
    first_slot: Option<nat>,
)
    ensures
        ({
            let r = wal_ring_v1::fresh(page_count, page_size, first, ring_id, first_slot);
            &&& r.pages.len() == page_count
            &&& r.page_size == page_size
            &&& r.next == first
            &&& r.essential == 0
            &&& r.evicted is None
            &&& r.ring_id == ring_id
            &&& r.first_slot == first_slot
            &&& forall|k: int|
                0 <= k < page_count ==> (#[trigger] r.pages[k]).records.len() == 0
                    && r.pages[k].pins == 0 && r.pages[k].first == first
            &&& page_count <= u64::MAX ==> r.next_page_id == page_count
            &&& forall|k: int|
                0 <= k < page_count && (match first_slot {
                    Some(s) => s + k <= u64::MAX,
                    None => k <= u64::MAX,
                }) ==> (#[trigger] r.pages[k]).page_id == k + (match first_slot {
                    Some(s) => s as int,
                    None => 0,
                })
        }),
{
}

/// A new pool has written nothing and owes nothing. It asks for a flush once
/// half of its bytes are unwritten, but not before a page's worth.
pub proof fn new_pool_owes_nothing(r: RingView, floor: nat)
    ensures
        ({
            let v = page_pool::fresh_pool(r, floor);
            &&& v.ring == r
            &&& v.floor == floor
            &&& v.unwritten == 0 && v.cache_floor == 0
            &&& v.fill is None && v.handed_through is None && !v.drainer
            &&& v.written.len() == r.pages.len() && v.epochs.len() == r.pages.len()
            &&& forall|k: int| 0 <= k < r.pages.len() ==> #[trigger] v.written[k] == 0
            &&& v.flush_watermark >= r.page_size
            &&& v.flush_watermark == r.page_size || (2 * v.flush_watermark <= r.pages.len()
                * r.page_size < 2 * v.flush_watermark + 2)
            &&& r.pages.len() * r.page_size >= 2 * r.page_size ==> 2 * v.flush_watermark
                <= r.pages.len() * r.page_size < 2 * v.flush_watermark + 2
        }),
{
}

/// A ring grows by one empty page, at its end, if the arena's next slot is
/// free; what it holds stays.
pub proof fn ring_grows_by_a_page(r: RingView, a: ArenaView)
    requires
        r.backed_by(a),
    ensures
        ({
            let s = r.grown();
            let n = r.pages.len();
            let slot = r.first_slot->0 + n;
            &&& r.can_grow(a) <==> slot < a.owners.len() && a.owners[slot as int] == POOL_FREE
            &&& s.pages.len() == n + 1
            &&& forall|k: int| 0 <= k < n ==> #[trigger] s.pages[k] == r.pages[k]
            &&& s.pages[n as int].records.len() == 0 && s.pages[n as int].pins == 0
            &&& s.next == r.next && s.active == r.active && s.essential == r.essential
        }),
{
}

/// A ring gives up its last page if and only if it has more than it must keep,
/// is not filling that page, and the page can go; and it says what it lost.
pub proof fn ring_shrinks_by_a_page_that_can_go(r: RingView, floor: nat)
    requires
        r.wf(),
    ensures
        ({
            let s = r.shrunk();
            let top = r.pages.len() - 1;
            let page = r.pages[top];
            &&& r.can_shrink(floor) <==> {
                &&& top >= floor && top >= 1
                &&& r.active != top
                &&& memory_laws::can_go(r, top)
            }
            &&& s.pages == r.pages.take(top)
            &&& s.next == r.next && s.active == r.active && s.essential == r.essential
            &&& page.records.len() == 0 ==> s.evicted == r.evicted
            &&& page.records.len() > 0 ==> s.evicted is Some && s.evicted->0 >= page.first
                + page.records.len() - 1
        }),
{
    assert(r.pages.drop_last() =~= r.pages.take(r.pages.len() - 1));
}

/// What becomes durable lets pages go, from the last one down: only pages that
/// can, never more than the pool may give up, and until the next cannot.
pub proof fn durable_records_let_pages_go(v: PoolView, id: u64)
    requires
        v.wf(),
    ensures
        ({
            let w = v.durable_in(id);
            let n = w.ring.pages.len();
            &&& w.ring.essential >= v.ring.essential && w.ring.essential >= id
            &&& w.ring.essential == v.ring.essential || w.ring.essential == id
            &&& 1 <= n <= v.ring.pages.len()
            &&& w.ring.pages == v.ring.pages.take(n as int)
            &&& n < v.ring.pages.len() ==> n >= v.floor
            &&& forall|k: int|
                n <= k < v.ring.pages.len() ==> {
                    &&& k != v.ring.active
                    &&& (#[trigger] v.ring.pages[k]).pins == 0
                    &&& v.ring.pages[k].records.len() > 0 ==> v.ring.pages[k].first
                        + v.ring.pages[k].records.len() - 1 < id
                }
            &&& id > v.ring.essential && n > 1 && n > v.floor ==> w.ring.active == n - 1
                || !memory_laws::can_go(w.ring, n - 1)
            &&& w.ring.next == v.ring.next
        }),
{
    if id > v.ring.essential {
        let risen = RingView { essential: id, ..v.ring };
        page_pool::lemma_essential_wf(v.ring, id);
        page_pool::lemma_shrunk_down(risen, v.floor);
        lemma_gone(risen, v.floor);
        let w = v.durable_in(id);
        let n = w.ring.pages.len();
        assert(memory_laws::can_go(w.ring, n - 1) == page_pool::shrunk_down(
            risen,
            v.floor,
        ).reusable(n - 1));
    } else {
        assert(v.ring.pages.take(v.ring.pages.len() as int) =~= v.ring.pages);
    }
}

proof fn lemma_gone(r: RingView, floor: nat)
    requires
        r.wf(),
    ensures
        ({
            let s = page_pool::shrunk_down(r, floor);
            &&& s.pages.len() < r.pages.len() ==> s.pages.len() >= floor
            &&& forall|k: int|
                s.pages.len() <= k < r.pages.len() ==> k != r.active && (
                #[trigger] r.pages[k]).reusable(r.essential)
        }),
    decreases r.pages.len(),
{
    if r.can_shrink(floor) {
        wal_ring_v1::lemma_shrunk_wf(r);
        page_pool::lemma_shrunk_down(r.shrunk(), floor);
        lemma_gone(r.shrunk(), floor);
        let s = page_pool::shrunk_down(r, floor);
        assert forall|k: int| s.pages.len() <= k < r.pages.len() implies k != r.active && (
        #[trigger] r.pages[k]).reusable(r.essential) by {
            if k < r.pages.len() - 1 {
                assert(r.shrunk().pages[k] == r.pages[k]);
            }
        }
    }
}

/// What becomes durable changes nothing on the pages, and what was durable
/// before stays so.
pub proof fn durable_records_stay_on_their_pages(v: PoolView, id: u64)
    ensures
        v.durable(id).ring.pages == v.ring.pages,
        v.durable(id).ring.next == v.ring.next,
        v.durable(id).ring.essential >= v.ring.essential,
        v.durable(id).ring.essential >= id,
        v.durable(id).ring.essential == v.ring.essential || v.durable(id).ring.essential == id,
        v.durable(id).written == v.written,
        v.durable(id).fill == v.fill,
        v.durable(id).unwritten == v.unwritten,
{
}

/// A ring that starts over holds nothing, keeps its readers' pins, and fills a
/// page that no reader holds. It cannot if readers hold every page.
pub proof fn ring_starts_over_empty(r: RingView, first: u64)
    requires
        r.wf(),
    ensures
        match r.reinitialised(first) {
            Some(s) => {
                &&& s.pages.len() == r.pages.len()
                &&& s.next == first
                &&& s.essential == 0
                &&& 0 <= s.active < s.pages.len()
                &&& r.pages[s.active].pins == 0
                &&& forall|k: int|
                    0 <= k < s.pages.len() ==> (#[trigger] s.pages[k]).records.len() == 0
                        && s.pages[k].pins == r.pages[k].pins
            },
            None => forall|k: int| 0 <= k < r.pages.len() ==> (#[trigger] r.pages[k]).pins > 0,
        },
{
    if let Some(s) = r.reinitialised(first) {
        if r.pages[0].pins != 0 {
            let k = choose|k: int| 0 <= k < r.pages.len() && (#[trigger] r.pages[k]).pins == 0;
            lemma_first_free(r, k);
        }
    }
}

proof fn lemma_first_free(r: RingView, k: int)
    requires
        0 <= k < r.pages.len(),
        r.pages[k].pins == 0,
    ensures
        exists|j: int| r.is_first_free(j),
    decreases k,
{
    if exists|j: int| 0 <= j < k && (#[trigger] r.pages[j]).pins == 0 {
        let j = choose|j: int| 0 <= j < k && (#[trigger] r.pages[j]).pins == 0;
        lemma_first_free(r, j);
    } else {
        assert(r.is_first_free(k));
    }
}

/// Pinning a page changes how often that page is pinned, and nothing else.
pub proof fn pin_changes_only_its_page(r: RingView, k: int, pins: u32)
    requires
        0 <= k < r.pages.len(),
    ensures
        ({
            let s = r.with_pins(k, pins);
            &&& s.pages.len() == r.pages.len()
            &&& s.pages[k].pins == pins
            &&& s.pages[k].records == r.pages[k].records
            &&& s.pages[k].first == r.pages[k].first
            &&& forall|j: int|
                0 <= j < r.pages.len() && j != k ==> #[trigger] s.pages[j] == r.pages[j]
            &&& s.next == r.next && s.active == r.active && s.essential == r.essential
        }),
{
}

/// All is on disk if and only if no record on a page has an id at or behind the
/// durable boundary; and all pages can go if also no reader holds one.
pub proof fn durable_means_every_record(r: RingView)
    ensures
        page_pool::fully_durable(r) <==> forall|id: int, record: Seq<u8>|
            #[trigger] memory_laws::holds(r, id, record) ==> id < r.essential,
        page_pool::all_reusable(r) <==> forall|k: int|
            0 <= k < r.pages.len() ==> #[trigger] memory_laws::can_go(r, k),
{
    if page_pool::fully_durable(r) {
        assert forall|id: int, record: Seq<u8>|
            #[trigger] memory_laws::holds(r, id, record) implies id < r.essential by {
            let (k, i) = choose|k: int, i: int| memory_laws::on_page(r, k, i, id, record);
            assert(page_pool::on_disk(r.pages[k], r.essential));
        }
    }
    if forall|id: int, record: Seq<u8>|
        #[trigger] memory_laws::holds(r, id, record) ==> id < r.essential {
        assert forall|k: int| 0 <= k < r.pages.len() implies page_pool::on_disk(
            #[trigger] r.pages[k],
            r.essential,
        ) by {
            let p = r.pages[k];
            if p.records.len() > 0 {
                let i = p.records.len() - 1;
                assert(memory_laws::on_page(r, k, i, p.first + i, p.records[i]));
                assert(memory_laws::holds(r, p.first + i, p.records[i]));
            }
        }
    }
    assert forall|k: int| 0 <= k < r.pages.len() implies memory_laws::can_go(r, k) == (
    #[trigger] r.pages[k]).reusable(r.essential) by {}
    if page_pool::all_reusable(r) {
        assert forall|k: int| 0 <= k < r.pages.len() implies #[trigger] memory_laws::can_go(
            r,
            k,
        ) by {
            assert(r.pages[k].reusable(r.essential));
        }
    }
    if forall|k: int| 0 <= k < r.pages.len() ==> #[trigger] memory_laws::can_go(r, k) {
        assert forall|k: int| 0 <= k < r.pages.len() implies (#[trigger] r.pages[k]).reusable(
            r.essential,
        ) by {
            assert(memory_laws::can_go(r, k));
        }
    }
}

/// A ring that goes gives back the pages that can go and leaves the others to
/// their readers and to what is not on disk. It says how many those are.
pub proof fn going_ring_leaves_what_is_needed(a: ArenaView, r: RingView, k: int, slot: int)
    requires
        r.wf(),
        r.backed_by(a),
        0 <= k < r.pages.len(),
        0 <= slot < a.owners.len(),
        !(r.first_slot->0 <= slot < r.first_slot->0 + r.pages.len()),
    ensures
        ({
            let n = r.pages.len() as int;
            let b = wal_ring_v1::given_back(a, r, n);
            let at = r.first_slot->0 + k;
            &&& b.owners.len() == a.owners.len()
            &&& b.owners[at] == (if memory_laws::can_go(r, k) {
                POOL_FREE
            } else {
                r.ring_id
            })
            &&& b.owners[slot] == a.owners[slot]
            &&& b.held(POOL_FREE) - a.held(POOL_FREE) == n - wal_ring_v1::kept_below(r, n)
        }),
{
    let n = r.pages.len() as int;
    assert(a.owners[r.first_slot->0 + k] == r.ring_id);
    assert(memory_laws::can_go(r, k) == r.reusable(k));
    lemma_given_back(a, r, a.owners.len() as int);
}

spec fn kept_from(r: RingView, n: int) -> int {
    let m = n - r.first_slot->0;
    if m <= 0 {
        0
    } else if m >= r.pages.len() {
        r.pages.len() - wal_ring_v1::kept_below(r, r.pages.len() as int)
    } else {
        m - wal_ring_v1::kept_below(r, m)
    }
}

proof fn lemma_given_back(a: ArenaView, r: RingView, n: int)
    requires
        r.backed_by(a),
        0 <= n <= a.owners.len(),
    ensures
        wal_ring_v1::given_back(a, r, r.pages.len() as int).held_below(POOL_FREE, n)
            - a.held_below(POOL_FREE, n) == kept_from(r, n),
    decreases n,
{
    if n > 0 {
        lemma_given_back(a, r, n - 1);
        let b = wal_ring_v1::given_back(a, r, r.pages.len() as int);
        let k = n - 1 - r.first_slot->0;
        if 0 <= k < r.pages.len() {
            assert(a.owners[n - 1] == r.ring_id);
            assert(wal_ring_v1::kept_below(r, 0) == 0);
            assert(wal_ring_v1::kept_below(r, k + 1) == wal_ring_v1::kept_below(r, k) + (
            if r.reusable(k) {
                0int
            } else {
                1int
            }));
            assert(b.owners[n - 1] == if r.reusable(k) {
                POOL_FREE
            } else {
                a.owners[n - 1]
            });
        } else {
            assert(b.owners[n - 1] == a.owners[n - 1]);
        }
    }
}

// ---------------------------------------------------------------------------
// What is written.

/// A record that was handed over once counts as handed over for good: the mark
/// only rises, and to no more than what was handed over.
pub proof fn mark_is_the_highest(mark: Option<u64>, id: u64)
    ensures
        wal_ring_v1::raised(mark, id) is Some,
        wal_ring_v1::raised(mark, id)->0 >= id,
        mark is Some ==> wal_ring_v1::raised(mark, id)->0 >= mark->0,
        wal_ring_v1::raised(mark, id)->0 == id || wal_ring_v1::raised(mark, id) == mark,
{
}

/// A page owes a file nothing only if nothing was handed over, or the page
/// belongs to another file, or every record on it that was handed over is
/// within what was written.
pub proof fn page_owes_what_was_handed_over(v: PoolView, k: int, epoch: u64, i: int)
    requires
        v.wf(),
        0 <= k < v.ring.pages.len(),
        v.epochs[k] == epoch,
        0 <= i < v.ring.pages[k].records.len(),
        v.handed_through matches Some(bound) && v.ring.pages[k].first + i <= bound,
    ensures
        v.run(k, epoch) is None ==> v.ring.pages[k].offset(i + 1) <= v.written[k],
        v.run(k, epoch) matches Some(w) ==> w.page == k && w.from == v.written[k] && w.to
            >= v.ring.pages[k].offset(i + 1) && w.last_entry_id >= v.ring.pages[k].first + i,
{
    let p = v.ring.pages[k];
    assert(p.wf(v.ring.page_size));
    let bound = v.handed_through->0;
    let last = if p.end() - 1 <= bound {
        p.end() - 1
    } else {
        bound as int
    };
    wal_page::lemma_offset_monotone(p, i + 1, last - p.first + 1);
    wal_page::lemma_offset_monotone(p, last - p.first + 1, p.records.len() as int);
    page_pool::lemma_end_is_boundary(p);
    let j = page_pool::entries_before(p, v.written[k]);
    assert(page_pool::is_boundary(p, v.written[k]));
    wal_page::lemma_offset_monotone(p, j, p.records.len() as int);
}

/// Marking a run as written moves its page's mark to the run's end, if that is
/// further, and takes the bytes between the two off what is unwritten. No other
/// page is touched.
pub proof fn written_run_counts_once(v: PoolView, w: PendingWrite, k: int)
    requires
        v.wf(),
        w.page < v.ring.pages.len(),
        0 <= k < v.ring.pages.len(),
        w.to - v.written[w.page as int] <= v.unwritten,
    ensures
        ({
            let x = v.committed(w);
            let page = w.page as int;
            &&& x.ring == v.ring
            &&& x.written.len() == v.written.len()
            &&& k != page ==> x.written[k] == v.written[k]
            &&& x.written[page] >= w.to && x.written[page] >= v.written[page]
            &&& x.written[page] == w.to || x.written[page] == v.written[page]
            &&& v.unwritten - x.unwritten == x.written[page] - v.written[page]
            &&& x.fill == v.fill && x.handed_through == v.handed_through && x.epochs == v.epochs
        }),
{
}

// ---------------------------------------------------------------------------
// What readers may hold.

/// The ids of a page within a range are counted one by one: a range counts as
/// its parts do, and a single id counts if the page has it.
pub proof fn ids_in_range_are_counted(p: PageView, start: u64, middle: u64, end: u64, id: u64)
    requires
        start <= middle < end,
    ensures
        page_pool::in_range(p, start, middle) + page_pool::in_range(
            p,
            (middle + 1) as u64,
            end,
        ) == page_pool::in_range(p, start, end),
        page_pool::in_range(p, id, id) == (if p.first <= id < p.first + p.records.len() {
            1nat
        } else {
            0
        }),
        start > 0 ==> page_pool::in_range(p, start, 0) == 0,
{
}

/// Readers may hold half of the pages, and never all of them.
pub proof fn readers_share_is_half(n: int)
    requires
        n >= 1,
    ensures
        2 * page_pool::pin_share(n) <= n,
        page_pool::pin_share(n) <= n - 1,
        n >= 2 ==> 2 * page_pool::pin_share(n) >= n - 1,
        page_pool::pin_share(1) == 0,
{
}

/// A read pins all it may: a page of which some payload in the range stays
/// unpinned is the one that is being filled, or the read has pinned as many
/// payloads as one read may, or readers hold their share of the pages.
pub proof fn read_pins_all_it_may(r: RingView, start: u64, end: u64, k: int)
    requires
        r.wf(),
        0 <= k < r.pages.len(),
        forall|j: int| 0 <= j < r.pages.len() ==> (#[trigger] r.pages[j]).pins + 4096 <= u32::MAX,
    ensures
        ({
            let n = r.pages.len() as int;
            let plan = page_pool::full_plan(r, start, end);
            let s = page_pool::with_quotas(r, plan.quotas);
            &&& plan.quotas[k] <= page_pool::in_range(r.pages[k], start, end)
            &&& plan.quotas[k] < page_pool::in_range(r.pages[k], start, end) ==> {
                ||| k == r.active && r.pages[k].pins == 0
                ||| plan.payloads == 4096
                ||| page_pool::pinned_below(s, n) >= page_pool::pin_share(n)
            }
        }),
{
    let n = r.pages.len() as int;
    let plan = page_pool::full_plan(r, start, end);
    page_pool::lemma_pin_plan_bounds(r, start, end, n);
    lemma_plan_pins(r, start, end, n, plan.quotas, k);
}

proof fn lemma_plan_pins(
    r: RingView,
    start: u64,
    end: u64,
    n: int,
    quotas: Seq<nat>,
    k: int,
)
    requires
        r.wf(),
        0 <= n <= r.pages.len(),
        0 <= k < r.pages.len(),
        quotas.len() == r.pages.len(),
        forall|j: int|
            0 <= j < n ==> #[trigger] quotas[j] == page_pool::pin_plan(r, start, end, n).quotas[j],
        forall|j: int| 0 <= j < quotas.len() ==> #[trigger] quotas[j] <= 4096,
        forall|j: int| 0 <= j < r.pages.len() ==> (#[trigger] r.pages[j]).pins + 4096 <= u32::MAX,
    ensures
        ({
            let plan = page_pool::pin_plan(r, start, end, n);
            let s = page_pool::with_quotas(r, quotas);
            let first = page_pool::pin_plan(r, start, end, 0);
            &&& plan.payloads < 4096 ==> plan.budget == first.budget - (page_pool::pinned_below(
                s,
                n,
            ) - page_pool::pinned_below(r, n))
            &&& k < n ==> {
                quotas[k] < page_pool::in_range(r.pages[k], start, end) ==> {
                    ||| k == r.active && r.pages[k].pins == 0
                    ||| plan.payloads == 4096
                    ||| plan.budget == 0
                }
            }
        }),
    decreases n,
{
    if n > 0 {
        page_pool::lemma_pin_plan_bounds(r, start, end, n);
        page_pool::lemma_pin_plan_bounds(r, start, end, n - 1);
        let before = page_pool::pin_plan(r, start, end, n - 1);
        let plan = page_pool::pin_plan(r, start, end, n);
        assert forall|j: int| 0 <= j < n - 1 implies #[trigger] quotas[j] == before.quotas[j] by {
            assert(quotas[j] == plan.quotas[j]);
        }
        lemma_plan_pins(r, start, end, n - 1, quotas, k);
        assert(quotas[n - 1] == plan.quotas[n - 1]);
        assert(r.pages[n - 1].pins + 4096 <= u32::MAX);
        let s = page_pool::with_quotas(r, quotas);
        assert(s.pages[n - 1].pins == r.pages[n - 1].pins + quotas[n - 1]);
    }
}

/// The pages that readers hold are counted one by one: there is none if and
/// only if no page is pinned, and a page that is pinned for the first time
/// counts one more.
pub proof fn pinned_pages_are_counted(r: RingView, k: int, pins: u32)
    requires
        0 <= k < r.pages.len(),
    ensures
        ({
            let n = r.pages.len() as int;
            let s = r.with_pins(k, pins);
            &&& 0 <= page_pool::pinned_below(r, n) <= n
            &&& page_pool::pinned_below(r, n) == 0 <==> forall|j: int|
                0 <= j < n ==> (#[trigger] r.pages[j]).pins == 0
            &&& r.pages[k].pins == 0 && pins > 0 ==> page_pool::pinned_below(s, n)
                == page_pool::pinned_below(r, n) + 1
            &&& r.pages[k].pins > 0 && pins > 0 ==> page_pool::pinned_below(s, n)
                == page_pool::pinned_below(r, n)
        }),
{
    lemma_pinned(r, k, pins, r.pages.len() as int);
}

proof fn lemma_pinned(r: RingView, k: int, pins: u32, n: int)
    requires
        0 <= k < r.pages.len(),
        0 <= n <= r.pages.len(),
    ensures
        ({
            let s = r.with_pins(k, pins);
            &&& 0 <= page_pool::pinned_below(r, n) <= n
            &&& page_pool::pinned_below(r, n) == 0 <==> forall|j: int|
                0 <= j < n ==> (#[trigger] r.pages[j]).pins == 0
            &&& k >= n ==> page_pool::pinned_below(s, n) == page_pool::pinned_below(r, n)
            &&& k < n && r.pages[k].pins == 0 && pins > 0 ==> page_pool::pinned_below(s, n)
                == page_pool::pinned_below(r, n) + 1
            &&& k < n && r.pages[k].pins > 0 && pins > 0 ==> page_pool::pinned_below(s, n)
                == page_pool::pinned_below(r, n)
        }),
    decreases n,
{
    if n > 0 {
        lemma_pinned(r, k, pins, n - 1);
        if r.pages[n - 1].pins > 0 {
            assert(!(forall|j: int| 0 <= j < n ==> (#[trigger] r.pages[j]).pins == 0));
        }
    }
}

/// A read pins each page once for every payload that holds it, and changes
/// nothing else about the pages.
pub proof fn planned_pins_are_added(r: RingView, quotas: Seq<nat>, k: int)
    requires
        0 <= k < r.pages.len(),
        r.pages[k].pins + quotas[k] <= u32::MAX,
    ensures
        ({
            let s = page_pool::with_quotas(r, quotas);
            &&& s.pages.len() == r.pages.len()
            &&& s.pages[k].pins == r.pages[k].pins + quotas[k]
            &&& s.pages[k].records == r.pages[k].records
            &&& s.pages[k].first == r.pages[k].first
            &&& s.next == r.next && s.active == r.active && s.essential == r.essential
        }),
{
}

/// A payload that holds a page holds the page that its record is on, and those
/// that hold a page are the first of its ids in the range: if a payload does,
/// so does every one before it on that page.
pub proof fn payload_holds_its_own_page(
    r: RingView,
    start: u64,
    quotas: Seq<nat>,
    k: int,
    id: u64,
    earlier: u64,
)
    requires
        r.wf(),
        0 <= k < r.pages.len(),
        r.pages[k].first <= earlier <= id < r.pages[k].first + r.pages[k].records.len(),
        start <= earlier,
    ensures
        page_pool::planned_page(r, start, quotas, id) matches Some(p) ==> p == k
            && page_pool::planned_page(r, start, quotas, earlier) == Some(p),
        page_pool::planned_page(r, start, quotas, id) is Some ==> quotas[k] > 0,
        quotas[k] >= page_pool::in_range(r.pages[k], start, id) && quotas[k] > 0
            ==> page_pool::planned_page(r, start, quotas, id) is Some,
{
    wal_ring_v1::lemma_record_at(r, id as int, k);
    wal_ring_v1::lemma_record_at(r, earlier as int, k);
    let i = id - r.pages[k].first;
    let j = earlier - r.pages[k].first;
    assert(r.pages[k].has(id as int) && r.pages[k].has(earlier as int));
    assert(r.page_of(id as int) == k && r.page_of(earlier as int) == k);
}

// ---------------------------------------------------------------------------
// What operations leave alone.

/// Whether two pools agree on what the writer said: what it took on, whether it
/// is there, and when it wants to flush.
pub open spec fn same_writer(v: PoolView, w: PoolView) -> bool {
    &&& w.handed_through == v.handed_through
    &&& w.drainer == v.drainer
    &&& w.flush_watermark == v.flush_watermark
    &&& w.floor == v.floor
}

/// Appending a record charges no file. It forgets how much of a page was
/// written only of the page that it opens.
pub proof fn append_charges_nothing(v: PoolView, record: Seq<u8>, k: int)
    requires
        v.wf(),
        v.ring.next < u64::MAX,
        0 <= k < v.ring.pages.len(),
    ensures
        ({
            let (w, outcome) = v.appended(record);
            &&& same_writer(v, w)
            &&& w.fill == v.fill
            &&& w.epochs == v.epochs
            &&& w.written.len() == v.written.len()
            &&& k != w.ring.active ==> w.written[k] == v.written[k]
            &&& outcome is Cached && !rotation_laws::room_for(v, record) ==> w.written[
                w.ring.active] == 0
            &&& !(outcome is Cached) || rotation_laws::room_for(v, record) ==> w.written
                == v.written
            &&& !(outcome is Cached) ==> w.unwritten == v.unwritten
        }),
{
    memory_laws::append_takes_what_fits(v, record);
    if v.ring.target() is Some {
        assert(v.ring.is_target(v.ring.target()->0));
    }
}

/// Charging a record moves nothing on the pages, and stamps only the page that
/// is being filled.
pub proof fn charge_moves_nothing(v: PoolView, record_len: nat, opened: bool, k: int)
    requires
        v.wf(),
        0 <= k < v.ring.pages.len(),
    ensures
        ({
            let (w, p) = v.charged(record_len, opened);
            &&& same_writer(v, w)
            &&& w.ring == v.ring
            &&& w.written == v.written
            &&& w.unwritten == v.unwritten
            &&& w.cache_floor == v.cache_floor
            &&& w.epochs.len() == v.epochs.len()
            &&& k != v.ring.active ==> w.epochs[k] == v.epochs[k]
            &&& v.fill is Some ==> w.epochs[v.ring.active] == p.epoch
            &&& v.fill is None ==> w == v
        }),
{
}

/// Stepping over an id owes the file nothing.
pub proof fn step_owes_nothing(v: PoolView)
    requires
        v.wf(),
    ensures
        v.skipped() matches Some(w) ==> {
            &&& same_writer(v, w)
            &&& w.fill == v.fill
            &&& w.epochs == v.epochs
            &&& w.unwritten == v.unwritten
            &&& w.written.len() == v.written.len()
            &&& w.written[w.ring.active] == 0
            &&& forall|k: int|
                0 <= k < v.written.len() && k != w.ring.active ==> #[trigger] w.written[k]
                    == v.written[k]
        },
{
    if v.ring.target() is Some {
        assert(v.ring.is_target(v.ring.target()->0));
    }
}

/// Starting over keeps the file, its count, and what reads may expect.
pub proof fn start_over_keeps_the_file(v: PoolView, first: u64)
    ensures
        v.reseeded(first) matches Some(w) ==> {
            &&& same_writer(v, w)
            &&& w.fill == v.fill
            &&& w.epochs == v.epochs
            &&& w.cache_floor == v.cache_floor
            &&& w.unwritten == 0
            &&& w.written.len() == v.written.len()
            &&& forall|k: int| 0 <= k < v.written.len() ==> #[trigger] w.written[k] == 0
        },
{
}

/// A writer that begins changes nothing that reads see, and takes what is on
/// the pages for written.
pub proof fn beginning_writer_leaves_the_pages(v: PoolView, max: u64, header_len: u64, k: int)
    requires
        v.wf(),
        0 <= k < v.ring.pages.len(),
    ensures
        ({
            let w = v.armed(max, header_len);
            &&& w.ring == v.ring
            &&& w.cache_floor == v.cache_floor
            &&& w.unwritten == v.unwritten
            &&& w.drainer == v.drainer
            &&& w.flush_watermark == v.flush_watermark
            &&& w.floor == v.floor
            &&& w.written.len() == v.written.len() && w.epochs.len() == v.epochs.len()
            &&& w.written[k] == v.ring.pages[k].bytes().len()
            &&& w.epochs[k] == 0
        }),
{
}

/// A pool that grows keeps everything, and the page that it gets is empty,
/// unwritten and of no file yet.
pub proof fn growth_keeps_everything(v: PoolView)
    requires
        v.wf(),
    ensures
        ({
            let w = v.grown();
            let n = v.ring.pages.len() as int;
            &&& same_writer(v, w)
            &&& w.fill == v.fill
            &&& w.unwritten == v.unwritten
            &&& w.cache_floor == v.cache_floor
            &&& w.ring == v.ring.grown()
            &&& w.written.take(n) == v.written && w.epochs.take(n) == v.epochs
            &&& w.written.len() == n + 1 && w.written[n] == 0
            &&& w.epochs.len() == n + 1 && w.epochs[n] == 0
        }),
{
    let n = v.ring.pages.len() as int;
    assert(v.grown().written.take(n) =~= v.written);
    assert(v.grown().epochs.take(n) =~= v.epochs);
}

/// What becomes durable changes neither the file nor what is written of the
/// pages that stay.
pub proof fn durability_leaves_the_file(v: PoolView, id: u64)
    requires
        v.wf(),
    ensures
        ({
            let w = v.durable(id);
            let x = v.durable_in(id);
            let n = x.ring.pages.len() as int;
            &&& same_writer(v, w) && same_writer(v, x)
            &&& w.fill == v.fill && x.fill == v.fill
            &&& w.unwritten == v.unwritten && x.unwritten == v.unwritten
            &&& w.epochs == v.epochs && x.epochs == v.epochs.take(n)
            &&& w.written == v.written && x.written == v.written.take(n)
            &&& v.ring.evicted is None ==> w.cache_floor == v.cache_floor
            &&& x.cache_floor >= v.cache_floor
        }),
{
    let m = v.ring.pages.len() as int;
    assert(v.epochs.take(m) =~= v.epochs);
    assert(v.written.take(m) =~= v.written);
}

/// Placing a record, whatever comes of it, says nothing for the writer.
pub proof fn placing_speaks_for_no_writer(v: PoolView, expected: u64, record: Seq<u8>)
    requires
        v.wf(),
        expected < u64::MAX,
    ensures
        same_writer(v, v.placed(expected, record).0),
{
    pool_laws::lemma_synced(v, expected);
    let gap = expected - v.ring.next;
    if 0 < gap <= page_pool::MAX_STEPPABLE_GAP {
        lemma_steps_same_writer(v, gap as nat);
    }
    let w = v.synced(expected).0;
    if v.synced(expected).1 {
        append_charges_nothing(w, record, 0);
    }
}

proof fn lemma_steps_same_writer(v: PoolView, n: nat)
    requires
        v.wf(),
        v.ring.next + n <= u64::MAX,
    ensures
        same_writer(v, v.stepped_over(n).0),
    decreases n,
{
    if n > 0 {
        if let Some(w) = v.skipped() {
            page_pool::lemma_pool_skipped_wf(v);
            step_owes_nothing(v);
            lemma_steps_same_writer(w, (n - 1) as nat);
        }
    }
}

} // verus!
