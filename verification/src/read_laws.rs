//! What holds of reads from a pool's pages.

use vstd::prelude::*;
use crate::page_pool;
use crate::page_pool::PoolView;
use crate::wal_page::PageView;
use crate::wal_ring_range;
use crate::wal_ring_v1;
use crate::wal_ring_v1::RingView;

verus! {

// ---------------------------------------------------------------------------
// What a read finds.

proof fn lemma_same_ids(
    r: RingView,
    a: Seq<(u64, Seq<u8>)>,
    b: Seq<(u64, Seq<u8>)>,
    start: u64,
    end: u64,
    i: int,
)
    requires
        wal_ring_range::range_is(r, a, start, end),
        wal_ring_range::range_is(r, b, start, end),
        0 <= i < a.len(),
    ensures
        i < b.len(),
        a[i].0 == b[i].0,
    decreases i,
{
    assert forall|j: int| 0 <= j < i implies j < b.len() && (#[trigger] a[j]).0 == b[j].0 by {
        lemma_same_ids(r, a, b, start, end, j);
    }
    let m = choose|m: int| 0 <= m < b.len() && (#[trigger] b[m]).0 == a[i].0;
    assert(r.has(a[i].0 as int));
    if m < i {
        assert(a[m].0 == b[m].0);
    }
    assert(m >= i);
    if m > i {
        let n = choose|n: int| 0 <= n < a.len() && (#[trigger] a[n]).0 == b[i].0;
        assert(r.has(b[i].0 as int));
        assert(b[i].0 < b[m].0);
        if n < i {
            assert(a[n].0 == b[n].0);
        }
    }
}

/// Any two reads of a range find the same: the same ids with the same payloads,
/// in the same order, whether the payloads are copied or held.
pub proof fn reads_of_a_range_agree(
    r: RingView,
    a: Seq<(u64, Seq<u8>)>,
    b: Seq<(u64, Seq<u8>)>,
    start: u64,
    end: u64,
)
    requires
        wal_ring_range::range_is(r, a, start, end),
        wal_ring_range::range_is(r, b, start, end),
    ensures
        a == b,
{
    if b.len() > a.len() {
        lemma_same_ids(r, b, a, start, end, a.len() as int);
    } else if a.len() > b.len() {
        lemma_same_ids(r, a, b, start, end, b.len() as int);
    }
    assert forall|i: int| 0 <= i < a.len() implies #[trigger] a[i] == b[i] by {
        lemma_same_ids(r, a, b, start, end, i);
    }
    assert(a =~= b);
}

/// A read that ends below what is served from memory finds nothing, and neither
/// does one that ends before it begins.
pub proof fn read_below_memory_is_empty(
    v: PoolView,
    out: Seq<(u64, Seq<u8>)>,
    start: u64,
    end: u64,
)
    requires
        v.wf(),
        wal_ring_range::range_is(v.ring, out, v.served_from(start), end),
        start > end || match v.min_cached() {
            Some(lowest) => end < lowest,
            None => true,
        },
    ensures
        out.len() == 0,
{
    if out.len() > 0 {
        let id = out[0].0;
        assert(v.ring.has(id as int));
        let k = v.ring.page_of(id as int);
        let p = v.ring.pages[k];
        assert(p.has(id as int));
        assert(!p.is_empty());
        lemma_lowest(v.ring, id);
        if k != v.ring.active {
            assert(p.end() <= v.ring.pages[v.ring.active].first);
        }
        assert(id < v.ring.next);
    }
}

proof fn lemma_lowest(r: RingView, id: u64)
    requires
        r.wf(),
        r.has(id as int),
    ensures
        page_pool::lowest_id(r) <= id,
    decreases id,
{
    if exists|low: u64| low < id && #[trigger] r.has(low as int) {
        let low = choose|low: u64| low < id && #[trigger] r.has(low as int);
        lemma_lowest(r, low);
    } else {
        assert forall|other: int| #[trigger] r.has(other) implies id <= other by {
            if other < id {
                assert(r.pages[r.page_of(other)].has(other));
                assert(r.has(other as u64 as int));
            }
        }
        let m = page_pool::lowest_id(r);
        assert(r.has(m as int) && (forall|other: int| #[trigger] r.has(other) ==> m <= other));
    }
}

// ---------------------------------------------------------------------------
// What a read pins.

/// The pins of the first `n` pages taken together.
pub open spec fn pins_below(r: RingView, n: int) -> int
    decreases n,
{
    if n <= 0 {
        0
    } else {
        pins_below(r, n - 1) + r.pages[n - 1].pins
    }
}

proof fn lemma_pins_planned(r: RingView, start: u64, end: u64, n: int, quotas: Seq<nat>)
    requires
        0 <= n <= r.pages.len(),
        quotas.len() == r.pages.len(),
        forall|k: int|
            0 <= k < n ==> #[trigger] quotas[k] == page_pool::pin_plan(r, start, end, n).quotas[k],
        forall|k: int| 0 <= k < r.pages.len() ==> (#[trigger] r.pages[k]).pins + 4096 <= u32::MAX,
        forall|k: int| 0 <= k < quotas.len() ==> #[trigger] quotas[k] <= 4096,
    ensures
        pins_below(page_pool::with_quotas(r, quotas), n) == pins_below(r, n) + page_pool::pin_plan(
            r,
            start,
            end,
            n,
        ).payloads,
    decreases n,
{
    if n > 0 {
        page_pool::lemma_pin_plan_bounds(r, start, end, n);
        page_pool::lemma_pin_plan_bounds(r, start, end, n - 1);
        let before = page_pool::pin_plan(r, start, end, n - 1);
        let plan = page_pool::pin_plan(r, start, end, n);
        assert forall|k: int| 0 <= k < n - 1 implies #[trigger] quotas[k] == before.quotas[k] by {
            assert(quotas[k] == plan.quotas[k]);
        }
        lemma_pins_planned(r, start, end, n - 1, quotas);
        assert(quotas[n - 1] == plan.quotas[n - 1]);
        assert(r.pages[n - 1].pins + 4096 <= u32::MAX);
        let s = page_pool::with_quotas(r, quotas);
        assert(s.pages[n - 1].pins == r.pages[n - 1].pins + quotas[n - 1]);
    }
}

/// One read holds a bounded number of payloads: it adds at most that many pins.
pub proof fn read_adds_bounded_pins(r: RingView, start: u64, end: u64)
    requires
        r.wf(),
        forall|k: int| 0 <= k < r.pages.len() ==> (#[trigger] r.pages[k]).pins + 4096 <= u32::MAX,
    ensures
        ({
            let n = r.pages.len() as int;
            let s = page_pool::with_quotas(r, page_pool::full_plan(r, start, end).quotas);
            pins_below(r, n) <= pins_below(s, n) <= pins_below(r, n)
                + page_pool::PIN_PAYLOADS_PER_READ
        }),
{
    let n = r.pages.len() as int;
    let quotas = page_pool::full_plan(r, start, end).quotas;
    page_pool::lemma_pin_plan_bounds(r, start, end, n);
    assert forall|k: int| 0 <= k < quotas.len() implies #[trigger] quotas[k] <= 4096 by {}
    lemma_pins_planned(r, start, end, n, quotas);
}

// ---------------------------------------------------------------------------
// Giving payloads back.

/// How often a page is among those that payloads hold.
pub open spec fn times_held(held: Seq<Option<usize>>, k: int) -> nat
    decreases held.len(),
{
    if held.len() == 0 {
        0
    } else {
        times_held(held.drop_last(), k) + (if held.last() matches Some(p) && p == k {
            1nat
        } else {
            0nat
        })
    }
}

/// The ring once payloads were given back, one after the other: each unpins the
/// page that it holds, if it holds one.
pub open spec fn given_back(r: RingView, held: Seq<Option<usize>>) -> RingView
    decreases held.len(),
{
    if held.len() == 0 {
        r
    } else {
        let s = given_back(r, held.drop_last());
        match held.last() {
            Some(k) => s.with_pins(k as int, (s.pages[k as int].pins - 1) as u32),
            None => s,
        }
    }
}

proof fn lemma_given_back(r: RingView, held: Seq<Option<usize>>)
    requires
        forall|i: int|
            0 <= i < held.len() ==> ((#[trigger] held[i]) matches Some(k) ==> k < r.pages.len()),
        forall|k: int|
            0 <= k < r.pages.len() ==> times_held(held, k) <= (#[trigger] r.pages[k]).pins,
    ensures
        given_back(r, held) == (RingView { pages: given_back(r, held).pages, ..r }),
        given_back(r, held).pages.len() == r.pages.len(),
        forall|k: int|
            0 <= k < r.pages.len() ==> (#[trigger] given_back(r, held).pages[k]) == (
            page_with_pins(r, k, r.pages[k].pins - times_held(held, k))),
    decreases held.len(),
{
    if held.len() > 0 {
        let rest = held.drop_last();
        assert forall|i: int| 0 <= i < rest.len() implies ((#[trigger] rest[i]) matches Some(k)
            ==> k < r.pages.len()) by {
            assert(rest[i] == held[i]);
        }
        assert forall|k: int| 0 <= k < r.pages.len() implies times_held(rest, k) <= (
        #[trigger] r.pages[k]).pins by {
            assert(times_held(held, k) <= r.pages[k].pins);
        }
        lemma_given_back(r, rest);
        assert(held[held.len() - 1] == held.last());
        let s = given_back(r, rest);
        if let Some(p) = held.last() {
            assert(s.pages[p as int] == page_with_pins(
                r,
                p as int,
                r.pages[p as int].pins - times_held(rest, p as int),
            ));
            assert(times_held(held, p as int) <= r.pages[p as int].pins);
        }
        assert forall|k: int| 0 <= k < r.pages.len() implies (
        #[trigger] given_back(r, held).pages[k]) == (page_with_pins(
            r,
            k,
            r.pages[k].pins - times_held(held, k),
        )) by {
            assert(s.pages[k] == page_with_pins(r, k, r.pages[k].pins - times_held(rest, k)));
        }
    }
}

/// A page with other pins.
spec fn page_with_pins(r: RingView, k: int, pins: int) -> PageView {
    PageView { pins: pins as u32, ..r.pages[k] }
}

/// The ids of a read, behind which there is none.
spec fn id_at(out: Seq<(u64, Seq<u8>)>, i: int) -> int {
    if i < out.len() {
        out[i].0 as int
    } else {
        u64::MAX + 1
    }
}

spec fn clamped(x: int, most: int) -> int {
    if x < 0 {
        0
    } else if x > most {
        most
    } else {
        x
    }
}

/// The pages that a plan holds for the ids of a read.
pub open spec fn held_pages(
    r: RingView,
    start: u64,
    quotas: Seq<nat>,
    out: Seq<(u64, Seq<u8>)>,
) -> Seq<Option<usize>> {
    Seq::new(out.len(), |i: int| page_pool::planned_page(r, start, quotas, out[i].0))
}

proof fn lemma_next_id(
    r: RingView,
    out: Seq<(u64, Seq<u8>)>,
    start: u64,
    end: u64,
    i: int,
    id: int,
)
    requires
        wal_ring_range::range_is(r, out, start, end),
        0 <= i <= out.len(),
        start <= id <= end,
        r.has(id),
        i > 0 ==> out[i - 1].0 < id,
    ensures
        id_at(out, i) <= id,
{
    let m = choose|m: int| 0 <= m < out.len() && (#[trigger] out[m]).0 == id;
    if m < i - 1 {
        assert(out[m].0 < out[i - 1].0);
    }
    if i < m {
        assert(out[i].0 < out[m].0);
    }
}

proof fn lemma_times_held(
    r: RingView,
    start: u64,
    end: u64,
    out: Seq<(u64, Seq<u8>)>,
    k: int,
    i: int,
)
    requires
        r.wf(),
        start <= end,
        wal_ring_range::range_is(r, out, start, end),
        0 <= k < r.pages.len(),
        0 <= i <= out.len(),
    ensures
        ({
            let quotas = page_pool::full_plan(r, start, end).quotas;
            let p = r.pages[k];
            let low = if p.first < start {
                start as int
            } else {
                p.first as int
            };
            times_held(held_pages(r, start, quotas, out).take(i), k) == clamped(
                id_at(out, i) - low,
                quotas[k] as int,
            )
        }),
    decreases i,
{
    let quotas = page_pool::full_plan(r, start, end).quotas;
    page_pool::lemma_pin_plan_bounds(r, start, end, r.pages.len() as int);
    let p = r.pages[k];
    let low = if p.first < start {
        start as int
    } else {
        p.first as int
    };
    let q = quotas[k] as int;
    assert(q <= page_pool::in_range(p, start, end));
    let held = held_pages(r, start, quotas, out);
    // The ids that the page is held for are all in the range.
    assert forall|id: int| low <= id < low + q implies p.has(id) && start <= id <= end by {}
    if i == 0 {
        if q > 0 {
            assert(p.has(low));
            wal_ring_v1::lemma_record_at(r, low, k);
            lemma_next_id(r, out, start, end, 0, low);
        }
    } else {
        lemma_times_held(r, start, end, out, k, i - 1);
        assert(held.take(i).drop_last() =~= held.take(i - 1));
        assert(held.take(i).last() == held[i - 1]);
        let id = out[i - 1].0 as int;
        assert(r.has(id) && start <= id <= end);
        let j = r.page_of(id);
        assert(0 <= j < r.pages.len() && r.pages[j].has(id));
        if low <= id < low + q {
            assert(p.has(id));
            wal_ring_v1::lemma_record_at(r, id, k);
            if id + 1 < low + q {
                assert(p.has(id + 1));
                wal_ring_v1::lemma_record_at(r, id + 1, k);
                lemma_next_id(r, out, start, end, i, id + 1);
            }
            if i < out.len() {
                assert(out[i - 1].0 < out[i].0);
            }
        } else {
            if id < low && q > 0 {
                assert(p.has(low));
                wal_ring_v1::lemma_record_at(r, low, k);
                lemma_next_id(r, out, start, end, i, low);
            }
            if i < out.len() {
                assert(out[i - 1].0 < out[i].0);
            }
            assert(r.pages.len() <= usize::MAX);
            if j == k {
                assert(p.has(id));
            }
        }
    }
}

/// Once every payload of a read was given back, read or not and in whatever
/// order, every page has the pins that it had before the read.
pub proof fn giving_back_restores_pins(
    r: RingView,
    start: u64,
    end: u64,
    out: Seq<(u64, Seq<u8>)>,
    given: Seq<Option<usize>>,
)
    requires
        r.wf(),
        start <= end,
        forall|k: int| 0 <= k < r.pages.len() ==> (#[trigger] r.pages[k]).pins + 4096 <= u32::MAX,
        wal_ring_range::range_is(r, out, start, end),
        ({
            let held = held_pages(r, start, page_pool::full_plan(r, start, end).quotas, out);
            forall|k: int| #[trigger] times_held(given, k) == times_held(held, k)
        }),
    ensures
        ({
            let quotas = page_pool::full_plan(r, start, end).quotas;
            given_back(page_pool::with_quotas(r, quotas), given) == r
        }),
{
    let quotas = page_pool::full_plan(r, start, end).quotas;
    let s = page_pool::with_quotas(r, quotas);
    let held = held_pages(r, start, quotas, out);
    let n = r.pages.len() as int;
    page_pool::lemma_pin_plan_bounds(r, start, end, n);
    assert(held.take(out.len() as int) =~= held);
    assert forall|k: int| 0 <= k < n implies times_held(given, k) == #[trigger] quotas[k]
        && quotas[k] <= 4096 by {
        lemma_times_held(r, start, end, out, k, out.len() as int);
        let p = r.pages[k];
        assert(quotas[k] <= page_pool::in_range(p, start, end));
        assert(p.wf(r.page_size));
        assert(times_held(given, k) == times_held(held, k));
    }
    assert forall|k: int| 0 <= k < n implies times_held(given, k) <= (
    #[trigger] s.pages[k]).pins by {
        assert(r.pages[k].pins + 4096 <= u32::MAX);
        assert(times_held(given, k) == quotas[k]);
    }
    assert forall|i: int| 0 <= i < given.len() implies ((#[trigger] given[i]) matches Some(k) ==> k
        < n) by {
        if let Some(k) = given[i] {
            lemma_held_counts(given, i, k as int);
            assert(times_held(given, k as int) == times_held(held, k as int));
            if k >= n {
                lemma_held_in_ring(r, start, end, out, k as int, out.len() as int);
            }
        }
    }
    lemma_given_back(s, given);
    let b = given_back(s, given);
    assert forall|k: int| 0 <= k < n implies #[trigger] b.pages[k] == r.pages[k] by {
        assert(r.pages[k].pins + 4096 <= u32::MAX);
        assert(times_held(given, k) == quotas[k]);
        assert(b.pages[k] == page_with_pins(s, k, s.pages[k].pins - times_held(given, k)));
    }
    assert(b.pages =~= r.pages);
}

proof fn lemma_held_counts(held: Seq<Option<usize>>, i: int, k: int)
    requires
        0 <= i < held.len(),
        held[i] matches Some(p) && p == k,
    ensures
        times_held(held, k) > 0,
    decreases held.len(),
{
    if i < held.len() - 1 {
        assert(held.drop_last()[i] == held[i]);
        lemma_held_counts(held.drop_last(), i, k);
    }
}

proof fn lemma_held_in_ring(
    r: RingView,
    start: u64,
    end: u64,
    out: Seq<(u64, Seq<u8>)>,
    k: int,
    i: int,
)
    requires
        r.wf(),
        wal_ring_range::range_is(r, out, start, end),
        k >= r.pages.len(),
        0 <= i <= out.len(),
    ensures
        ({
            let quotas = page_pool::full_plan(r, start, end).quotas;
            times_held(held_pages(r, start, quotas, out).take(i), k) == 0
        }),
        ({
            let quotas = page_pool::full_plan(r, start, end).quotas;
            i == out.len() ==> times_held(held_pages(r, start, quotas, out), k) == 0
        }),
    decreases i,
{
    let quotas = page_pool::full_plan(r, start, end).quotas;
    let held = held_pages(r, start, quotas, out);
    assert(held.take(out.len() as int) =~= held);
    if i > 0 {
        lemma_held_in_ring(r, start, end, out, k, i - 1);
        assert(held.take(i).drop_last() =~= held.take(i - 1));
        assert(held.take(i).last() == held[i - 1]);
        let id = out[i - 1].0 as int;
        assert(r.has(id));
        assert(0 <= r.page_of(id) < r.pages.len());
    }
}

} // verus!
