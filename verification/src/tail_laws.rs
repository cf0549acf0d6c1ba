//! What a file's tail takes on, writes and reports.

use vstd::prelude::*;
use crate::ack_file_writer;
use crate::ack_file_writer::TailView;
use crate::page_pool::{PendingWrite, PoolView};

verus! {

/// An entry that a tail takes on is the last one that it owes a report for. Its
/// bytes are behind all others that were handed over, unless a page holds them;
/// what was there before is as it was.
pub proof fn entry_is_taken_whole(
    v: TailView,
    queue: Seq<char>,
    id: nat,
    entry: Seq<u8>,
    in_pool: bool,
)
    requires
        v.wf(),
    ensures
        ({
            let w = v.took(queue, id, entry, in_pool);
            let paged = v.pooled && in_pool;
            let last = w.acks[w.acks.len() - 1];
            &&& w.acks.len() == v.acks.len() + 1
            &&& w.acks.take(v.acks.len() as int) == v.acks
            &&& last.queue == queue && last.id == id && last.buffered == !paged
            &&& last.end == w.handed.len()
            &&& paged ==> w.handed == v.handed && w.buffer == v.buffer && w.current_size
                == v.current_size
            &&& !paged ==> {
                &&& w.handed.len() == v.handed.len() + entry.len()
                &&& w.handed.take(v.handed.len() as int) == v.handed
                &&& w.handed.skip(v.handed.len() as int) == entry
                &&& w.current_size == v.current_size + entry.len()
            }
            &&& w.written == v.written
            &&& w.flushed_len == v.flushed_len
            &&& w.in_flight == v.in_flight
            &&& w.pooled == v.pooled
        }),
{
    let w = v.took(queue, id, entry, in_pool);
    assert(w.acks.take(v.acks.len() as int) =~= v.acks);
    assert(w.handed.take(v.handed.len() as int) =~= v.handed);
    if !(v.pooled && in_pool) {
        assert(w.handed.skip(v.handed.len() as int) =~= entry);
    }
}

/// A report covers as many entries as it can: all of them, or all before the
/// first whose bytes are on a page.
pub proof fn report_covers_all_before_a_paged_entry(v: TailView)
    ensures
        ({
            let n = ack_file_writer::lead(v.acks);
            &&& n <= v.acks.len()
            &&& forall|i: int| 0 <= i < n ==> (#[trigger] v.acks[i]).buffered
            &&& n < v.acks.len() ==> !v.acks[n as int].buffered
        }),
    decreases v.acks.len(),
{
    if v.acks.len() > 0 && v.acks[0].buffered {
        let rest = TailView { acks: v.acks.skip(1), ..v };
        report_covers_all_before_a_paged_entry(rest);
        let n = ack_file_writer::lead(v.acks);
        assert forall|i: int| 0 <= i < n implies (#[trigger] v.acks[i]).buffered by {
            if i > 0 {
                assert(rest.acks[i - 1] == v.acks[i]);
            }
        }
        if n < v.acks.len() {
            assert(rest.acks[n - 1] == v.acks[n as int]);
        }
    }
}

/// A report of what pages wrote covers all entries up to the first whose id is
/// higher than what was written.
pub proof fn page_report_covers_all_that_was_written(v: TailView, last: u64)
    ensures
        ({
            let n = ack_file_writer::up_to(v.acks, last);
            &&& n <= v.acks.len()
            &&& forall|i: int| 0 <= i < n ==> (#[trigger] v.acks[i]).id <= last
            &&& n < v.acks.len() ==> v.acks[n as int].id > last
        }),
    decreases v.acks.len(),
{
    if v.acks.len() > 0 && v.acks[0].id <= last {
        let rest = TailView { acks: v.acks.skip(1), ..v };
        page_report_covers_all_that_was_written(rest, last);
        let n = ack_file_writer::up_to(v.acks, last);
        assert forall|i: int| 0 <= i < n implies (#[trigger] v.acks[i]).id <= last by {
            if i > 0 {
                assert(rest.acks[i - 1] == v.acks[i]);
            }
        }
        if n < v.acks.len() {
            assert(rest.acks[n - 1] == v.acks[n as int]);
        }
    }
}

/// A report names the last of the entries that it covers; those are owed no
/// more, and all others still are.
pub proof fn report_names_its_last_entry(v: TailView, n: nat)
    requires
        n <= v.acks.len(),
    ensures
        n == 0 <==> ack_file_writer::highest(v.acks, n) is None,
        ack_file_writer::highest(v.acks, n) matches Some((queue, id)) ==> {
            &&& v.acks[n - 1].queue == queue
            &&& v.acks[n - 1].id == id
        },
        v.reported(n).acks.len() == v.acks.len() - n,
        forall|i: int|
            n <= i < v.acks.len() ==> v.reported(n).acks[i - n] == #[trigger] v.acks[i],
        v.reported(n).handed == v.handed,
        v.reported(n).written == v.written,
        v.reported(n).buffer == v.buffer,
        v.reported(n).in_flight == v.in_flight,
        v.reported(n).current_size == v.current_size,
        v.reported(n).flushed_len == v.flushed_len,
        v.reported(n).pooled == v.pooled,
{
}

/// A flush that succeeds writes everything that was handed over before it
/// began, in the order in which it came, and what comes while it goes on stays
/// for the next. It counts the bytes that it wrote.
pub proof fn flush_writes_all_that_came_before(
    v: TailView,
    queue: Seq<char>,
    id: nat,
    entry: Seq<u8>,
    in_pool: bool,
)
    requires
        v.wf(),
        v.in_flight is None,
    ensures
        ({
            let begun = v.flushing();
            let w = begun.flushed();
            let x = begun.took(queue, id, entry, in_pool).flushed();
            &&& begun.in_flight matches Some((data, _)) && data == v.handed.skip(v.written as int)
            &&& begun.buffer.len() == 0
            &&& w.written == v.handed.len()
            &&& w.handed == v.handed
            &&& w.buffer.len() == 0
            &&& w.flushed_len - v.flushed_len == w.written - v.written
            &&& w.in_flight is None
            &&& w.current_size == v.current_size
            &&& w.pooled == v.pooled
            &&& begun.handed == v.handed && begun.written == v.written
            &&& begun.acks == v.acks && begun.flushed_len == v.flushed_len
            &&& x.written == v.handed.len()
            &&& x.buffer == x.handed.skip(v.handed.len() as int)
            &&& x.buffer == (if v.pooled && in_pool {
                Seq::<u8>::empty()
            } else {
                entry
            })
        }),
{
    let x = v.flushing().took(queue, id, entry, in_pool).flushed();
    assert(x.buffer =~= x.handed.skip(v.handed.len() as int));
    assert(Seq::<u8>::empty() + entry =~= entry);
    assert(v.handed.skip(v.handed.len() as int) =~= Seq::<u8>::empty());
}

/// A flush that fails writes nothing and reports nothing: everything is owed as
/// it was, and what came in the meantime is behind it.
pub proof fn failed_flush_owes_everything(
    v: TailView,
    queue: Seq<char>,
    id: nat,
    entry: Seq<u8>,
    in_pool: bool,
)
    requires
        v.wf(),
        v.in_flight is None,
    ensures
        ({
            let w = v.flushing().took(queue, id, entry, in_pool).restored();
            let u = v.took(queue, id, entry, in_pool);
            &&& w.handed == u.handed
            &&& w.buffer == u.buffer
            &&& w.acks == u.acks
            &&& w.written == v.written
            &&& w.flushed_len == v.flushed_len
            &&& w.current_size == u.current_size
            &&& w.pooled == v.pooled
            &&& w.in_flight is None
        }),
{
    let w = v.flushing().took(queue, id, entry, in_pool).restored();
    let u = v.took(queue, id, entry, in_pool);
    assert(w.buffer =~= u.buffer);
}

/// A flush that succeeds reports every entry before the first whose bytes are
/// on a page, and goes on owing that one and those behind it.
pub proof fn flush_reports_all_before_a_paged_entry(v: TailView)
    requires
        v.wf(),
        v.in_flight is None,
    ensures
        ({
            let w = v.flushing().flushed();
            let n = v.acks.len() - w.acks.len();
            &&& 0 <= n
            &&& w.acks == v.acks.skip(n)
            &&& forall|i: int| 0 <= i < n ==> (#[trigger] v.acks[i]).buffered
            &&& w.acks.len() > 0 ==> !w.acks[0].buffered
            &&& (v.flushing().in_flight matches Some((_, cut)) && cut == n)
        }),
{
    report_covers_all_before_a_paged_entry(v);
}

/// The bytes of runs are counted once each: the total of two groups of runs is
/// the sum of their totals, and that of one run is its length.
pub proof fn runs_are_counted_once(
    a: Seq<(PendingWrite, Seq<u8>)>,
    b: Seq<(PendingWrite, Seq<u8>)>,
    run: (PendingWrite, Seq<u8>),
)
    ensures
        ack_file_writer::total_len(a + b) == ack_file_writer::total_len(a)
            + ack_file_writer::total_len(b),
        ack_file_writer::total_len(seq![run]) == run.1.len(),
        ack_file_writer::total_len(Seq::empty()) == 0,
    decreases b.len(),
{
    assert(seq![run].drop_last() =~= Seq::<(PendingWrite, Seq<u8>)>::empty());
    assert(ack_file_writer::total_len(seq![run].drop_last()) == 0);
    if b.len() == 0 {
        assert(a + b =~= a);
    } else {
        assert((a + b).drop_last() =~= a + b.drop_last());
        runs_are_counted_once(a, b.drop_last(), run);
    }
}

/// A flush of pages makes durable what it wrote and no id behind it: the ids
/// that may be forgotten from then on are those up to the last that it wrote,
/// and those that could be before.
pub proof fn page_flush_claims_only_what_it_wrote(
    v: PoolView,
    runs: Seq<(PendingWrite, Seq<u8>)>,
    last: u64,
)
    requires
        last < u64::MAX,
    ensures
        ({
            let w = ack_file_writer::all_committed(v, runs).durable(ack_file_writer::next_id(last));
            &&& w.ring.essential >= v.ring.essential
            &&& w.ring.essential > last
            &&& w.ring.essential == v.ring.essential || w.ring.essential == last + 1
            &&& w.ring.pages == v.ring.pages
            &&& w.ring.next == v.ring.next
        }),
{
    lemma_committed_ring(v, runs);
}

proof fn lemma_committed_ring(v: PoolView, runs: Seq<(PendingWrite, Seq<u8>)>)
    ensures
        ack_file_writer::all_committed(v, runs).ring == v.ring,
    decreases runs.len(),
{
    if runs.len() > 0 {
        lemma_committed_ring(v, runs.drop_last());
    }
}

} // verus!
