//! What reaches the files of a queue from its pages, over any course of
//! placements, handovers and flushes since the writer began.

use vstd::prelude::*;
use crate::ack_file_writer;
use crate::flush_order;
use crate::page_pool;
use crate::page_pool::{PendingWrite, PoolView, TryPlace, MAX_STEPPABLE_GAP};
use crate::pool_history;
use crate::pool_history::{History, PoolOp};
use crate::pool_laws;
use crate::wal_file;
use crate::wal_page;
use crate::wal_ring_v1;
use crate::wal_ring_v1::RingView;

verus! {

// ---------------------------------------------------------------------------
// Placed records.

/// A record that was placed since the writer began, and its file.
pub struct Logged {
    pub id: u64,
    pub epoch: u64,
    pub record: Seq<u8>,
}

/// Whether an entry is one of a file, with an id from `from` on and below `to`.
pub open spec fn is_of(x: Logged, epoch: u64, from: int, to: int) -> bool {
    x.epoch == epoch && from <= x.id < to
}

/// The records of a file with ids from `from` on and below `to`, in the order
/// in which they were placed.
pub open spec fn logged(log: Seq<Logged>, epoch: u64, from: int, to: int) -> Seq<Seq<u8>>
    decreases log.len(),
{
    if log.len() == 0 {
        Seq::empty()
    } else {
        let rest = logged(log.drop_last(), epoch, from, to);
        if is_of(log.last(), epoch, from, to) {
            rest.push(log.last().record)
        } else {
            rest
        }
    }
}

/// Whether ids increase, and files follow one another.
pub open spec fn in_order(log: Seq<Logged>) -> bool {
    forall|i: int, j: int|
        0 <= i < j < log.len() ==> (#[trigger] log[i]).id < (#[trigger] log[j]).id && log[i].epoch
            <= log[j].epoch
}

/// Whether a record was placed under this id.
pub open spec fn in_log(log: Seq<Logged>, id: int) -> bool {
    exists|i: int| 0 <= i < log.len() && (#[trigger] log[i]).id == id
}

proof fn lemma_shorter(log: Seq<Logged>)
    requires
        in_order(log),
        log.len() > 0,
    ensures
        in_order(log.drop_last()),
        forall|i: int| 0 <= i < log.drop_last().len() ==> (#[trigger] log.drop_last()[i]).id
            < log.last().id,
{
    let rest = log.drop_last();
    assert forall|i: int, j: int| 0 <= i < j < rest.len() implies (#[trigger] rest[i]).id < (
    #[trigger] rest[j]).id && rest[i].epoch <= rest[j].epoch by {
        assert(rest[i] == log[i] && rest[j] == log[j]);
    }
    assert forall|i: int| 0 <= i < rest.len() implies (#[trigger] rest[i]).id < log.last().id by {
        assert(rest[i] == log[i]);
        assert(log[i].id < log[log.len() - 1].id);
    }
}

proof fn lemma_logged_none(log: Seq<Logged>, epoch: u64, from: int, to: int)
    requires
        forall|i: int| 0 <= i < log.len() ==> !is_of(#[trigger] log[i], epoch, from, to),
    ensures
        logged(log, epoch, from, to) == Seq::<Seq<u8>>::empty(),
    decreases log.len(),
{
    if log.len() > 0 {
        let rest = log.drop_last();
        assert forall|i: int| 0 <= i < rest.len() implies !is_of(
            #[trigger] rest[i],
            epoch,
            from,
            to,
        ) by {
            assert(rest[i] == log[i]);
        }
        lemma_logged_none(rest, epoch, from, to);
        assert(!is_of(log[log.len() - 1], epoch, from, to));
    }
}

proof fn lemma_logged_split(log: Seq<Logged>, epoch: u64, a: int, b: int, c: int)
    requires
        in_order(log),
        a <= b <= c,
    ensures
        logged(log, epoch, a, c) == logged(log, epoch, a, b) + logged(log, epoch, b, c),
    decreases log.len(),
{
    if log.len() > 0 {
        let rest = log.drop_last();
        let x = log.last();
        lemma_shorter(log);
        lemma_logged_split(rest, epoch, a, b, c);
        if is_of(x, epoch, a, b) {
            lemma_logged_none(rest, epoch, b, c);
        }
        assert(logged(log, epoch, a, c) =~= logged(log, epoch, a, b) + logged(log, epoch, b, c));
    } else {
        assert(logged(log, epoch, a, c) =~= logged(log, epoch, a, b) + logged(log, epoch, b, c));
    }
}

proof fn lemma_logged_one(log: Seq<Logged>, i: int)
    requires
        in_order(log),
        0 <= i < log.len(),
    ensures
        logged(log, log[i].epoch, log[i].id as int, log[i].id + 1) == seq![log[i].record],
    decreases log.len(),
{
    let rest = log.drop_last();
    let x = log[i];
    lemma_shorter(log);
    if i == log.len() - 1 {
        lemma_logged_none(rest, x.epoch, x.id as int, x.id + 1);
        assert(logged(log, x.epoch, x.id as int, x.id + 1) =~= seq![x.record]);
    } else {
        assert(rest[i] == x);
        lemma_logged_one(rest, i);
    }
}

/// Whether a record was placed for a file under this id.
spec fn is_logged(log: Seq<Logged>, epoch: u64, id: int, record: Seq<u8>) -> bool {
    exists|i: int|
        0 <= i < log.len() && (#[trigger] log[i]).id == id && log[i].epoch == epoch && log[i].record
            == record
}

proof fn lemma_logged_run(
    log: Seq<Logged>,
    epoch: u64,
    from: int,
    first: int,
    records: Seq<Seq<u8>>,
)
    requires
        in_order(log),
        from <= first,
        forall|i: int| 0 <= i < log.len() ==> !is_of(#[trigger] log[i], epoch, from, first),
        forall|j: int|
            0 <= j < records.len() ==> is_logged(log, epoch, first + j, #[trigger] records[j]),
    ensures
        logged(log, epoch, from, first + records.len()) == records,
    decreases records.len(),
{
    if records.len() == 0 {
        lemma_logged_none(log, epoch, from, first);
        assert(records =~= Seq::<Seq<u8>>::empty());
    } else {
        let n = records.len() - 1;
        let rest = records.drop_last();
        assert forall|j: int| 0 <= j < rest.len() implies is_logged(
            log,
            epoch,
            first + j,
            #[trigger] rest[j],
        ) by {
            assert(rest[j] == records[j]);
        }
        lemma_logged_run(log, epoch, from, first, rest);
        let id = first + n;
        assert(is_logged(log, epoch, id, records[n]));
        let i = choose|i: int|
            0 <= i < log.len() && (#[trigger] log[i]).id == id && log[i].epoch == epoch
                && log[i].record == records[n];
        lemma_logged_one(log, i);
        lemma_logged_split(log, epoch, from, id, id + 1);
        assert(records =~= rest + seq![records[n]]);
    }
}

proof fn lemma_logged_pushed(log: Seq<Logged>, x: Logged, epoch: u64, from: int, to: int)
    ensures
        logged(log.push(x), epoch, from, to) == (if is_of(x, epoch, from, to) {
            logged(log, epoch, from, to).push(x.record)
        } else {
            logged(log, epoch, from, to)
        }),
{
    assert(log.push(x).drop_last() =~= log);
    assert(log.push(x).last() == x);
}

// ---------------------------------------------------------------------------
// Courses of operations.

/// A flush that is under way: what was pending for a file when it began.
pub struct Flight {
    pub epoch: u64,
    pub runs: Seq<(PendingWrite, Seq<u8>)>,
}

/// A pool and its files since the writer began.
pub struct Filed {
    pub base: History,
    /// The records that were placed.
    pub log: Seq<Logged>,
    /// What was written to each file, behind its header.
    pub files: Map<u64, Seq<u8>>,
    /// What was placed below this id is in its file.
    pub upto: int,
    pub flight: Option<Flight>,
}

/// Something that is done to a pool, or to a file.
pub enum FileOp {
    Do(PoolOp),
    /// A flush of a file begins with what is pending.
    Begin { epoch: u64, runs: Seq<(PendingWrite, Seq<u8>)> },
    /// It ends.
    End { wrote: bool, in_arena: bool },
}

/// What was written to a file.
pub open spec fn file_of(f: Filed, epoch: u64) -> Seq<u8> {
    if f.files.contains_key(epoch) {
        f.files[epoch]
    } else {
        Seq::empty()
    }
}

/// Whether the files before one are whole: everything that was placed for them
/// is in them.
pub open spec fn whole_before(f: Filed, epoch: u64) -> bool {
    forall|i: int| 0 <= i < f.log.len() && (#[trigger] f.log[i]).epoch < epoch ==> f.log[i].id
        < f.upto
}

/// Whether something may be done. Ids are given out in increasing order, with
/// or without gaps; one flush is under way at a time; and a file is flushed
/// once the files before it are whole.
pub open spec fn allowed(f: Filed, op: FileOp) -> bool {
    let v = f.base.pool;
    match op {
        FileOp::Do(op) => pool_history::permitted(v, op) && match op {
            PoolOp::Place { expected, record } => expected >= v.ring.next && v.fill->0.epoch
                < u64::MAX,
            PoolOp::HandOver(_) => true,
            PoolOp::Grow => true,
            PoolOp::Pin { start, end } => true,
            PoolOp::Unpin(_) => true,
            _ => false,
        },
        FileOp::Begin { epoch, runs } => {
            &&& f.flight is None
            &&& runs.len() > 0
            &&& page_pool::pending_is(v, runs, epoch)
            &&& whole_before(f, epoch)
        },
        FileOp::End { wrote, in_arena } => f.flight is Some,
    }
}

/// Runs committed, one after the other.
pub open spec fn commits(h: History, runs: Seq<(PendingWrite, Seq<u8>)>) -> History
    decreases runs.len(),
{
    if runs.len() == 0 {
        h
    } else {
        let before = commits(h, runs.drop_last());
        if page_pool::ends_with_entry(h.pool.ring, runs.last().0) {
            pool_history::then_done(before, PoolOp::Commit(runs.last().0))
        } else {
            before
        }
    }
}

/// A pool and its files after something was done.
pub open spec fn then_done(f: Filed, op: FileOp) -> Filed {
    match op {
        FileOp::Do(op) => Filed {
            base: pool_history::then_done(f.base, op),
            log: match op {
                PoolOp::Place { expected, record } => match f.base.pool.placed(expected, record).1 {
                    TryPlace::Placed { placement, flush } => f.log.push(
                        Logged { id: expected, epoch: placement.epoch, record },
                    ),
                    _ => f.log,
                },
                _ => f.log,
            },
            ..f
        },
        FileOp::Begin { epoch, runs } => Filed { flight: Some(Flight { epoch, runs }), ..f },
        FileOp::End { wrote, in_arena } => if wrote {
            let flight = f.flight->0;
            let last = flight.runs.last().0.last_entry_id;
            let id = ack_file_writer::next_id(last);
            Filed {
                base: pool_history::then_done(
                    commits(f.base, flight.runs),
                    if in_arena {
                        PoolOp::DurableIn(id)
                    } else {
                        PoolOp::Durable(id)
                    },
                ),
                files: f.files.insert(
                    flight.epoch,
                    file_of(f, flight.epoch) + flush_order::joined(flight.runs),
                ),
                upto: last + 1,
                flight: None,
                ..f
            }
        } else {
            Filed { flight: None, ..f }
        },
    }
}

/// A writer begins.
pub open spec fn begun(v: PoolView, max_file_size: u64, header_len: u64) -> Filed {
    Filed {
        base: pool_history::begun(v, max_file_size, header_len),
        log: Seq::empty(),
        files: Map::empty(),
        upto: v.ring.next as int,
        flight: None,
    }
}

/// A course of operations.
pub open spec fn course(f: Filed, ops: Seq<FileOp>) -> Filed
    decreases ops.len(),
{
    if ops.len() == 0 {
        f
    } else {
        then_done(course(f, ops.drop_last()), ops.last())
    }
}

/// Whether each operation of a course may be done when its turn comes.
pub open spec fn all_allowed(f: Filed, ops: Seq<FileOp>) -> bool
    decreases ops.len(),
{
    ops.len() > 0 ==> {
        &&& all_allowed(f, ops.drop_last())
        &&& allowed(course(f, ops.drop_last()), ops.last())
    }
}

// ---------------------------------------------------------------------------
// What is kept.

/// Whether the pages are written up to an id, and not further.
pub open spec fn pages_written(v: PoolView, upto: int) -> bool {
    forall|k: int|
        0 <= k < v.ring.pages.len() && !(#[trigger] v.ring.pages[k]).is_empty() ==> v.written[k]
            == v.ring.pages[k].offset(flush_order::count_below(v.ring.pages[k], upto))
}

/// Whether what was placed and is not in a file is held, and nothing else that
/// is not in a file.
pub open spec fn log_is_held(f: Filed) -> bool {
    let r = f.base.pool.ring;
    &&& forall|i: int|
        0 <= i < f.log.len() && (#[trigger] f.log[i]).id >= f.upto ==> r.has(f.log[i].id as int)
            && r.record(f.log[i].id as int) == f.log[i].record
    &&& forall|id: int| #[trigger] r.has(id) && id >= f.upto ==> in_log(f.log, id)
}

/// Whether the placed records are those that the pool knows of.
spec fn log_agrees(f: Filed) -> bool {
    &&& in_order(f.log)
    &&& forall|i: int|
        0 <= i < f.log.len() ==> {
            let x = #[trigger] f.log[i];
            &&& x.id < f.base.pool.ring.next
            &&& f.base.placed.contains_key(x.id as int)
            &&& f.base.placed[x.id as int] == x.epoch
        }
    &&& f.base.last == (if f.log.len() == 0 {
        None
    } else {
        Some(f.log.last().epoch)
    })
}

/// Whether a run still stands for its part of a flush up to `last`.
spec fn run_stands(v: PoolView, upto: int, last: u64, w: PendingWrite) -> bool {
    &&& w.page < v.ring.pages.len()
    &&& v.ring.pages[w.page as int].has(w.first_entry_id as int)
    &&& upto <= w.first_entry_id <= last
    &&& w.to == v.ring.pages[w.page as int].offset(
        flush_order::count_below(v.ring.pages[w.page as int], last + 1),
    )
}

spec fn flight_stands(f: Filed, flight: Flight) -> bool {
    let v = f.base.pool;
    let last = flight.runs.last().0.last_entry_id;
    &&& flight.runs.len() > 0
    &&& f.upto <= last < v.ring.next
    &&& flush_order::joined(flight.runs) == wal_file::packed(
        logged(f.log, flight.epoch, f.upto, last + 1),
    )
    &&& forall|i: int|
        0 <= i < f.log.len() && f.upto <= (#[trigger] f.log[i]).id <= last ==> f.log[i].epoch
            == flight.epoch
    &&& forall|i: int|
        0 <= i < flight.runs.len() ==> run_stands(v, f.upto, last, (#[trigger] flight.runs[i]).0)
    &&& forall|k: int, id: int|
        0 <= k < v.ring.pages.len() && #[trigger] v.ring.pages[k].has(id) && f.upto <= id <= last
            ==> flush_order::has_run_on(flight.runs, flight.runs.len() as int, k)
}

/// Whether the files hold what was placed for them, up to the id.
pub open spec fn files_are_right(f: Filed) -> bool {
    forall|epoch: u64|
        #[trigger] file_of(f, epoch) == wal_file::packed(logged(f.log, epoch, 0, f.upto))
}

spec fn filed(f: Filed) -> bool {
    &&& pool_history::sound(f.base)
    &&& 0 <= f.base.pool.ring.essential <= f.upto <= f.base.pool.ring.next
    &&& pages_written(f.base.pool, f.upto)
    &&& log_agrees(f)
    &&& log_is_held(f)
    &&& files_are_right(f)
    &&& f.flight matches Some(flight) ==> flight_stands(f, flight)
}

// ---------------------------------------------------------------------------
// Operations that write nothing.

/// How a page of a pool follows on a page of another: it is empty, it has the
/// same entries, only entries that are new, or one more.
spec fn follows(v: PoolView, x: PoolView, k: int) -> bool {
    let q = x.ring.pages[k];
    let p = v.ring.pages[k];
    ||| q.is_empty()
    ||| {
        &&& k < v.ring.pages.len()
        &&& q.first == p.first
        &&& q.records == p.records
        &&& x.written[k] == v.written[k]
    }
    ||| q.first >= v.ring.next && x.written[k] == 0
    ||| {
        &&& k < v.ring.pages.len()
        &&& !p.is_empty()
        &&& p.end() == v.ring.next
        &&& q.first == p.first
        &&& q.records.len() == p.records.len() + 1
        &&& q.records.drop_last() == p.records
        &&& x.written[k] == v.written[k]
    }
}

/// Whether a pool follows on another without losing what is not durable.
spec fn goes_on(v: PoolView, x: PoolView) -> bool {
    &&& x.ring.next >= v.ring.next
    &&& x.ring.essential <= v.ring.essential
    &&& forall|k: int| 0 <= k < x.ring.pages.len() ==> #[trigger] follows(v, x, k)
    &&& forall|id: int|
        #[trigger] v.ring.has(id) && id >= v.ring.essential ==> pool_laws::kept(v.ring, x.ring, id)
}

proof fn lemma_follows_has(v: PoolView, x: PoolView, k: int, id: int)
    requires
        v.wf(),
        0 <= k < x.ring.pages.len(),
        follows(v, x, k),
        x.ring.pages[k].has(id),
        id < v.ring.next,
    ensures
        k < v.ring.pages.len(),
        v.ring.pages[k].has(id),
{
}

proof fn lemma_pages_written(v: PoolView, x: PoolView, upto: int)
    requires
        v.wf(),
        x.wf(),
        goes_on(v, x),
        pages_written(v, upto),
        upto <= v.ring.next,
    ensures
        pages_written(x, upto),
{
    assert forall|k: int|
        0 <= k < x.ring.pages.len() && !(#[trigger] x.ring.pages[k]).is_empty() implies x.written[k]
        == x.ring.pages[k].offset(flush_order::count_below(x.ring.pages[k], upto)) by {
        let q = x.ring.pages[k];
        let p = v.ring.pages[k];
        assert(follows(v, x, k));
        if q.first >= v.ring.next && x.written[k] == 0 {
            assert(q.records.take(0) =~= Seq::<Seq<u8>>::empty());
            assert(q.offset(0) == 0);
        } else {
            let n = flush_order::count_below(p, upto);
            assert(!p.is_empty());
            assert(v.written[k] == p.offset(n));
            assert(flush_order::count_below(q, upto) == n);
            assert(q.records.take(n) =~= p.records.take(n));
        }
    }
}

proof fn lemma_flight_goes_on(f: Filed, g: Filed, flight: Flight)
    requires
        filed(f),
        f.flight == Some(flight),
        g.base.pool.wf(),
        goes_on(f.base.pool, g.base.pool),
        g.upto == f.upto,
        g.log == f.log || (g.log.len() == f.log.len() + 1 && g.log.drop_last() == f.log
            && g.log.last().id >= f.base.pool.ring.next),
    ensures
        flight_stands(g, flight),
{
    let v = f.base.pool;
    let x = g.base.pool;
    let last = flight.runs.last().0.last_entry_id;
    assert(flight_stands(f, flight));
    if g.log != f.log {
        assert(g.log =~= f.log.push(g.log.last()));
        lemma_logged_pushed(f.log, g.log.last(), flight.epoch, f.upto, last + 1);
    }
    assert forall|i: int|
        0 <= i < g.log.len() && g.upto <= (
        #[trigger] g.log[i]).id <= last implies g.log[i].epoch == flight.epoch by {
        if i < f.log.len() {
            assert(g.log[i] == f.log[i]);
        } else {
            assert(g.log[i] == g.log.last());
        }
    }
    assert forall|i: int| 0 <= i < flight.runs.len() implies run_stands(
        x,
        g.upto,
        last,
        (#[trigger] flight.runs[i]).0,
    ) by {
        let w = flight.runs[i].0;
        let k = w.page as int;
        let id = w.first_entry_id as int;
        assert(run_stands(v, f.upto, last, w));
        wal_ring_v1::lemma_record_at(v.ring, id, k);
        assert(v.ring.has(id));
        assert(pool_laws::kept(v.ring, x.ring, id));
        let j = x.ring.page_of(id);
        assert(0 <= j < x.ring.pages.len() && x.ring.pages[j].has(id));
        assert(follows(v, x, j));
        lemma_follows_has(v, x, j, id);
        wal_ring_v1::lemma_page_unique(v.ring, id, j, k);
        let p = v.ring.pages[k];
        let q = x.ring.pages[k];
        let n = flush_order::count_below(p, last + 1);
        assert(q.first < v.ring.next);
        assert(flush_order::count_below(q, last + 1) == n);
        assert(q.records.take(n) =~= p.records.take(n));
    }
    assert forall|k: int, id: int|
        0 <= k < x.ring.pages.len() && #[trigger] x.ring.pages[k].has(id) && g.upto <= id
            <= last implies flush_order::has_run_on(
        flight.runs,
        flight.runs.len() as int,
        k,
    ) by {
        assert(follows(v, x, k));
        lemma_follows_has(v, x, k, id);
    }
}

/// What goes on from a pool with its files, without anything written, is again
/// one.
proof fn lemma_goes_on(f: Filed, g: Filed)
    requires
        filed(f),
        pool_history::sound(g.base),
        goes_on(f.base.pool, g.base.pool),
        g.upto == f.upto,
        g.files == f.files,
        g.flight == f.flight,
        g.log == f.log || (g.log.len() == f.log.len() + 1 && g.log.drop_last() == f.log
            && g.log.last().id >= f.base.pool.ring.next && g.base.pool.ring.has(
            g.log.last().id as int,
        ) && g.base.pool.ring.record(g.log.last().id as int) == g.log.last().record),
        log_agrees(g),
        forall|id: int|
            #[trigger] g.base.pool.ring.has(id) && id >= f.base.pool.ring.next ==> in_log(
                g.log,
                id,
            ),
    ensures
        filed(g),
{
    let v = f.base.pool;
    let x = g.base.pool;
    lemma_pages_written(v, x, f.upto);
    if g.log != f.log {
        assert(g.log =~= f.log.push(g.log.last()));
    }
    assert forall|i: int| 0 <= i < g.log.len() && (#[trigger] g.log[i]).id >= g.upto implies (
    x.ring.has(g.log[i].id as int) && x.ring.record(g.log[i].id as int) == g.log[i].record) by {
        if i < f.log.len() {
            assert(g.log[i] == f.log[i]);
            assert(v.ring.has(f.log[i].id as int));
            assert(pool_laws::kept(v.ring, x.ring, f.log[i].id as int));
        } else {
            assert(g.log[i] == g.log.last());
        }
    }
    assert forall|id: int| #[trigger] x.ring.has(id) && id >= g.upto implies in_log(
        g.log,
        id,
    ) by {
        if id < v.ring.next {
            let k = x.ring.page_of(id);
            assert(0 <= k < x.ring.pages.len() && x.ring.pages[k].has(id));
            assert(follows(v, x, k));
            lemma_follows_has(v, x, k, id);
            wal_ring_v1::lemma_record_at(v.ring, id, k);
            assert(in_log(f.log, id));
            let i = choose|i: int| 0 <= i < f.log.len() && (#[trigger] f.log[i]).id == id;
            assert(g.log[i] == f.log[i]);
        }
    }
    assert forall|epoch: u64| #[trigger] file_of(g, epoch) == wal_file::packed(
        logged(g.log, epoch, 0, g.upto),
    ) by {
        assert(file_of(f, epoch) == wal_file::packed(logged(f.log, epoch, 0, f.upto)));
        if g.log != f.log {
            lemma_logged_pushed(f.log, g.log.last(), epoch, 0, f.upto);
        }
    }
    if let Some(flight) = f.flight {
        lemma_flight_goes_on(f, g, flight);
    }
}

/// A pool whose pages hold what those of another do, with empty pages more.
spec fn same_contents(v: PoolView, x: PoolView) -> bool {
    &&& x.ring.next == v.ring.next
    &&& x.ring.essential == v.ring.essential
    &&& x.ring.pages.len() >= v.ring.pages.len()
    &&& forall|k: int|
        0 <= k < x.ring.pages.len() ==> {
            let q = #[trigger] x.ring.pages[k];
            if k < v.ring.pages.len() {
                &&& q.first == v.ring.pages[k].first
                &&& q.records == v.ring.pages[k].records
                &&& x.written[k] == v.written[k]
            } else {
                q.is_empty()
            }
        }
}

proof fn lemma_same_goes_on(v: PoolView, x: PoolView)
    requires
        v.wf(),
        x.wf(),
        same_contents(v, x),
    ensures
        goes_on(v, x),
        forall|id: int| #[trigger] x.ring.has(id) ==> id < v.ring.next,
{
    assert forall|k: int| 0 <= k < x.ring.pages.len() implies #[trigger] follows(v, x, k) by {
        assert(x.ring.pages[k] == x.ring.pages[k]);
    }
    assert forall|id: int|
        #[trigger] v.ring.has(id) && id >= v.ring.essential implies pool_laws::kept(
        v.ring,
        x.ring,
        id,
    ) by {
        let k = v.ring.page_of(id);
        assert(0 <= k < v.ring.pages.len() && v.ring.pages[k].has(id));
        assert(x.ring.pages[k].has(id));
        wal_ring_v1::lemma_record_at(x.ring, id, k);
        wal_ring_v1::lemma_record_at(v.ring, id, k);
    }
    assert forall|id: int| #[trigger] x.ring.has(id) implies id < v.ring.next by {
        let k = x.ring.page_of(id);
        assert(0 <= k < x.ring.pages.len() && x.ring.pages[k].has(id));
        if k != x.ring.active {
            assert(!x.ring.pages[k].is_empty());
            assert(x.ring.pages[k].end() <= x.ring.pages[x.ring.active].first);
        }
    }
}

proof fn lemma_quiet_filed(f: Filed, op: PoolOp)
    requires
        filed(f),
        allowed(f, FileOp::Do(op)),
        !(op is Place),
    ensures
        filed(then_done(f, FileOp::Do(op))),
{
    let g = then_done(f, FileOp::Do(op));
    pool_history::lemma_step_sound(f.base, op);
    let v = f.base.pool;
    let x = g.base.pool;
    assert(same_contents(v, x));
    lemma_same_goes_on(v, x);
    lemma_goes_on(f, g);
}

// ---------------------------------------------------------------------------
// Placing.

/// Whether each page of a pool is as it was in another, or empty.
spec fn kept_or_empty(v: PoolView, w: PoolView) -> bool {
    &&& w.ring.pages.len() == v.ring.pages.len()
    &&& w.written.len() == v.written.len()
    &&& forall|k: int|
        0 <= k < w.ring.pages.len() ==> (#[trigger] w.ring.pages[k]).is_empty() || (w.ring.pages[k]
            == v.ring.pages[k] && w.written[k] == v.written[k])
}

proof fn lemma_steps_kept(v: PoolView, n: nat)
    requires
        v.wf(),
        v.ring.next + n <= u64::MAX,
    ensures
        kept_or_empty(v, v.stepped_over(n).0),
        v.stepped_over(n).0.ring.next >= v.ring.next,
        v.stepped_over(n).0.ring.essential == v.ring.essential,
    decreases n,
{
    if n > 0 {
        page_pool::lemma_pool_skipped_wf(v);
        if let Some(k) = v.ring.target() {
            assert(v.ring.is_target(k));
        }
        if let Some(w) = v.skipped() {
            assert(kept_or_empty(v, w));
            lemma_steps_kept(w, (n - 1) as nat);
            let s = w.stepped_over((n - 1) as nat).0;
            assert forall|k: int| 0 <= k < s.ring.pages.len() implies (
            #[trigger] s.ring.pages[k]).is_empty() || (s.ring.pages[k] == v.ring.pages[k]
                && s.written[k] == v.written[k]) by {
                assert(w.ring.pages[k].is_empty() || (w.ring.pages[k] == v.ring.pages[k]
                    && w.written[k] == v.written[k]));
            }
        }
    }
}

proof fn lemma_synced_kept(v: PoolView, expected: u64)
    requires
        v.wf(),
        expected >= v.ring.next,
    ensures
        ({
            let w = v.synced(expected).0;
            &&& kept_or_empty(v, w)
            &&& w.ring.next >= v.ring.next
            &&& w.ring.essential <= v.ring.essential
            &&& v.synced(expected).1 && !w.ring.pages[w.ring.active].is_empty() ==> w == v
                && expected == v.ring.next
        }),
{
    let gap = expected - v.ring.next;
    if 0 < gap <= MAX_STEPPABLE_GAP {
        lemma_steps_kept(v, gap as nat);
        pool_laws::lemma_steps(v, gap as nat);
    } else if gap != 0 {
        page_pool::lemma_reseeded_wf(v, expected);
        page_pool::lemma_reinitialised_len(v.ring, expected);
    }
}

proof fn lemma_place_goes_on(v: PoolView, expected: u64, record: Seq<u8>)
    requires
        v.wf(),
        expected < u64::MAX,
        expected >= v.ring.next,
    ensures
        ({
            let (x, outcome) = v.placed(expected, record);
            &&& goes_on(v, x)
            &&& forall|id: int|
                #[trigger] x.ring.has(id) && id >= v.ring.next ==> outcome is Placed && id
                    == expected
        }),
{
    let (w, there) = v.synced(expected);
    let (x, outcome) = v.placed(expected, record);
    pool_laws::lemma_synced(v, expected);
    lemma_synced_kept(v, expected);
    pool_history::lemma_place_wf(v, expected, record);
    if let Some(k) = w.ring.target() {
        assert(w.ring.is_target(k));
    }
    let a = x.ring.active;
    assert forall|k: int| 0 <= k < x.ring.pages.len() implies #[trigger] follows(v, x, k) by {
        assert(w.ring.pages[k].is_empty() || (w.ring.pages[k] == v.ring.pages[k] && w.written[k]
            == v.written[k]));
        if outcome is Placed && k == a {
            let q = x.ring.pages[k];
            if w.opens_page(record) {
                assert(q.first == expected);
            } else if w.ring.pages[k].is_empty() {
                assert(page_pool::is_boundary(w.ring.pages[k], w.written[k]));
                assert(w.ring.pages[k].records =~= Seq::<Seq<u8>>::empty());
                assert(w.ring.pages[k].records.take(0) =~= Seq::<Seq<u8>>::empty());
                assert(w.written[k] == 0);
            } else {
                assert(w == v);
                assert(q.records == v.ring.pages[k].records.push(record));
                assert(q.records.drop_last() =~= v.ring.pages[k].records);
            }
        } else {
            assert(x.ring.pages[k] == w.ring.pages[k]);
            assert(x.written[k] == w.written[k]);
        }
    }
    assert forall|id: int|
        #[trigger] v.ring.has(id) && id >= v.ring.essential implies pool_laws::kept(
        v.ring,
        x.ring,
        id,
    ) by {
        pool_laws::accepted_record_survives(v, expected, record, id);
    }
    assert forall|id: int| #[trigger] x.ring.has(id) && id >= v.ring.next implies outcome is Placed
        && id == expected by {
        let k = x.ring.page_of(id);
        assert(0 <= k < x.ring.pages.len() && x.ring.pages[k].has(id));
        assert(w.ring.pages[k].is_empty() || (w.ring.pages[k] == v.ring.pages[k] && w.written[k]
            == v.written[k]));
        if k != v.ring.active && !v.ring.pages[k].is_empty() {
            assert(v.ring.pages[k].end() <= v.ring.pages[v.ring.active].first);
        }
        if !(outcome is Placed && k == a) {
            assert(x.ring.pages[k] == w.ring.pages[k]);
        }
    }
}

proof fn lemma_place_filed(f: Filed, expected: u64, record: Seq<u8>)
    requires
        filed(f),
        allowed(f, FileOp::Do(PoolOp::Place { expected, record })),
    ensures
        filed(then_done(f, FileOp::Do(PoolOp::Place { expected, record }))),
{
    let op = PoolOp::Place { expected, record };
    let g = then_done(f, FileOp::Do(op));
    let v = f.base.pool;
    let outcome = v.placed(expected, record).1;
    pool_history::lemma_step_sound(f.base, op);
    pool_history::lemma_place_agrees(f.base, expected, record);
    lemma_place_goes_on(v, expected, record);
    if outcome is Placed {
        pool_laws::placed_record_is_held(v, expected, record);
        let new = g.log.last();
        assert(g.log.drop_last() =~= f.log);
        assert(g.log[f.log.len() as int] == new);
        assert forall|i: int, j: int| 0 <= i < j < g.log.len() implies (#[trigger] g.log[i]).id < (
        #[trigger] g.log[j]).id && g.log[i].epoch <= g.log[j].epoch by {
            assert(g.log[i] == f.log[i]);
            if j < f.log.len() {
                assert(g.log[j] == f.log[j]);
            } else {
                assert(f.log[i].id < v.ring.next);
                assert(f.base.last == Some(f.log.last().epoch));
                if i < f.log.len() - 1 {
                    assert(f.log[i].epoch <= f.log[f.log.len() - 1].epoch);
                }
            }
        }
        assert forall|i: int| 0 <= i < g.log.len() implies ({
            let y = #[trigger] g.log[i];
            &&& y.id < g.base.pool.ring.next
            &&& g.base.placed.contains_key(y.id as int)
            &&& g.base.placed[y.id as int] == y.epoch
        }) by {
            if i < f.log.len() {
                assert(g.log[i] == f.log[i]);
            }
        }
        assert(in_log(g.log, expected as int));
    }
    lemma_goes_on(f, g);
}

// ---------------------------------------------------------------------------
// A flush begins.

/// An entry that is not in its file, and that the writer has taken on, is in a
/// run of the file's flush.
proof fn lemma_entry_has_run(
    f: Filed,
    runs: Seq<(PendingWrite, Seq<u8>)>,
    epoch: u64,
    bound: u64,
    t: int,
) -> (y: int)
    requires
        filed(f),
        page_pool::pending_is(f.base.pool, runs, epoch),
        f.base.pool.handed_through == Some(bound),
        0 <= t < f.log.len(),
        f.log[t].epoch == epoch,
        f.upto <= f.log[t].id <= bound,
    ensures
        0 <= y < runs.len(),
        f.base.pool.ring.pages[runs[y].0.page as int].has(f.log[t].id as int),
        runs[y].0.first_entry_id <= f.log[t].id <= runs[y].0.last_entry_id,
{
    let v = f.base.pool;
    let id = f.log[t].id as int;
    assert(v.ring.has(id));
    let k = v.ring.page_of(id);
    assert(0 <= k < v.ring.pages.len() && v.ring.pages[k].has(id));
    let p = v.ring.pages[k];
    assert(p.wf(v.ring.page_size));
    assert(v.epochs[k] == epoch);
    let last = if p.end() - 1 <= bound {
        p.end() - 1
    } else {
        bound as int
    };
    let a = flush_order::count_below(p, f.upto);
    assert(!p.is_empty());
    assert(v.written[k] == p.offset(a));
    wal_page::lemma_offset_monotone(p, a, last - p.first + 1);
    page_pool::lemma_entries_before(p, a);
    assert(v.run(k, epoch) is Some);
    let y = choose|y: int| 0 <= y < runs.len() && (#[trigger] runs[y]).0.page == k;
    assert(v.run(k, epoch) == Some(runs[y].0));
    y
}

/// Nothing of the file lies between two runs of its flush.
proof fn lemma_no_gap(
    f: Filed,
    runs: Seq<(PendingWrite, Seq<u8>)>,
    epoch: u64,
    bound: u64,
    i: int,
    c: int,
)
    requires
        filed(f),
        page_pool::pending_is(f.base.pool, runs, epoch),
        f.base.pool.handed_through == Some(bound),
        0 < i <= runs.len(),
        f.upto <= c,
        i > 1 ==> c == runs[i - 2].0.last_entry_id + 1,
    ensures
        forall|t: int|
            0 <= t < f.log.len() ==> !is_of(
                #[trigger] f.log[t],
                epoch,
                c,
                runs[i - 1].0.first_entry_id as int,
            ),
{
    let v = f.base.pool;
    let first = runs[i - 1].0.first_entry_id as int;
    assert(flush_order::written_up_to(v, epoch, f.upto));
    flush_order::lemma_run_start(v, runs, epoch, f.upto, bound, i - 1);
    assert forall|t: int| 0 <= t < f.log.len() implies !is_of(
        #[trigger] f.log[t],
        epoch,
        c,
        first,
    ) by {
        if is_of(f.log[t], epoch, c, first) {
            let y = lemma_entry_has_run(f, runs, epoch, bound, t);
            if y < i - 2 {
                assert(runs[y].0.last_entry_id < runs[i - 2].0.first_entry_id);
                flush_order::lemma_run_start(v, runs, epoch, f.upto, bound, i - 2);
            } else if y > i - 1 {
                assert(runs[i - 1].0.last_entry_id < runs[y].0.first_entry_id);
            }
        }
    }
}

/// An unwritten entry on a page of a file is one that was placed for it.
proof fn lemma_page_entry_logged(f: Filed, k: int, id: int)
    requires
        filed(f),
        0 <= k < f.base.pool.ring.pages.len(),
        f.base.pool.ring.pages[k].has(id),
        id >= f.upto,
    ensures
        is_logged(f.log, f.base.pool.epochs[k], id, f.base.pool.ring.pages[k].record(id)),
{
    let v = f.base.pool;
    wal_ring_v1::lemma_record_at(v.ring, id, k);
    assert(in_log(f.log, id));
    let t = choose|t: int| 0 <= t < f.log.len() && (#[trigger] f.log[t]).id == id;
    assert(f.log[t].record == v.ring.record(id));
    assert(f.base.placed.contains_key(f.log[t].id as int));
    assert(f.base.placed[id] == v.epochs[k]);
}

/// A run holds what was placed for the file since the run before it.
proof fn lemma_run_logged(
    f: Filed,
    runs: Seq<(PendingWrite, Seq<u8>)>,
    epoch: u64,
    bound: u64,
    i: int,
    c: int,
)
    requires
        filed(f),
        page_pool::pending_is(f.base.pool, runs, epoch),
        f.base.pool.handed_through == Some(bound),
        0 < i <= runs.len(),
        f.upto <= c,
        i == 1 ==> c == f.upto,
        i > 1 ==> c == runs[i - 2].0.last_entry_id + 1,
    ensures
        c <= runs[i - 1].0.last_entry_id + 1,
        runs[i - 1].1 == wal_file::packed(
            logged(f.log, epoch, c, runs[i - 1].0.last_entry_id + 1),
        ),
{
    let v = f.base.pool;
    let w = runs[i - 1].0;
    let k = w.page as int;
    let p = v.ring.pages[k];
    assert(flush_order::written_up_to(v, epoch, f.upto));
    flush_order::lemma_run_start(v, runs, epoch, f.upto, bound, i - 1);
    assert(v.run(k, epoch) == Some(w));
    let a = flush_order::count_below(p, f.upto);
    let first = w.first_entry_id as int;
    let n = w.last_entry_id - p.first + 1;
    let more = p.records.subrange(a, n);
    if i > 1 {
        assert(runs[i - 2].0.last_entry_id < runs[i - 1].0.first_entry_id);
    }
    lemma_no_gap(f, runs, epoch, bound, i, c);
    assert forall|j: int| 0 <= j < more.len() implies is_logged(
        f.log,
        epoch,
        first + j,
        #[trigger] more[j],
    ) by {
        lemma_page_entry_logged(f, k, first + j);
    }
    lemma_logged_run(f.log, epoch, c, first, more);
    assert(first + more.len() == w.last_entry_id + 1);
}

proof fn lemma_joined(
    f: Filed,
    runs: Seq<(PendingWrite, Seq<u8>)>,
    epoch: u64,
    bound: u64,
    i: int,
) -> (c: int)
    requires
        filed(f),
        page_pool::pending_is(f.base.pool, runs, epoch),
        f.base.pool.handed_through == Some(bound),
        0 <= i <= runs.len(),
    ensures
        f.upto <= c,
        i == 0 ==> c == f.upto,
        i > 0 ==> c == runs[i - 1].0.last_entry_id + 1,
        flush_order::joined(runs.take(i)) == wal_file::packed(logged(f.log, epoch, f.upto, c)),
    decreases i,
{
    if i == 0 {
        assert(runs.take(0) =~= Seq::empty());
        lemma_logged_none(f.log, epoch, f.upto, f.upto);
        f.upto
    } else {
        let c = lemma_joined(f, runs, epoch, bound, i - 1);
        lemma_run_logged(f, runs, epoch, bound, i, c);
        let d = runs[i - 1].0.last_entry_id + 1;
        lemma_logged_split(f.log, epoch, f.upto, c, d);
        wal_file::lemma_packed_concat(
            logged(f.log, epoch, f.upto, c),
            logged(f.log, epoch, c, d),
        );
        assert(runs.take(i).drop_last() =~= runs.take(i - 1));
        assert(runs.take(i).last() == runs[i - 1]);
        d
    }
}

/// The last run of a flush ends with the highest id of the file that the writer
/// has taken on.
proof fn lemma_last_is_highest(
    f: Filed,
    runs: Seq<(PendingWrite, Seq<u8>)>,
    epoch: u64,
    bound: u64,
    t: int,
)
    requires
        filed(f),
        page_pool::pending_is(f.base.pool, runs, epoch),
        f.base.pool.handed_through == Some(bound),
        0 <= t < f.log.len(),
        f.log[t].epoch == epoch,
        f.upto <= f.log[t].id <= bound,
    ensures
        runs.len() > 0,
        f.log[t].id <= runs.last().0.last_entry_id,
{
    let y = lemma_entry_has_run(f, runs, epoch, bound, t);
    let n = runs.len() - 1;
    if y < n {
        assert(runs[y].0.last_entry_id < runs[n].0.first_entry_id);
        let w = runs[n].0;
        assert(f.base.pool.run(w.page as int, epoch) == Some(w));
        page_pool::lemma_run_bounds(f.base.pool, w.page as int, epoch);
    }
}

/// The records from where the pages are written up to, to the last of a flush
/// of a file, are all of that file.
proof fn lemma_flush_is_of_one_file(
    f: Filed,
    runs: Seq<(PendingWrite, Seq<u8>)>,
    epoch: u64,
    t: int,
)
    requires
        filed(f),
        allowed(f, FileOp::Begin { epoch, runs }),
        0 <= t < f.log.len(),
        f.upto <= f.log[t].id <= runs.last().0.last_entry_id,
    ensures
        f.log[t].epoch == epoch,
{
    let v = f.base.pool;
    let w = runs[runs.len() - 1].0;
    let k = w.page as int;
    let last = w.last_entry_id as int;
    assert(v.run(k, epoch) == Some(w));
    page_pool::lemma_run_bounds(v, k, epoch);
    assert(v.ring.pages[k].has(last));
    lemma_page_entry_logged(f, k, last);
    let z = choose|z: int|
        0 <= z < f.log.len() && (#[trigger] f.log[z]).id == last && f.log[z].epoch == v.epochs[k]
            && f.log[z].record == v.ring.pages[k].record(last);
    assert(f.log[z].epoch == epoch);
    if t < z {
        assert(f.log[t].epoch <= f.log[z].epoch);
    } else if t > z {
        assert(f.log[z].id < f.log[t].id);
    }
}

proof fn lemma_begin_run(f: Filed, runs: Seq<(PendingWrite, Seq<u8>)>, epoch: u64, i: int)
    requires
        filed(f),
        allowed(f, FileOp::Begin { epoch, runs }),
        0 <= i < runs.len(),
    ensures
        run_stands(f.base.pool, f.upto, runs.last().0.last_entry_id, runs[i].0),
{
    let v = f.base.pool;
    let n = runs.len() - 1;
    let last = runs[n].0.last_entry_id;
    let u = runs[i].0;
    let q = v.ring.pages[u.page as int];
    assert(v.run(u.page as int, epoch) == Some(u));
    let bound = v.handed_through->0;
    page_pool::lemma_run_bounds(v, u.page as int, epoch);
    assert(flush_order::written_up_to(v, epoch, f.upto));
    flush_order::lemma_run_start(v, runs, epoch, f.upto, bound, i);
    flush_order::lemma_run_start(v, runs, epoch, f.upto, bound, n);
    if i < n {
        assert(runs[i].0.last_entry_id < runs[n].0.first_entry_id);
    }
    assert(flush_order::count_below(q, last + 1) == u.last_entry_id - q.first + 1);
}

proof fn lemma_begin_covers(
    f: Filed,
    runs: Seq<(PendingWrite, Seq<u8>)>,
    epoch: u64,
    k: int,
    id: int,
)
    requires
        filed(f),
        allowed(f, FileOp::Begin { epoch, runs }),
        0 <= k < f.base.pool.ring.pages.len(),
        f.base.pool.ring.pages[k].has(id),
        f.upto <= id <= runs.last().0.last_entry_id,
    ensures
        flush_order::has_run_on(runs, runs.len() as int, k),
{
    let v = f.base.pool;
    let n = runs.len() - 1;
    let w = runs[n].0;
    assert(v.run(w.page as int, epoch) == Some(w));
    let bound = v.handed_through->0;
    lemma_page_entry_logged(f, k, id);
    let t = choose|t: int|
        0 <= t < f.log.len() && (#[trigger] f.log[t]).id == id && f.log[t].epoch == v.epochs[k]
            && f.log[t].record == v.ring.pages[k].record(id);
    lemma_flush_is_of_one_file(f, runs, epoch, t);
    let y = lemma_entry_has_run(f, runs, epoch, bound, t);
    assert(v.run(runs[y].0.page as int, epoch) == Some(runs[y].0));
    wal_ring_v1::lemma_page_unique(v.ring, id, k, runs[y].0.page as int);
    assert(runs[y].0.page == k);
}

proof fn lemma_begin_filed(f: Filed, epoch: u64, runs: Seq<(PendingWrite, Seq<u8>)>)
    requires
        filed(f),
        allowed(f, FileOp::Begin { epoch, runs }),
    ensures
        filed(then_done(f, FileOp::Begin { epoch, runs })),
{
    let v = f.base.pool;
    let g = then_done(f, FileOp::Begin { epoch, runs });
    let flight = Flight { epoch, runs };
    let n = runs.len() - 1;
    let w = runs[n].0;
    let last = w.last_entry_id;
    assert(v.run(w.page as int, epoch) == Some(w));
    let bound = v.handed_through->0;
    page_pool::lemma_run_bounds(v, w.page as int, epoch);
    lemma_begin_run(f, runs, epoch, n);
    lemma_joined(f, runs, epoch, bound, runs.len() as int);
    assert(runs.take(runs.len() as int) =~= runs);
    assert(last < v.ring.next) by {
        let p = v.ring.pages[w.page as int];
        if w.page != v.ring.active {
            assert(!p.is_empty());
            assert(p.end() <= v.ring.pages[v.ring.active].first);
        }
    }
    assert forall|t: int|
        0 <= t < f.log.len() && f.upto <= (#[trigger] f.log[t]).id <= last implies f.log[t].epoch
        == epoch by {
        lemma_flush_is_of_one_file(f, runs, epoch, t);
    }
    assert forall|i: int| 0 <= i < runs.len() implies run_stands(
        v,
        f.upto,
        last,
        (#[trigger] runs[i]).0,
    ) by {
        lemma_begin_run(f, runs, epoch, i);
    }
    assert forall|k: int, id: int|
        0 <= k < v.ring.pages.len() && #[trigger] v.ring.pages[k].has(id) && f.upto <= id
            <= last implies flush_order::has_run_on(runs, runs.len() as int, k) by {
        lemma_begin_covers(f, runs, epoch, k, id);
    }
    assert(flight_stands(g, flight));
    assert forall|e: u64| #[trigger] file_of(g, e) == wal_file::packed(
        logged(g.log, e, 0, g.upto),
    ) by {
        assert(file_of(f, e) == wal_file::packed(logged(f.log, e, 0, f.upto)));
    }
}

// ---------------------------------------------------------------------------
// A flush ends.

proof fn lemma_commits(h: History, runs: Seq<(PendingWrite, Seq<u8>)>)
    requires
        pool_history::sound(h),
    ensures
        pool_history::sound(commits(h, runs)),
        commits(h, runs).pool == ack_file_writer::all_committed(h.pool, runs),
        commits(h, runs).pool.ring == h.pool.ring,
        commits(h, runs).placed == h.placed,
        commits(h, runs).last == h.last,
    decreases runs.len(),
{
    if runs.len() > 0 {
        lemma_commits(h, runs.drop_last());
        if page_pool::ends_with_entry(h.pool.ring, runs.last().0) {
            pool_history::lemma_step_sound(
                commits(h, runs.drop_last()),
                PoolOp::Commit(runs.last().0),
            );
        }
    }
}

proof fn lemma_committed_to(f: Filed, flight: Flight, i: int, k: int)
    requires
        filed(f),
        f.flight == Some(flight),
        0 <= i <= flight.runs.len(),
        0 <= k < f.base.pool.ring.pages.len(),
    ensures
        ({
            let v = f.base.pool;
            let p = v.ring.pages[k];
            let after = ack_file_writer::all_committed(v, flight.runs.take(i));
            let last = flight.runs.last().0.last_entry_id;
            &&& after.written.len() == v.written.len()
            &&& after.written[k] == (if flush_order::has_run_on(flight.runs, i, k) {
                p.offset(flush_order::count_below(p, last + 1))
            } else {
                v.written[k]
            })
        }),
    decreases i,
{
    let v = f.base.pool;
    let runs = flight.runs;
    let last = runs.last().0.last_entry_id;
    assert(flight_stands(f, flight));
    if i == 0 {
        assert(runs.take(0) =~= Seq::empty());
    } else {
        let w = runs[i - 1].0;
        let m = w.page as int;
        lemma_committed_to(f, flight, i - 1, k);
        lemma_committed_to(f, flight, i - 1, m);
        assert(runs.take(i).drop_last() =~= runs.take(i - 1));
        assert(runs.take(i).last() == runs[i - 1]);
        assert(run_stands(v, f.upto, last, w));
        let p = v.ring.pages[m];
        assert(!p.is_empty());
        let n = flush_order::count_below(p, last + 1);
        assert(page_pool::is_boundary(p, p.offset(n)));
        wal_page::lemma_offset_monotone(p, flush_order::count_below(p, f.upto), n);
        assert(v.written[m] == p.offset(flush_order::count_below(p, f.upto)));
        if m == k {
            assert(runs[i - 1].0.page == k);
            assert(flush_order::has_run_on(runs, i, k));
        } else if flush_order::has_run_on(runs, i, k) {
            let j = choose|j: int| 0 <= j < i && (#[trigger] runs[j]).0.page == k;
            assert(runs[j].0.page == k);
            assert(flush_order::has_run_on(runs, i - 1, k));
        } else if flush_order::has_run_on(runs, i - 1, k) {
            let j = choose|j: int| 0 <= j < i - 1 && (#[trigger] runs[j]).0.page == k;
            assert(runs[j].0.page == k);
        }
    }
}

/// A page with something that is not durable is not given up.
proof fn lemma_shrunk_keeps(r: RingView, floor: nat, k: int)
    requires
        r.wf(),
        0 <= k < r.pages.len(),
        !r.reusable(k),
    ensures
        k < page_pool::shrunk_down(r, floor).pages.len(),
    decreases r.pages.len(),
{
    if r.can_shrink(floor) {
        wal_ring_v1::lemma_shrunk_wf(r);
        assert(k < r.pages.len() - 1);
        assert(r.shrunk().pages[k] == r.pages[k]);
        lemma_shrunk_keeps(r.shrunk(), floor, k);
    }
}

/// A pool in which everything below an id is on disk.
spec fn made_durable(v: PoolView, id: u64, in_arena: bool) -> PoolView {
    if in_arena {
        v.durable_in(id)
    } else {
        v.durable(id)
    }
}

/// What a flush makes durable leaves every page that is not durable as it is.
proof fn lemma_durable_keeps(v: PoolView, id: u64, in_arena: bool)
    requires
        v.wf(),
        id > v.ring.essential,
    ensures
        ({
            let x = made_durable(v, id, in_arena);
            &&& x.ring.pages.len() <= v.ring.pages.len()
            &&& x.ring.next == v.ring.next
            &&& x.ring.essential == id
            &&& forall|k: int|
                0 <= k < x.ring.pages.len() ==> (#[trigger] x.ring.pages[k]) == v.ring.pages[k]
                    && x.written[k] == v.written[k]
            &&& forall|k: int, i: int|
                0 <= k < v.ring.pages.len() && #[trigger] v.ring.pages[k].has(i) && i >= id ==> k
                    < x.ring.pages.len()
        }),
{
    if in_arena {
        let risen = RingView { essential: id, ..v.ring };
        page_pool::lemma_essential_wf(v.ring, id);
        page_pool::lemma_shrunk_down(risen, v.floor);
        assert forall|k: int, i: int|
            0 <= k < v.ring.pages.len() && #[trigger] v.ring.pages[k].has(i) && i >= id implies k
            < made_durable(v, id, in_arena).ring.pages.len() by {
            lemma_shrunk_keeps(risen, v.floor, k);
        }
    }
}

/// The pool after a flush that wrote.
proof fn lemma_end_pool(f: Filed, flight: Flight, in_arena: bool)
    requires
        filed(f),
        f.flight == Some(flight),
    ensures
        ({
            let g = then_done(f, FileOp::End { wrote: true, in_arena });
            let v = f.base.pool;
            let x = g.base.pool;
            let last = flight.runs.last().0.last_entry_id;
            let c = ack_file_writer::all_committed(v, flight.runs);
            &&& pool_history::sound(g.base)
            &&& g.base.placed == f.base.placed
            &&& g.base.last == f.base.last
            &&& x.ring.next == v.ring.next
            &&& x.ring.essential == last + 1
            &&& x.ring.pages.len() <= v.ring.pages.len()
            &&& forall|k: int|
                0 <= k < x.ring.pages.len() ==> (#[trigger] x.ring.pages[k]) == v.ring.pages[k]
                    && x.written[k] == c.written[k]
            &&& forall|k: int, i: int|
                0 <= k < v.ring.pages.len() && #[trigger] v.ring.pages[k].has(i) && i > last ==> k
                    < x.ring.pages.len()
        }),
{
    let g = then_done(f, FileOp::End { wrote: true, in_arena });
    assert(flight_stands(f, flight));
    let last = flight.runs.last().0.last_entry_id;
    let id = ack_file_writer::next_id(last);
    let c = commits(f.base, flight.runs);
    lemma_commits(f.base, flight.runs);
    let op = if in_arena {
        PoolOp::DurableIn(id)
    } else {
        PoolOp::Durable(id)
    };
    pool_history::lemma_step_sound(c, op);
    assert(id == last + 1);
    lemma_durable_keeps(c.pool, id, in_arena);
    assert(g.base == pool_history::then_done(c, op));
    let x = g.base.pool;
    assert(x == made_durable(c.pool, id, in_arena));
    assert forall|k: int| 0 <= k < x.ring.pages.len() implies (#[trigger] x.ring.pages[k])
        == f.base.pool.ring.pages[k] && x.written[k] == c.pool.written[k] by {}
    assert forall|k: int, i: int|
        0 <= k < f.base.pool.ring.pages.len() && #[trigger] f.base.pool.ring.pages[k].has(i) && i
            > last implies k < g.base.pool.ring.pages.len() by {
        assert(c.pool.ring.pages[k].has(i));
    }
}

proof fn lemma_end_pages(f: Filed, flight: Flight, in_arena: bool)
    requires
        filed(f),
        f.flight == Some(flight),
    ensures
        ({
            let g = then_done(f, FileOp::End { wrote: true, in_arena });
            pages_written(g.base.pool, g.upto)
        }),
{
    let g = then_done(f, FileOp::End { wrote: true, in_arena });
    let v = f.base.pool;
    let x = g.base.pool;
    let runs = flight.runs;
    let last = runs.last().0.last_entry_id;
    assert(flight_stands(f, flight));
    lemma_end_pool(f, flight, in_arena);
    assert(runs.take(runs.len() as int) =~= runs);
    assert forall|k: int|
        0 <= k < x.ring.pages.len() && !(#[trigger] x.ring.pages[k]).is_empty() implies x.written[k]
        == x.ring.pages[k].offset(flush_order::count_below(x.ring.pages[k], g.upto)) by {
        let p = v.ring.pages[k];
        lemma_committed_to(f, flight, runs.len() as int, k);
        if !flush_order::has_run_on(runs, runs.len() as int, k) {
            assert(v.written[k] == p.offset(flush_order::count_below(p, f.upto)));
            let a = flush_order::count_below(p, f.upto);
            let b = flush_order::count_below(p, last + 1);
            if a < b {
                assert(p.has(p.first + a));
            }
        }
    }
}

proof fn lemma_end_log(f: Filed, flight: Flight, in_arena: bool)
    requires
        filed(f),
        f.flight == Some(flight),
    ensures
        log_is_held(then_done(f, FileOp::End { wrote: true, in_arena })),
{
    let g = then_done(f, FileOp::End { wrote: true, in_arena });
    let v = f.base.pool;
    let x = g.base.pool;
    assert(flight_stands(f, flight));
    lemma_end_pool(f, flight, in_arena);
    assert forall|i: int| 0 <= i < g.log.len() && (#[trigger] g.log[i]).id >= g.upto implies (
    x.ring.has(g.log[i].id as int) && x.ring.record(g.log[i].id as int) == g.log[i].record) by {
        let n = g.log[i].id as int;
        assert(v.ring.has(n));
        let k = v.ring.page_of(n);
        assert(0 <= k < v.ring.pages.len() && v.ring.pages[k].has(n));
        assert(x.ring.pages[k] == v.ring.pages[k]);
        wal_ring_v1::lemma_record_at(x.ring, n, k);
    }
    assert forall|n: int| #[trigger] x.ring.has(n) && n >= g.upto implies in_log(g.log, n) by {
        let k = x.ring.page_of(n);
        assert(0 <= k < x.ring.pages.len() && x.ring.pages[k].has(n));
        assert(x.ring.pages[k] == v.ring.pages[k]);
        wal_ring_v1::lemma_record_at(v.ring, n, k);
        assert(v.ring.has(n));
    }
}

proof fn lemma_end_files(f: Filed, flight: Flight, in_arena: bool)
    requires
        filed(f),
        f.flight == Some(flight),
    ensures
        files_are_right(then_done(f, FileOp::End { wrote: true, in_arena })),
{
    let g = then_done(f, FileOp::End { wrote: true, in_arena });
    let last = flight.runs.last().0.last_entry_id;
    assert(flight_stands(f, flight));
    assert forall|e: u64| #[trigger] file_of(g, e) == wal_file::packed(
        logged(g.log, e, 0, g.upto),
    ) by {
        assert(file_of(f, e) == wal_file::packed(logged(f.log, e, 0, f.upto)));
        lemma_logged_split(f.log, e, 0, f.upto, last + 1);
        wal_file::lemma_packed_concat(
            logged(f.log, e, 0, f.upto),
            logged(f.log, e, f.upto, last + 1),
        );
        if e != flight.epoch {
            lemma_logged_none(f.log, e, f.upto, last + 1);
            assert(logged(f.log, e, 0, f.upto) + Seq::<Seq<u8>>::empty() =~= logged(
                f.log,
                e,
                0,
                f.upto,
            ));
        }
    }
}

proof fn lemma_end_filed(f: Filed, wrote: bool, in_arena: bool)
    requires
        filed(f),
        allowed(f, FileOp::End { wrote, in_arena }),
    ensures
        filed(then_done(f, FileOp::End { wrote, in_arena })),
{
    let g = then_done(f, FileOp::End { wrote, in_arena });
    let flight = f.flight->0;
    assert(flight_stands(f, flight));
    if wrote {
        lemma_end_pool(f, flight, in_arena);
        lemma_end_pages(f, flight, in_arena);
        lemma_end_log(f, flight, in_arena);
        lemma_end_files(f, flight, in_arena);
        assert(log_agrees(g));
    } else {
        assert forall|e: u64| #[trigger] file_of(g, e) == wal_file::packed(
            logged(g.log, e, 0, g.upto),
        ) by {
            assert(file_of(f, e) == wal_file::packed(logged(f.log, e, 0, f.upto)));
        }
    }
}

// ---------------------------------------------------------------------------
// What always holds.

proof fn lemma_course_filed(
    v: PoolView,
    max_file_size: u64,
    header_len: u64,
    ops: Seq<FileOp>,
)
    requires
        v.wf(),
        v.ring.essential <= v.ring.next,
        all_allowed(begun(v, max_file_size, header_len), ops),
    ensures
        filed(course(begun(v, max_file_size, header_len), ops)),
    decreases ops.len(),
{
    let start = begun(v, max_file_size, header_len);
    if ops.len() == 0 {
        pool_history::lemma_course_sound(v, max_file_size, header_len, Seq::empty());
        let w = start.base.pool;
        assert forall|k: int|
            0 <= k < w.ring.pages.len() && !(
            #[trigger] w.ring.pages[k]).is_empty() implies w.written[k] == w.ring.pages[k].offset(
            flush_order::count_below(w.ring.pages[k], start.upto),
        ) by {
            let p = v.ring.pages[k];
            if k != v.ring.active {
                assert(p.end() <= v.ring.pages[v.ring.active].first);
            }
            assert(p.records.take(p.records.len() as int) =~= p.records);
        }
        assert forall|id: int| #[trigger] w.ring.has(id) && id >= start.upto implies in_log(
            start.log,
            id,
        ) by {
            let k = w.ring.page_of(id);
            assert(0 <= k < w.ring.pages.len() && w.ring.pages[k].has(id));
            if k != v.ring.active {
                assert(!v.ring.pages[k].is_empty());
                assert(v.ring.pages[k].end() <= v.ring.pages[v.ring.active].first);
            }
        }
        assert(wal_file::packed(Seq::<Seq<u8>>::empty()) =~= Seq::<u8>::empty());
    } else {
        lemma_course_filed(v, max_file_size, header_len, ops.drop_last());
        let f = course(start, ops.drop_last());
        match ops.last() {
            FileOp::Do(op) => {
                if let PoolOp::Place { expected, record } = op {
                    lemma_place_filed(f, expected, record);
                } else {
                    lemma_quiet_filed(f, op);
                }
            },
            FileOp::Begin { epoch, runs } => {
                lemma_begin_filed(f, epoch, runs);
            },
            FileOp::End { wrote, in_arena } => {
                lemma_end_filed(f, wrote, in_arena);
            },
        }
    }
}

/// Whatever was placed, over gaps or not, handed over, read and flushed since
/// the writer began: the pages are written up to some id; every file holds
/// exactly what was placed for it below that id, in order; and everything that
/// was placed and counts as durable is below that id, so it is in its file.
pub proof fn files_hold_what_is_durable(
    v: PoolView,
    max_file_size: u64,
    header_len: u64,
    ops: Seq<FileOp>,
)
    requires
        v.wf(),
        v.ring.essential <= v.ring.next,
        all_allowed(begun(v, max_file_size, header_len), ops),
    ensures
        ({
            let f = course(begun(v, max_file_size, header_len), ops);
            &&& pages_written(f.base.pool, f.upto)
            &&& files_are_right(f)
            &&& in_order(f.log)
            &&& f.base.pool.ring.essential <= f.upto
            &&& forall|i: int|
                0 <= i < f.log.len() && (#[trigger] f.log[i]).id < f.base.pool.ring.essential
                    ==> f.log[i].id < f.upto
        }),
{
    lemma_course_filed(v, max_file_size, header_len, ops);
}

/// What was placed and is not in its file is in memory, unchanged.
pub proof fn unwritten_records_are_held(
    v: PoolView,
    max_file_size: u64,
    header_len: u64,
    ops: Seq<FileOp>,
)
    requires
        v.wf(),
        v.ring.essential <= v.ring.next,
        all_allowed(begun(v, max_file_size, header_len), ops),
    ensures
        log_is_held(course(begun(v, max_file_size, header_len), ops)),
{
    lemma_course_filed(v, max_file_size, header_len, ops);
}

/// After any such course, the next flush of a file writes exactly the records
/// that were placed for it, from where the pages are written up to, to the last
/// that was handed over, in the order of their ids.
pub proof fn next_flush_writes_what_is_owed(
    v: PoolView,
    max_file_size: u64,
    header_len: u64,
    ops: Seq<FileOp>,
    epoch: u64,
    runs: Seq<(PendingWrite, Seq<u8>)>,
    bound: u64,
)
    requires
        v.wf(),
        v.ring.essential <= v.ring.next,
        all_allowed(begun(v, max_file_size, header_len), ops),
        ({
            let f = course(begun(v, max_file_size, header_len), ops);
            &&& page_pool::pending_is(f.base.pool, runs, epoch)
            &&& f.base.pool.handed_through == Some(bound)
        }),
    ensures
        ({
            let f = course(begun(v, max_file_size, header_len), ops);
            flush_order::joined(runs) == wal_file::packed(
                logged(f.log, epoch, f.upto, bound + 1),
            )
        }),
{
    let f = course(begun(v, max_file_size, header_len), ops);
    lemma_course_filed(v, max_file_size, header_len, ops);
    let c = lemma_joined(f, runs, epoch, bound, runs.len() as int);
    assert(runs.take(runs.len() as int) =~= runs);
    if runs.len() > 0 {
        let w = runs[runs.len() - 1].0;
        assert(f.base.pool.run(w.page as int, epoch) == Some(w));
        pool_laws::run_is_whole_entries(f.base.pool, w.page as int, epoch);
    }
    if c <= bound + 1 {
        assert forall|t: int| 0 <= t < f.log.len() implies !is_of(
            #[trigger] f.log[t],
            epoch,
            c,
            bound + 1,
        ) by {
            if is_of(f.log[t], epoch, c, bound + 1) {
                lemma_last_is_highest(f, runs, epoch, bound, t);
            }
        }
        lemma_logged_none(f.log, epoch, c, bound + 1);
        lemma_logged_split(f.log, epoch, f.upto, c, bound + 1);
        assert(logged(f.log, epoch, f.upto, c) + Seq::<Seq<u8>>::empty() =~= logged(
            f.log,
            epoch,
            f.upto,
            c,
        ));
    } else {
        // Nothing that was handed over is owed.
        lemma_logged_none(f.log, epoch, f.upto, c);
        lemma_logged_none(f.log, epoch, f.upto, bound + 1);
    }
}

} // verus!
