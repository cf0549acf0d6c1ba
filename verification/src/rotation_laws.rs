//! When a file ends, said of its size and of the pages.

use vstd::prelude::*;
use crate::page_pool;
use crate::page_pool::{FileFill, PoolView, RotateHint};
use crate::memory_laws;
use crate::pool_history;
use crate::pool_history::{History, PoolOp};
use crate::pool_laws;
use crate::wal_entry_v1;
use crate::wal_file;

verus! {

/// Whether the page that is being filled has room for a record: for its bytes
/// and for its slot.
pub open spec fn room_for(v: PoolView, record: Seq<u8>) -> bool {
    let page = v.ring.pages[v.ring.active];
    wal_file::packed(page.records).len() + 4 * page.records.len() + wal_entry_v1::entry(
        record,
    ).len() + 4 <= v.ring.page_size
}

/// A file ends when a record opens a page and the file, which has a record, has
/// reached its maximum; whatever the maximum, and never else. The record and
/// those behind it then belong to the next file.
pub proof fn full_file_ends_with_its_page(v: PoolView, record: Seq<u8>)
    requires
        v.wf(),
        v.ring.next < u64::MAX,
        v.fill is Some,
        v.placed(v.ring.next, record).1 is Placed,
    ensures
        ({
            let before = v.fill->0;
            let (w, outcome) = v.placed(v.ring.next, record);
            let p = outcome->placement;
            let after = w.fill->0;
            let ends = !room_for(v, record) && before.has_written && before.used >= before.max;
            &&& ends ==> {
                &&& p.rotate == RotateHint::Before
                &&& before.epoch < u64::MAX ==> p.epoch == before.epoch + 1
                &&& after.used >= before.header_len
            }
            &&& !ends ==> {
                &&& p.rotate == RotateHint::NoRotation
                &&& p.epoch == before.epoch
                &&& after.used >= before.used
            }
            &&& w.fill is Some
            &&& after.epoch == p.epoch
            &&& after.has_written
            &&& after.max == before.max
            &&& after.header_len == before.header_len
            &&& !room_for(v, record) ==> w.ring.pages[w.ring.active].records.len() == 1
            &&& room_for(v, record) ==> w.ring.active == v.ring.active
        }),
{
    memory_laws::append_takes_what_fits(v, record);
}

/// A record under any id that is placed while its file has not reached its
/// maximum joins that file.
pub proof fn file_with_room_goes_on(v: PoolView, expected: u64, record: Seq<u8>)
    requires
        v.wf(),
        v.fill matches Some(f) && f.used < f.max,
        v.placed(expected, record).1 is Placed,
    ensures
        v.placed(expected, record).1->placement.rotate == RotateHint::NoRotation,
        v.placed(expected, record).1->placement.epoch == v.fill->0.epoch,
{
    pool_laws::lemma_synced(v, expected);
}

/// A pool whose writer has not begun, or has gone, decides nothing about files.
pub proof fn no_file_no_rotation(v: PoolView, expected: u64, record: Seq<u8>)
    requires
        v.wf(),
        v.fill is None,
        v.placed(expected, record).1 is Placed,
    ensures
        v.placed(expected, record).1->placement.rotate == RotateHint::NoRotation,
        v.placed(expected, record).1->placement.epoch == 0,
        v.placed(expected, record).0.fill is None,
{
    pool_laws::lemma_synced(v, expected);
}

/// A writer that begins opens a file with its header and nothing else, with the
/// maximum that it was given.
pub proof fn writer_begins_with_a_header(v: PoolView, max_file_size: u64, header_len: u64)
    ensures
        v.armed(max_file_size, header_len).fill == Some(
            FileFill {
                used: header_len,
                max: max_file_size,
                header_len,
                has_written: false,
                epoch: 0,
            },
        ),
        v.armed(max_file_size, header_len).handed_through is None,
        v.armed(max_file_size, header_len).ring == v.ring,
{
}

// ---------------------------------------------------------------------------
// How large a file gets.

/// Whether the open file has no more in it than its maximum, or its header if
/// that is larger, and the bytes of the page that is being filled.
pub open spec fn within_a_page(v: PoolView) -> bool {
    v.fill matches Some(f) && {
        let page = v.ring.pages[v.ring.active];
        &&& !f.has_written ==> f.used == f.header_len
        &&& f.used <= f.max + wal_file::packed(page.records).len() || f.used <= f.header_len
            + wal_file::packed(page.records).len()
    }
}

/// Whether an operation leaves the order of ids to the sequence: a record comes
/// under the next id, and nothing is put on a page without being charged.
pub open spec fn in_turn(v: PoolView, op: PoolOp) -> bool {
    match op {
        PoolOp::Place { expected, record } => expected == v.ring.next,
        PoolOp::Append(_) => false,
        PoolOp::Reseed(_) => false,
        _ => true,
    }
}

/// Whether every operation of a course does.
pub open spec fn all_in_turn(h: History, ops: Seq<PoolOp>) -> bool
    decreases ops.len(),
{
    ops.len() > 0 ==> {
        &&& all_in_turn(h, ops.drop_last())
        &&& in_turn(pool_history::course(h, ops.drop_last()).pool, ops.last())
    }
}

proof fn lemma_packed_push(records: Seq<Seq<u8>>, record: Seq<u8>)
    ensures
        wal_file::packed(records.push(record)).len() == wal_file::packed(records).len()
            + wal_entry_v1::entry(record).len(),
{
    assert(records.push(record) =~= records + seq![record]);
    wal_file::lemma_packed_concat(records, seq![record]);
    assert(seq![record].drop_first() =~= Seq::<Seq<u8>>::empty());
    assert(wal_file::packed(Seq::<Seq<u8>>::empty()).len() == 0);
    assert(wal_file::packed(seq![record]) =~= wal_entry_v1::entry(record) + Seq::<u8>::empty());
}

proof fn lemma_place_within(v: PoolView, record: Seq<u8>)
    requires
        v.wf(),
        v.ring.next < u64::MAX,
        within_a_page(v),
    ensures
        within_a_page(v.placed(v.ring.next, record).0),
{
    let (w, outcome) = v.placed(v.ring.next, record);
    memory_laws::append_takes_what_fits(v, record);
    if outcome is Placed {
        memory_laws::record_costs_its_entry(record);
        full_file_ends_with_its_page(v, record);
        let page = v.ring.pages[v.ring.active];
        let last = w.ring.pages[w.ring.active];
        lemma_packed_push(page.records, record);
        lemma_packed_push(Seq::empty(), record);
        assert(wal_file::packed(Seq::<Seq<u8>>::empty()).len() == 0);
        if room_for(v, record) {
            assert(last.records =~= page.records.push(record));
        } else {
            assert(last.records =~= Seq::<Seq<u8>>::empty().push(record));
        }
    }
}

proof fn lemma_step_within(v: PoolView, op: PoolOp)
    requires
        v.wf(),
        pool_history::permitted(v, op),
        in_turn(v, op),
        within_a_page(v),
    ensures
        within_a_page(pool_history::after(v, op)),
{
    match op {
        PoolOp::Place { expected, record } => {
            lemma_place_within(v, record);
        },
        PoolOp::DurableIn(id) => {
            if id > v.ring.essential {
                let risen = crate::wal_ring_v1::RingView { essential: id, ..v.ring };
                page_pool::lemma_essential_wf(v.ring, id);
                page_pool::lemma_shrunk_down(risen, v.floor);
                let w = v.durable_in(id);
                assert(w.ring.pages[w.ring.active] == v.ring.pages[v.ring.active]);
            }
        },
        _ => {},
    }
}

/// A file never has more in it than its maximum and one page, whatever the
/// maximum: since its writer began, through any course of operations in which
/// records come under consecutive ids. A header that is larger than the maximum
/// counts in its place.
pub proof fn file_exceeds_its_maximum_by_a_page_at_most(
    v: PoolView,
    max_file_size: u64,
    header_len: u64,
    ops: Seq<PoolOp>,
)
    requires
        v.wf(),
        pool_history::all_permitted(pool_history::begun(v, max_file_size, header_len), ops),
        all_in_turn(pool_history::begun(v, max_file_size, header_len), ops),
    ensures
        ({
            let w = pool_history::course(
                pool_history::begun(v, max_file_size, header_len),
                ops,
            ).pool;
            &&& w.fill matches Some(f) && f.max == max_file_size && f.header_len == header_len
            &&& w.fill->0.used <= max_file_size + w.ring.page_size || w.fill->0.used <= header_len
                + w.ring.page_size
        }),
{
    lemma_course_within(v, max_file_size, header_len, ops);
    let w = pool_history::course(pool_history::begun(v, max_file_size, header_len), ops).pool;
    assert(w.ring.pages[w.ring.active].wf(w.ring.page_size));
}

proof fn lemma_course_within(
    v: PoolView,
    max_file_size: u64,
    header_len: u64,
    ops: Seq<PoolOp>,
)
    requires
        v.wf(),
        pool_history::all_permitted(pool_history::begun(v, max_file_size, header_len), ops),
        all_in_turn(pool_history::begun(v, max_file_size, header_len), ops),
    ensures
        ({
            let w = pool_history::course(
                pool_history::begun(v, max_file_size, header_len),
                ops,
            ).pool;
            &&& w.wf()
            &&& within_a_page(w)
            &&& w.fill->0.max == max_file_size
            &&& w.fill->0.header_len == header_len
        }),
    decreases ops.len(),
{
    let h = pool_history::begun(v, max_file_size, header_len);
    if ops.len() == 0 {
        pool_history::lemma_course_sound(v, max_file_size, header_len, ops);
    } else {
        lemma_course_within(v, max_file_size, header_len, ops.drop_last());
        let u = pool_history::course(h, ops.drop_last()).pool;
        pool_history::operations_keep_a_pool_sound(u, ops.last());
        lemma_step_within(u, ops.last());
        if let PoolOp::Place { expected, record } = ops.last() {
            if u.placed(expected, record).1 is Placed {
                full_file_ends_with_its_page(u, record);
            } else {
                pool_laws::unplaced_record_is_not_charged(u, expected, record);
            }
        }
    }
}

} // verus!
