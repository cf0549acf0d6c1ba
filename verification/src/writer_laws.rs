//! What a writer does with entries, said of the entries and of the files.

use vstd::prelude::*;
use vstd::seq_lib::{lemma_multiset_commutative, to_multiset_build, to_multiset_remove};
use crate::ack_file_writer::TailView;
use crate::page_pool::{Placement, RotateHint};
use crate::uintn;
use crate::varint;
use crate::wal_entry_v1;
use crate::wal_header;
use crate::wal_header::HeaderView;
use crate::writer;
use crate::writer::{Feed, RunError, RunView, WriterView};
use crate::writer_buffer;
use crate::writer_buffer::{BufferView, EntryView};

verus! {

// ---------------------------------------------------------------------------
// Order.

proof fn lemma_no_entries()
    ensures
        Seq::<EntryView>::empty().to_multiset() == vstd::multiset::Multiset::<EntryView>::empty(),
{
    broadcast use vstd::multiset::group_multiset_axioms;

    Seq::<EntryView>::empty().to_multiset_ensures();
    assert(Seq::<EntryView>::empty().to_multiset()
        =~= vstd::multiset::Multiset::<EntryView>::empty());
}

proof fn lemma_release_multiset(v: BufferView)
    ensures
        v.release().1.to_multiset().add(v.release().0.pending.to_multiset())
            == v.pending.to_multiset(),
    decreases v.pending.len(),
{
    broadcast use vstd::multiset::group_multiset_axioms;

    let (after, ready) = v.release();
    if exists|i: int| writer_buffer::is_first(v.pending, v.next, i) {
        let i = choose|i: int| writer_buffer::is_first(v.pending, v.next, i);
        let e = v.pending[i];
        let w = BufferView { next: v.next + 1, pending: v.pending.remove(i) };
        lemma_release_multiset(w);
        let wr = w.release().1;
        to_multiset_remove(v.pending, i);
        lemma_multiset_commutative(seq![e], wr);
        to_multiset_build(Seq::<EntryView>::empty(), e);
        assert(Seq::<EntryView>::empty().push(e) =~= seq![e]);
        lemma_no_entries();
        v.pending.to_multiset_ensures();
        assert(v.pending.contains(e));
        assert(v.pending.to_multiset().count(e) > 0);
        assert(ready == seq![e] + wr);
        assert(after == w.release().0);
        let one = seq![e].to_multiset();
        assert(one == vstd::multiset::Multiset::<EntryView>::empty().insert(e));
        assert forall|x: EntryView| #[trigger] ready.to_multiset().add(
            after.pending.to_multiset(),
        ).count(x) == v.pending.to_multiset().count(x) by {
            assert(ready.to_multiset() == one.add(wr.to_multiset()));
            assert(w.pending.to_multiset().count(x) == wr.to_multiset().count(x)
                + after.pending.to_multiset().count(x));
        }
        assert(ready.to_multiset().add(after.pending.to_multiset())
            =~= v.pending.to_multiset());
    } else {
        lemma_no_entries();
        assert(ready.to_multiset().add(after.pending.to_multiset())
            =~= v.pending.to_multiset());
    }
}

/// What becomes ready and what still waits are, taken together, what waited
/// before and what arrived: none is lost, doubled or made up.
pub proof fn entries_are_neither_lost_nor_doubled(v: BufferView, es: Seq<EntryView>)
    ensures
        ({
            let (after, ready) = v.arrive_all(es);
            (ready + after.pending).to_multiset() == (v.pending + es).to_multiset()
        }),
    decreases es.len(),
{
    broadcast use vstd::multiset::group_multiset_axioms;

    let (after, ready) = v.arrive_all(es);
    lemma_multiset_commutative(ready, after.pending);
    lemma_multiset_commutative(v.pending, es);
    if es.len() == 0 {
        lemma_no_entries();
        assert(es =~= Seq::<EntryView>::empty());
        assert((ready + after.pending) =~= (v.pending + es));
    } else {
        let front = es.drop_last();
        entries_are_neither_lost_nor_doubled(v, front);
        let (before, first) = v.arrive_all(front);
        let w = BufferView { pending: before.pending.push(es.last()), ..before };
        lemma_release_multiset(w);
        let more = w.release().1;
        lemma_multiset_commutative(first, more);
        lemma_multiset_commutative(first, before.pending);
        lemma_multiset_commutative(v.pending, front);
        to_multiset_build(before.pending, es.last());
        to_multiset_build(front, es.last());
        assert(front.push(es.last()) =~= es);
        assert(ready == first + more);
        assert(after == w.release().0);
        assert forall|x: EntryView| #[trigger] (ready + after.pending).to_multiset().count(x) == (
        v.pending + es).to_multiset().count(x) by {
            assert(w.pending.to_multiset().count(x) == more.to_multiset().count(x)
                + after.pending.to_multiset().count(x));
            assert((first + before.pending).to_multiset().count(x) == first.to_multiset().count(x)
                + before.pending.to_multiset().count(x));
            assert((v.pending + front).to_multiset().count(x) == v.pending.to_multiset().count(x)
                + front.to_multiset().count(x));
            assert((first + more).to_multiset().count(x) == first.to_multiset().count(x)
                + more.to_multiset().count(x));
        }
        assert((ready + after.pending).to_multiset() =~= (v.pending + es).to_multiset());
    }
}

/// Of two entries with the same id the one that came first goes on first.
pub proof fn first_comer_goes_on(v: BufferView, e: EntryView, j: int, i: int)
    requires
        0 <= j < v.arrive(e).1.len(),
        0 <= i < v.pending.push(e).len(),
        v.pending.push(e)[i].id == v.arrive(e).1[j].id,
        forall|k: int|
            0 <= k < i ==> (#[trigger] v.pending.push(e)[k]).id != v.pending.push(e)[i].id,
    ensures
        v.arrive(e).1[j] == v.pending.push(e)[i],
{
    lemma_first_released(BufferView { pending: v.pending.push(e), ..v }, j, i);
}

proof fn lemma_first_released(v: BufferView, j: int, i: int)
    requires
        0 <= j < v.release().1.len(),
        writer_buffer::is_first(v.pending, v.release().1[j].id, i),
    ensures
        v.release().1[j] == v.pending[i],
    decreases v.pending.len(),
{
    let ready = v.release().1;
    writer_buffer::lemma_release(v);
    let n = choose|n: int| writer_buffer::is_first(v.pending, v.next, n);
    let w = BufferView { next: v.next + 1, pending: v.pending.remove(n) };
    let id = ready[j].id;
    assert(id == v.next + j);
    if j == 0 {
        if i < n {
            assert(v.pending[i].id != v.next);
        } else if n < i {
            assert(v.pending[n].id != id);
        }
    } else {
        let wr = w.release().1;
        assert(ready[j] == wr[j - 1]);
        assert(n != i);
        let k = if i < n {
            i
        } else {
            i - 1
        };
        assert(w.pending[k] == v.pending[i]);
        assert forall|m: int| 0 <= m < k implies (#[trigger] w.pending[m]).id != id by {
            if m < n {
                assert(w.pending[m] == v.pending[m]);
            } else {
                assert(w.pending[m] == v.pending[m + 1]);
            }
        }
        assert(writer_buffer::is_first(w.pending, id, k));
        lemma_first_released(w, j - 1, k);
    }
}

// ---------------------------------------------------------------------------
// What travels.

/// An entry travels under its id and with what was decided about it. Its record
/// travels too, unless a page holds it.
pub proof fn entry_travels_whole(e: EntryView)
    ensures
        writer::stripped(e).id == e.id,
        writer::stripped(e).placement == e.placement,
        !e.placement.in_pool ==> writer::stripped(e).data == e.data,
        e.placement.in_pool ==> writer::stripped(e).data.len() == 0,
        writer::record_len(writer::stripped(e)) == writer::record_len(e),
        !e.placement.in_pool ==> writer::record_len(e) == e.data.len(),
        e.placement.in_pool ==> writer::record_len(e) == e.placement.record_len,
{
}

// ---------------------------------------------------------------------------
// Files.

/// What was decided about a record when it was accepted is done. Where nothing
/// was, a new file begins if and only if the open one has an entry and would be
/// larger than its maximum with this one.
pub proof fn new_file_begins_only_when_needed(
    w: WriterView,
    file: TailView,
    max_file_size: u64,
    e: EntryView,
)
    requires
        e.data.len() <= u32::MAX,
        file.pooled == w.pooled,
    ensures
        e.placement.rotate == RotateHint::Before ==> w.rotates(file, max_file_size, e),
        e.placement.rotate == RotateHint::NoRotation ==> !w.rotates(file, max_file_size, e),
        e.placement.rotate == RotateHint::WriterDecides && !e.placement.in_pool ==> (w.rotates(
            file,
            max_file_size,
            e,
        ) <==> w.has_written && file.took(
            w.queue,
            e.id,
            wal_entry_v1::entry(e.data),
            false,
        ).current_size > max_file_size),
        e.placement.rotate == RotateHint::WriterDecides && e.placement.in_pool ==> (w.rotates(
            file,
            max_file_size,
            e,
        ) <==> w.has_written && file.current_size + varint::varint(
            e.placement.record_len as nat,
        ).len() + e.placement.record_len + 4 > max_file_size),
{
    wal_entry_v1::lemma_entry_len(e.data);
}

/// A file that begins is the one behind the last. It says how many entries come
/// before it: as many as the id of its first entry. It has none yet, and what
/// the writer knows beside the file stays.
pub proof fn next_file_follows_the_last(w: WriterView, next_entry_id: nat, next_data_size: nat)
    ensures
        ({
            let x = w.rotated(next_entry_id, next_data_size);
            &&& x.file_id == w.file_id + 1
            &&& x.file_epoch == w.file_epoch + 1
            &&& x.header.num_entries_before == next_entry_id
            &&& x.header.data_size_bytes >= w.header.data_size_bytes
            &&& x.header.id_size_bytes >= w.header.id_size_bytes
            &&& !x.has_written
            &&& x.entry_index == 0
            &&& x.queue == w.queue
            &&& x.order == w.order
            &&& x.pooled == w.pooled
            &&& x.abandoned == w.abandoned
        }),
{
}

/// An entry that was handed over counts once.
pub proof fn handed_entry_counts_once(w: WriterView)
    ensures
        w.counted().entry_index == w.entry_index + 1,
        w.counted().has_written,
        w.counted().file_id == w.file_id,
        w.counted().header == w.header,
        w.counted().file_epoch == w.file_epoch,
        w.counted().order == w.order,
        w.counted().queue == w.queue,
{
}

/// The widths of a file's fields grow only as far as they must: one that is
/// wide enough stays, and one that grows is the narrowest that is.
pub proof fn widths_grow_only_as_needed(h: HeaderView, next_entry_id: nat, next_data_size: nat)
    requires
        h.valid(),
    ensures
        ({
            let r = wal_header::resized(h, next_entry_id, next_data_size);
            &&& next_entry_id < uintn::radix(h.id_size_bytes as nat) ==> r.id_size_bytes
                == h.id_size_bytes
            &&& next_data_size < uintn::radix(h.data_size_bytes as nat) ==> r.data_size_bytes
                == h.data_size_bytes
            &&& r.id_size_bytes != h.id_size_bytes ==> next_entry_id >= uintn::radix(
                (r.id_size_bytes / 2) as nat,
            )
            &&& r.data_size_bytes != h.data_size_bytes ==> next_data_size >= uintn::radix(
                (r.data_size_bytes / 2) as nat,
            )
        }),
{
    uintn::lemma_radix_monotone(1, h.id_size_bytes as nat);
    uintn::lemma_radix_monotone(1, h.data_size_bytes as nat);
    lemma_width(h.id_size_bytes, next_entry_id);
    lemma_width(h.data_size_bytes, next_data_size);
}

proof fn lemma_width(w: u64, v: nat)
    requires
        uintn::valid_data_size(w),
    ensures
        v < uintn::radix(w as nat) ==> uintn::field_width(v) <= w,
        uintn::field_width(v) > 1 ==> v >= uintn::radix((uintn::field_width(v) / 2) as nat),
{
    uintn::lemma_radix_monotone(1, 2);
    uintn::lemma_radix_monotone(2, 4);
    uintn::lemma_radix_monotone(4, 8);
    uintn::lemma_radix_monotone(8, 16);
}

/// The pool and the writer are found to disagree whenever they count files
/// differently: a record that begins a file must belong to the one behind the
/// open file, and any other to the open file itself.
pub proof fn disagreement_is_noticed(w: WriterView, p: Placement)
    ensures
        p.rotate == RotateHint::Before ==> (w.agrees(p) <==> p.epoch == w.file_epoch + 1),
        p.rotate == RotateHint::NoRotation ==> (w.agrees(p) <==> p.epoch == w.file_epoch),
        p.rotate == RotateHint::WriterDecides ==> w.agrees(p),
{
}

// ---------------------------------------------------------------------------
// Runs of entries.

/// What happens to the first entry of a run. Nothing, once there was an error;
/// an error, if it is too large for an entry; a new file, once, if it needs
/// one; and else it is handed to the file.
pub proof fn first_entry_of_a_run_moves_on(
    r: RunView,
    w: WriterView,
    file: TailView,
    max_file_size: u64,
)
    requires
        r.entries.len() > 0,
        r.entries[0].data.len() <= usize::MAX,
    ensures
        ({
            let e = r.entries[0];
            let len = writer::record_len(e);
            let feed = r.feed(w, file, max_file_size);
            &&& r.error is Some <==> feed is Finished
            &&& r.error is None && len > u32::MAX ==> feed == Feed::Failed(
                RunError::TooLarge(len as usize),
            )
            &&& feed is Rotate ==> !r.rotated && w.rotates(file, max_file_size, e)
            &&& r.error is None && len <= u32::MAX && !r.rotated && w.rotates(
                file,
                max_file_size,
                e,
            ) ==> feed is Rotate
            &&& r.error is None && len <= u32::MAX && e.data.len() <= u32::MAX && (r.rotated
                || !w.rotates(file, max_file_size, e)) ==> feed is Handed
        }),
{
}

/// A run without entries is finished.
pub proof fn empty_run_is_finished(
    r: RunView,
    w: WriterView,
    file: TailView,
    max_file_size: u64,
)
    requires
        r.entries.len() == 0,
    ensures
        r.feed(w, file, max_file_size) is Finished,
{
}

/// Handing over the first entry of a run leaves the others, in order, and the
/// mark at the highest id that was handed over.
pub proof fn handing_over_takes_one_entry(r: RunView)
    requires
        r.entries.len() > 0,
        r.entries[0].id <= u64::MAX,
    ensures
        r.handed().entries.len() == r.entries.len() - 1,
        forall|i: int|
            0 < i < r.entries.len() ==> r.handed().entries[i - 1] == #[trigger] r.entries[i],
        !r.handed().rotated,
        r.handed().error == r.error,
        r.handed().mark is Some && r.handed().mark->0 >= r.entries[0].id,
        r.mark is Some ==> r.handed().mark->0 >= r.mark->0,
        r.handed().mark->0 == r.entries[0].id || r.handed().mark == r.mark,
{
}

/// A file has room for an entry if its bytes, with the most that framing can
/// put round a record, can be counted and allocated.
pub proof fn entry_finds_room(file: TailView, e: EntryView)
    ensures
        writer::has_room(file, e) <==> {
            &&& file.flight().len() + file.buffer.len() + e.data.len() + 9 <= isize::MAX
            &&& file.current_size + e.data.len() + 9 <= u64::MAX
            &&& file.acks.len() + 1 <= usize::MAX
        },
        e.data.len() <= u32::MAX ==> wal_entry_v1::entry(e.data).len() <= e.data.len() + 9,
{
    if e.data.len() <= u32::MAX {
        wal_entry_v1::lemma_entry_len(e.data);
    }
}

} // verus!
