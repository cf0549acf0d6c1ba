//! What reading a log file gives, said of the ids that were asked for and of
//! the entries that the file holds.

use vstd::prelude::*;
use vstd::arithmetic::div_mod::{lemma_fundamental_div_mod, lemma_mod_multiples_basic};
use crate::reader;
use crate::reader::{Query, RangeOutcome, WalErrorView};
use crate::types::{CompressionType, EncryptionType};
use crate::uintn;
use crate::wal_entry_v1;
use crate::wal_file;
use crate::wal_header;
use crate::wal_header::HeaderView;
use crate::wal_header_v1;
use crate::wal_header_v1::{AnyHeaderView, AnyWalHeaderError, WalHeaderV1};
use crate::wal_store;

verus! {

/// The id that is `k` steps behind `from`.
pub open spec fn steps_on(from: nat, step: nat, k: nat) -> nat {
    from + k * step
}

/// Whether an id is a whole number of steps behind `from`.
pub open spec fn on_step(from: nat, step: nat, id: nat) -> bool {
    exists|k: nat| id == #[trigger] steps_on(from, step, k)
}

/// The step of a read that was given `step`: none is a step of one.
pub open spec fn stride(step: usize) -> nat {
    if step == 0 {
        1
    } else {
        step as nat
    }
}

proof fn lemma_wanted(id: nat, from: nat, step: nat)
    requires
        step > 0,
    ensures
        reader::wanted(id, from, step) <==> on_step(from, step, id),
{
    if reader::wanted(id, from, step) {
        let d = (id - from) as int;
        lemma_fundamental_div_mod(d, step as int);
        let k = d / (step as int);
        assert(k >= 0) by (nonlinear_arith)
            requires
                k == d / (step as int),
                d >= 0,
                step > 0,
        ;
        assert(k * (step as int) == (step as int) * k) by (nonlinear_arith);
        assert(id == steps_on(from, step, k as nat));
    }
    if on_step(from, step, id) {
        let k = choose|k: nat| id == #[trigger] steps_on(from, step, k);
        lemma_mod_multiples_basic(k as int, step as int);
        assert(k * step >= 0) by (nonlinear_arith)
            requires
                k >= 0,
                step >= 0,
        ;
    }
}

/// A range read hands out an entry if and only if the file has it, its id is
/// a whole number of steps behind the first id that was asked for, and it is
/// not behind the last one. The entries come in the order of their ids, and no
/// step is too long for it.
pub proof fn range_read_takes_every_step(
    content: Seq<u8>,
    h: AnyHeaderView,
    n: nat,
    from: nat,
    until: Option<nat>,
    step: usize,
    header_required: bool,
)
    requires
        wal_header_v1::parse_any(content) == Ok::<(AnyHeaderView, nat), AnyWalHeaderError>((h, n)),
        wal_file::ascending(reader::entries(content, h, n, 0)),
    ensures
        ({
            let s = reader::entries(content, h, n, 0);
            let q = reader::query(from, until, step);
            reader::range_of(content, q, header_required) matches Ok((d, _)) && {
                &&& forall|j: int|
                    0 <= j < d.len() ==> {
                        &&& s.contains(#[trigger] d[j])
                        &&& on_step(from, stride(step), d[j].0)
                        &&& until matches Some(u) ==> d[j].0 <= u
                    }
                &&& forall|i: int|
                    0 <= i < s.len() && on_step(from, stride(step), (#[trigger] s[i]).0) && (
                    until matches Some(u) ==> s[i].0 <= u) ==> d.contains(s[i])
                &&& wal_file::ascending(d)
            }
        }),
{
    let s = reader::entries(content, h, n, 0);
    let q = reader::query(from, until, step);
    wal_header_v1::lemma_parse_any_bounds(content);
    wal_file::range_read_selects(content, h, n, q);
    let d = reader::walk(content, h, n, 0, q, None, None).delivered;
    assert(reader::range_of(content, q, header_required)->Ok_0.0 == d);
    assert forall|j: int| 0 <= j < d.len() implies {
        &&& s.contains(#[trigger] d[j])
        &&& on_step(from, stride(step), d[j].0)
        &&& until matches Some(u) ==> d[j].0 <= u
    } by {
        wal_file::lemma_pick_only(s, q, j);
        lemma_wanted(d[j].0, from, stride(step));
    }
    assert forall|i: int|
        0 <= i < s.len() && on_step(from, stride(step), (#[trigger] s[i]).0) && (
        until matches Some(u) ==> s[i].0 <= u) implies d.contains(s[i]) by {
        lemma_wanted(s[i].0, from, stride(step));
        wal_file::lemma_pick_has(s, q, i);
    }
    wal_file::lemma_pick_ascends(s, q);
}

/// What a range read reports. It is complete if and only if the file has an id
/// at or behind the last one asked for, and the entry that could not be read,
/// if there is one, is not one of those asked for. If it is not, the report
/// names the last id that was handed out and the highest id in the file.
pub proof fn range_read_reports_how_far_it_got(
    content: Seq<u8>,
    h: AnyHeaderView,
    n: nat,
    from: nat,
    until: Option<nat>,
    step: usize,
    header_required: bool,
)
    requires
        wal_header_v1::parse_any(content) == Ok::<(AnyHeaderView, nat), AnyWalHeaderError>((h, n)),
        wal_file::in_order(
            reader::entries(content, h, n, 0),
            reader::unread(content, h, n, 0),
        ),
    ensures
        ({
            let s = reader::entries(content, h, n, 0);
            let unread = reader::unread(content, h, n, 0);
            let highest = if unread is Some {
                unread
            } else if s.len() > 0 {
                Some(s[s.len() - 1].0)
            } else {
                None
            };
            let q = reader::query(from, until, step);
            reader::range_of(content, q, header_required) matches Ok((d, o)) && match o {
                RangeOutcome::Complete => {
                    &&& until is Some && highest is Some && highest->0 >= until->0
                    &&& unread is Some && on_step(from, stride(step), unread->0) ==> unread->0
                        > until->0
                },
                RangeOutcome::Partial { last_read, last_in_file } => {
                    &&& until is None || highest is None || highest->0 < until->0 || (unread is Some
                        && on_step(from, stride(step), unread->0) && unread->0 <= until->0)
                    &&& d.len() == 0 ==> last_read is None
                    &&& d.len() > 0 ==> last_read == Some(d[d.len() - 1].0)
                    &&& highest is None ==> last_in_file == from
                    &&& highest is Some ==> last_in_file == highest->0
                },
            }
        }),
{
    let s = reader::entries(content, h, n, 0);
    let unread = reader::unread(content, h, n, 0);
    let q = reader::query(from, until, step);
    wal_header_v1::lemma_parse_any_bounds(content);
    wal_file::lemma_walk(content, h, n, 0, q, None, None);
    if let Some(id) = unread {
        lemma_wanted(id, from, stride(step));
    }
}

/// A range read of a written file hands out a record under an id if and only
/// if that is the record's place in the file, counted on from the entries
/// before it, and the id was asked for.
pub proof fn written_record_is_read_by_its_place(
    h: WalHeaderV1,
    records: Seq<Seq<u8>>,
    tail: Seq<u8>,
    from: nat,
    until: Option<nat>,
    step: usize,
    header_required: bool,
)
    requires
        wal_header_v1::width_error(h) is None,
        wal_file::writable(records),
        wal_file::ids_fit(h, records.len()),
        wal_entry_v1::parse(tail) is Err,
    ensures
        ({
            let content = wal_header_v1::header_bytes(h) + wal_file::packed(records) + tail;
            let q = reader::query(from, until, step);
            reader::range_of(content, q, header_required) matches Ok((d, _)) && {
                &&& forall|i: int|
                    0 <= i < records.len() && on_step(
                        from,
                        stride(step),
                        (h.num_entries_before + i) as nat,
                    ) && (until matches Some(u) ==> h.num_entries_before + i <= u) ==> d.contains(
                        ((h.num_entries_before + i) as nat, #[trigger] records[i]),
                    )
                &&& forall|j: int|
                    0 <= j < d.len() ==> {
                        &&& h.num_entries_before <= (#[trigger] d[j]).0 < h.num_entries_before
                            + records.len()
                        &&& d[j].1 == records[d[j].0 - h.num_entries_before]
                        &&& on_step(from, stride(step), d[j].0)
                        &&& until matches Some(u) ==> d[j].0 <= u
                    }
            }
        }),
{
    let content = wal_header_v1::header_bytes(h) + wal_file::packed(records) + tail;
    let q = reader::query(from, until, step);
    let n = wal_header_v1::header_bytes(h).len();
    wal_file::written_file_reads_back(h, records, tail);
    let s = wal_file::numbered(h.num_entries_before as nat, records);
    range_read_takes_every_step(
        content,
        wal_file::v1_view(h),
        n,
        from,
        until,
        step,
        header_required,
    );
    let d = reader::range_of(content, q, header_required)->Ok_0.0;
    assert forall|i: int|
        0 <= i < records.len() && on_step(
            from,
            stride(step),
            (h.num_entries_before + i) as nat,
        ) && (until matches Some(u) ==> h.num_entries_before + i <= u) implies d.contains(
        ((h.num_entries_before + i) as nat, #[trigger] records[i]),
    ) by {
        assert(d.contains(s[i]));
    }
    assert forall|j: int| 0 <= j < d.len() implies {
        &&& h.num_entries_before <= (#[trigger] d[j]).0 < h.num_entries_before + records.len()
        &&& d[j].1 == records[d[j].0 - h.num_entries_before]
    } by {
        assert(s.contains(d[j]));
        let i = choose|i: int| 0 <= i < s.len() && #[trigger] s[i] == d[j];
    }
}

// ---------------------------------------------------------------------------
// Where a file ends.

/// The end of a written file is the id of its last record, whatever unreadable
/// bytes follow, and a file without records has none.
pub proof fn written_file_ends_at_its_last_record(
    h: WalHeaderV1,
    records: Seq<Seq<u8>>,
    tail: Seq<u8>,
    file_id: nat,
)
    requires
        wal_header_v1::width_error(h) is None,
        wal_file::writable(records),
        wal_file::ids_fit(h, records.len()),
        wal_entry_v1::parse(tail) is Err,
    ensures
        ({
            let content = wal_header_v1::header_bytes(h) + wal_file::packed(records) + tail;
            let end = wal_store::end_of(Some(content), file_id);
            &&& records.len() > 0 ==> end == Ok::<Option<nat>, WalErrorView>(
                Some((h.num_entries_before + records.len() - 1) as nat),
            )
            &&& records.len() == 0 ==> end == Ok::<Option<nat>, WalErrorView>(None)
        }),
{
    wal_file::written_file_reads_back(h, records, tail);
    wal_header_v1::header_size_bounds(h);
}

/// The end of a file of the first format is the id that its last whole entry
/// carries.
pub proof fn old_file_ends_at_its_last_entry(
    h: HeaderView,
    es: Seq<(nat, Seq<u8>)>,
    tail: Seq<u8>,
    file_id: nat,
)
    requires
        h.valid(),
        h.num_entries_before < uintn::radix(16),
        wal_file::old_writable(es, h),
        wal_file::unreadable(tail, h),
    ensures
        ({
            let content = wal_header::header_bytes(h) + wal_file::old_packed(es, h) + tail;
            let end = wal_store::end_of(Some(content), file_id);
            &&& es.len() > 0 ==> end == Ok::<Option<nat>, WalErrorView>(Some(es[es.len() - 1].0))
            &&& es.len() == 0 ==> end == Ok::<Option<nat>, WalErrorView>(None)
        }),
{
    wal_file::old_file_reads_back(h, es, tail);
    wal_header_v1::lemma_parse_any_bounds(
        wal_header::header_bytes(h) + wal_file::old_packed(es, h) + tail,
    );
}

/// In a file whose ids increase, the end is the id of an entry that can be
/// read, and no such entry has a higher one. There is none only if no entry
/// can be read.
pub proof fn file_end_is_the_highest_id(
    content: Seq<u8>,
    h: AnyHeaderView,
    n: nat,
    file_id: nat,
)
    requires
        wal_header_v1::parse_any(content) == Ok::<(AnyHeaderView, nat), AnyWalHeaderError>((h, n)),
        wal_file::ascending(reader::entries(content, h, n, 0)),
    ensures
        ({
            let s = reader::entries(content, h, n, 0);
            wal_store::end_of(Some(content), file_id) matches Ok(end) && match end {
                Some(last) => {
                    &&& exists|i: int| 0 <= i < s.len() && (#[trigger] s[i]).0 == last
                    &&& forall|i: int| 0 <= i < s.len() ==> (#[trigger] s[i]).0 <= last
                },
                None => s.len() == 0,
            }
        }),
{
    let s = reader::entries(content, h, n, 0);
    wal_header_v1::lemma_parse_any_bounds(content);
    if s.len() > 0 {
        assert(s[s.len() - 1] == s.last());
        assert forall|i: int| 0 <= i < s.len() implies (#[trigger] s[i]).0 <= s.last().0 by {
            if i < s.len() - 1 {
                assert(s[i].0 < s[s.len() - 1].0);
            }
        }
    }
}

/// A file that is missing, empty or cut within its header has no end; one
/// whose header is wrong is an error that says what is wrong with it.
pub proof fn file_without_a_header_has_no_end(content: Seq<u8>, file_id: nat)
    requires
        content.len() == 0 || wal_header_v1::parse_any(content) is Err,
    ensures
        wal_store::end_of(None, file_id) == Ok::<Option<nat>, WalErrorView>(None),
        content.len() == 0 || wal_header_v1::is_incomplete(
            wal_header_v1::parse_any(content)->Err_0,
        ) ==> wal_store::end_of(Some(content), file_id) == Ok::<Option<nat>, WalErrorView>(None),
        content.len() > 0 && !wal_header_v1::is_incomplete(
            wal_header_v1::parse_any(content)->Err_0,
        ) ==> wal_store::end_of(Some(content), file_id) == Err::<Option<nat>, WalErrorView>(
            WalErrorView::Header(wal_header_v1::parse_any(content)->Err_0),
        ),
{
}

/// The first and the last id of a written file are those of its first and its
/// last record.
pub proof fn written_file_has_the_ids_of_its_records(
    h: WalHeaderV1,
    records: Seq<Seq<u8>>,
    tail: Seq<u8>,
)
    requires
        wal_header_v1::width_error(h) is None,
        wal_file::writable(records),
        wal_file::ids_fit(h, records.len()),
        wal_entry_v1::parse(tail) is Err,
    ensures
        ({
            let content = wal_header_v1::header_bytes(h) + wal_file::packed(records) + tail;
            let n = wal_header_v1::header_bytes(h).len();
            let found = reader::ends(reader::entries(content, wal_file::v1_view(h), n, 0));
            &&& records.len() == 0 <==> found is None
            &&& found matches Some((a, b)) ==> a == h.num_entries_before && b - a + 1
                == records.len()
        }),
{
    wal_file::written_file_reads_back(h, records, tail);
}

/// The header of a written file is found in its first bytes, whatever follows.
pub proof fn written_header_is_found(h: WalHeaderV1, rest: Seq<u8>, file_id: nat)
    requires
        wal_header_v1::width_error(h) is None,
    ensures
        ({
            let content = wal_header_v1::header_bytes(h) + rest;
            wal_store::head_outcome(content, file_id) matches Ok(found) && {
                &&& found.data_size_bytes == h.data_size_bytes
                &&& found.id_size_bytes == h.id_size_bytes
                &&& found.num_entries_before == h.num_entries_before
            }
        }),
{
    let front = wal_header_v1::header_bytes(h);
    let content = front + rest;
    wal_header_v1::header_size_bounds(h);
    let n = if content.len() < 128 {
        content.len() as int
    } else {
        128
    };
    let cut = content.take(n);
    assert(cut =~= front + cut.skip(front.len() as int));
    wal_header_v1::header_roundtrip(h, cut.skip(front.len() as int));
}

/// The header of a file of the first format is found in its first bytes,
/// whatever follows.
pub proof fn old_header_is_found(h: HeaderView, rest: Seq<u8>, file_id: nat)
    requires
        h.valid(),
        h.num_entries_before < uintn::radix(16),
    ensures
        ({
            let content = wal_header::header_bytes(h) + rest;
            wal_store::head_outcome(content, file_id) == Ok::<HeaderView, WalErrorView>(h)
        }),
{
    let front = wal_header::header_bytes(h);
    let content = front + rest;
    wal_header::header_roundtrip(h, rest);
    wal_header_v1::lemma_parse_any_bounds(content);
    let n = if content.len() < 128 {
        content.len() as int
    } else {
        128
    };
    let cut = content.take(n);
    assert(cut =~= front + cut.skip(front.len() as int));
    wal_header::header_roundtrip(h, cut.skip(front.len() as int));
}

// ---------------------------------------------------------------------------
// Files that are left behind.

proof fn lemma_older_step(
    queue: Seq<char>,
    ids: Seq<nat>,
    current: nat,
    c: CompressionType,
    e: EncryptionType,
)
    requires
        ids.len() > 0,
    ensures
        ({
            let before = wal_store::older(queue, ids.drop_last(), current, c, e);
            let out = wal_store::older(queue, ids, current, c, e);
            &&& ids[ids.len() - 1] >= current ==> out == before
            &&& ids[ids.len() - 1] < current ==> {
                &&& out.len() == before.len() + 1
                &&& forall|j: int| 0 <= j < before.len() ==> #[trigger] out[j] == before[j]
                &&& out[before.len() as int].file_id == ids[ids.len() - 1]
                &&& out[before.len() as int].queue == queue
                &&& out[before.len() as int].compression_type == c
                &&& out[before.len() as int].encryption_type == e
            }
        }),
{
}

/// The files that were left behind are all those with an id below the current
/// one.
pub proof fn every_older_file_is_found(
    queue: Seq<char>,
    ids: Seq<nat>,
    current: nat,
    compression_type: CompressionType,
    encryption_type: EncryptionType,
    i: int,
) -> (j: int)
    requires
        0 <= i < ids.len(),
        ids[i] < current,
    ensures
        ({
            let out = wal_store::older(queue, ids, current, compression_type, encryption_type);
            0 <= j < out.len() && out[j].file_id == ids[i]
        }),
    decreases ids.len(),
{
    let front = ids.drop_last();
    lemma_older_step(queue, ids, current, compression_type, encryption_type);
    if i < front.len() {
        every_older_file_is_found(queue, front, current, compression_type, encryption_type, i)
    } else {
        wal_store::older(queue, front, current, compression_type, encryption_type).len() as int
    }
}

/// A file is left behind only if its id is below the current one and there is
/// such a file. It keeps its queue, and how it is to be archived.
pub proof fn only_older_files_are_found(
    queue: Seq<char>,
    ids: Seq<nat>,
    current: nat,
    compression_type: CompressionType,
    encryption_type: EncryptionType,
    j: int,
) -> (i: int)
    requires
        0 <= j < wal_store::older(queue, ids, current, compression_type, encryption_type).len(),
    ensures
        ({
            let f = wal_store::older(queue, ids, current, compression_type, encryption_type)[j];
            &&& 0 <= i < ids.len() && f.file_id == ids[i]
            &&& f.file_id < current
            &&& f.queue == queue
            &&& f.compression_type == compression_type
            &&& f.encryption_type == encryption_type
        }),
    decreases ids.len(),
{
    if ids.len() == 0 {
        0
    } else {
        let front = ids.drop_last();
        lemma_older_step(queue, ids, current, compression_type, encryption_type);
        if j < wal_store::older(queue, front, current, compression_type, encryption_type).len() {
            only_older_files_are_found(
                queue,
                front,
                current,
                compression_type,
                encryption_type,
                j,
            )
        } else {
            ids.len() - 1
        }
    }
}

/// Files that are found in the order of their ids are left behind in that
/// order, each of them once.
pub proof fn older_files_keep_their_order(
    queue: Seq<char>,
    ids: Seq<nat>,
    current: nat,
    compression_type: CompressionType,
    encryption_type: EncryptionType,
    a: int,
    b: int,
)
    requires
        forall|i: int, j: int|
            0 <= i < j < ids.len() ==> #[trigger] ids[i] < #[trigger] ids[j],
        0 <= a < b < wal_store::older(
            queue,
            ids,
            current,
            compression_type,
            encryption_type,
        ).len(),
    ensures
        ({
            let out = wal_store::older(queue, ids, current, compression_type, encryption_type);
            out[a].file_id < out[b].file_id
        }),
    decreases ids.len(),
{
    if ids.len() > 0 {
        let front = ids.drop_last();
        lemma_older_step(queue, ids, current, compression_type, encryption_type);
        let before = wal_store::older(queue, front, current, compression_type, encryption_type);
        assert forall|i: int, j: int| 0 <= i < j < front.len() implies #[trigger] front[i]
            < #[trigger] front[j] by {
            assert(ids[i] < ids[j]);
        }
        if b < before.len() {
            older_files_keep_their_order(
                queue,
                front,
                current,
                compression_type,
                encryption_type,
                a,
                b,
            );
        } else {
            let k = only_older_files_are_found(
                queue,
                front,
                current,
                compression_type,
                encryption_type,
                a,
            );
            assert(ids[k] < ids[ids.len() - 1]);
        }
    }
}

// ---------------------------------------------------------------------------
// Files of any order.

/// Whatever the order of a file's ids, a range read hands out only entries that
/// the file has and that were asked for.
pub proof fn range_read_hands_out_only_what_was_asked_for(
    content: Seq<u8>,
    h: AnyHeaderView,
    n: nat,
    from: nat,
    until: Option<nat>,
    step: usize,
    header_required: bool,
)
    requires
        wal_header_v1::parse_any(content) == Ok::<(AnyHeaderView, nat), AnyWalHeaderError>((h, n)),
    ensures
        ({
            let s = reader::entries(content, h, n, 0);
            let q = reader::query(from, until, step);
            reader::range_of(content, q, header_required) matches Ok((d, _)) && forall|j: int|
                0 <= j < d.len() ==> {
                    &&& s.contains(#[trigger] d[j])
                    &&& on_step(from, stride(step), d[j].0)
                    &&& until matches Some(u) ==> d[j].0 <= u
                }
        }),
{
    let q = reader::query(from, until, step);
    wal_header_v1::lemma_parse_any_bounds(content);
    lemma_walk_only(content, h, n, 0, q, None, None);
    let d = reader::walk(content, h, n, 0, q, None, None).delivered;
    assert forall|j: int| 0 <= j < d.len() implies on_step(
        from,
        stride(step),
        (#[trigger] d[j]).0,
    ) by {
        lemma_wanted(d[j].0, from, stride(step));
    }
}

proof fn lemma_walk_only(
    content: Seq<u8>,
    h: AnyHeaderView,
    at: nat,
    index: nat,
    q: Query,
    last_read: Option<nat>,
    last_seen: Option<nat>,
)
    ensures
        ({
            let s = reader::entries(content, h, at, index);
            let d = reader::walk(content, h, at, index, q, last_read, last_seen).delivered;
            forall|j: int|
                0 <= j < d.len() ==> {
                    &&& s.contains(#[trigger] d[j])
                    &&& reader::wanted(d[j].0, q.from, q.step)
                    &&& q.until matches Some(u) ==> d[j].0 <= u
                }
        }),
    decreases content.len() - at,
{
    if at <= content.len() {
        reader::lemma_entry_at_bounds(content, h, at, index);
        if let Some(f) = reader::entry_at(content, h, at, index) {
            if let Some(record) = f.record {
                let s = reader::entries(content, h, at, index);
                let rest = reader::entries(content, h, f.next, index + 1);
                let d = reader::walk(content, h, at, index, q, last_read, last_seen).delivered;
                assert(s == seq![(f.id, record)] + rest);
                assert(s[0] == (f.id, record));
                assert forall|e: (nat, Seq<u8>)| rest.contains(e) implies s.contains(e) by {
                    let i = choose|i: int| 0 <= i < rest.len() && rest[i] == e;
                    assert(s[i + 1] == e);
                }
                if q.past_end(f.id) {
                } else if !reader::wanted(f.id, q.from, q.step) {
                    lemma_walk_only(content, h, f.next, index + 1, q, last_read, Some(f.id));
                } else if q.at_end(f.id) {
                    assert(d =~= seq![(f.id, record)]);
                } else {
                    lemma_walk_only(content, h, f.next, index + 1, q, Some(f.id), Some(f.id));
                    let more = reader::walk(
                        content,
                        h,
                        f.next,
                        index + 1,
                        q,
                        Some(f.id),
                        Some(f.id),
                    ).delivered;
                    assert(d == seq![(f.id, record)] + more);
                    assert forall|j: int| 0 <= j < d.len() implies {
                        &&& s.contains(#[trigger] d[j])
                        &&& reader::wanted(d[j].0, q.from, q.step)
                        &&& q.until matches Some(u) ==> d[j].0 <= u
                    } by {
                        if j > 0 {
                            assert(d[j] == more[j - 1]);
                        }
                    }
                }
            }
        }
    }
}

} // verus!
