//! What the readers make of the files that the writers produce.

use vstd::prelude::*;
use crate::hash;
use crate::reader;
use crate::reader::{Found, Query, RangeOutcome};
use crate::uintn;
use crate::wal_entry;
use crate::wal_entry_v1;
use crate::wal_header;
use crate::wal_header::HeaderView;
use crate::wal_header_v1;
use crate::wal_header_v1::{AnyHeaderView, AnyWalHeaderError, WalHeaderV1};

verus! {

/// Entries packed back to back.
pub open spec fn packed(records: Seq<Seq<u8>>) -> Seq<u8>
    decreases records.len(),
{
    if records.len() == 0 {
        Seq::empty()
    } else {
        wal_entry_v1::entry(records.first()) + packed(records.drop_first())
    }
}

/// A current log file that holds `records`.
pub open spec fn file(h: WalHeaderV1, records: Seq<Seq<u8>>) -> Seq<u8> {
    wal_header_v1::header_bytes(h) + packed(records)
}

/// Records with the ids that their positions give them.
pub open spec fn numbered(first: nat, records: Seq<Seq<u8>>) -> Seq<(nat, Seq<u8>)> {
    Seq::new(records.len(), |i: int| (first + i as nat, records[i]))
}

/// Whether every record is short enough for an entry.
pub open spec fn writable(records: Seq<Seq<u8>>) -> bool {
    forall|i: int| 0 <= i < records.len() ==> (#[trigger] records[i]).len() <= u32::MAX
}

/// Whether a file with this header can hold `n` entries: their ids fit in a
/// `u64`.
pub open spec fn ids_fit(h: WalHeaderV1, n: nat) -> bool {
    h.num_entries_before + n <= u64::MAX + 1
}

pub open spec fn v1_view(h: WalHeaderV1) -> AnyHeaderView {
    AnyHeaderView { version: 1, header: h@ }
}

/// Packing two runs of records is packing them together.
pub proof fn lemma_packed_concat(a: Seq<Seq<u8>>, b: Seq<Seq<u8>>)
    ensures
        packed(a + b) == packed(a) + packed(b),
    decreases a.len(),
{
    if a.len() == 0 {
        assert(a + b =~= b);
        assert(packed(a) + packed(b) =~= packed(b));
    } else {
        assert((a + b).drop_first() =~= a.drop_first() + b);
        assert((a + b).first() == a.first());
        lemma_packed_concat(a.drop_first(), b);
        assert(packed(a) + packed(b) =~= wal_entry_v1::entry(a.first()) + (packed(a.drop_first())
            + packed(b)));
    }
}

proof fn lemma_entry_found(content: Seq<u8>, at: nat, r: Seq<u8>, rest: Seq<u8>, h: WalHeaderV1, index: nat)
    requires
        at <= content.len(),
        content.skip(at as int) == wal_entry_v1::entry(r) + rest,
        r.len() <= u32::MAX,
        h.num_entries_before + index <= u64::MAX,
    ensures
        reader::entry_at(content, v1_view(h), at, index) == Some(
            Found {
                id: h.num_entries_before as nat + index,
                record: Some(r),
                next: at + wal_entry_v1::entry(r).len(),
            },
        ),
{
    wal_entry_v1::entry_roundtrip(r, rest);
}

proof fn lemma_entries_packed(
    content: Seq<u8>,
    at: nat,
    records: Seq<Seq<u8>>,
    tail: Seq<u8>,
    h: WalHeaderV1,
    index: nat,
)
    requires
        at <= content.len(),
        content.skip(at as int) == packed(records) + tail,
        writable(records),
        ids_fit(h, index + records.len()),
        wal_entry_v1::parse(tail) is Err,
    ensures
        reader::entries(content, v1_view(h), at, index) == numbered(
            h.num_entries_before as nat + index,
            records,
        ),
    decreases records.len(),
{
    let first = h.num_entries_before as nat + index;
    if records.len() == 0 {
        assert(content.skip(at as int) =~= tail);
        assert(numbered(first, records) =~= Seq::<(nat, Seq<u8>)>::empty());
    } else {
        let r = records.first();
        let more = records.drop_first();
        let e = wal_entry_v1::entry(r);
        let rest = packed(more) + tail;
        assert(records[0].len() <= u32::MAX);
        assert(content.skip(at as int) =~= e + rest);
        lemma_entry_found(content, at, r, rest, h, index);
        assert forall|i: int| 0 <= i < more.len() implies (#[trigger] more[i]).len()
            <= u32::MAX by {
            assert(more[i] == records[i + 1]);
        }
        let next = at + e.len();
        assert(content.skip(next as int) =~= content.skip(at as int).skip(e.len() as int));
        assert((e + rest).skip(e.len() as int) =~= rest);
        lemma_entries_packed(content, next, more, tail, h, index + 1);
        assert(numbered(first, records) =~= seq![(first, r)] + numbered(first + 1, more));
    }
}

/// A written file reads back: its header, and every record with the id that
/// its position gives it. What follows the entries is ignored if no entry can
/// be read there.
pub proof fn written_file_reads_back(h: WalHeaderV1, records: Seq<Seq<u8>>, tail: Seq<u8>)
    requires
        wal_header_v1::width_error(h) is None,
        writable(records),
        ids_fit(h, records.len()),
        wal_entry_v1::parse(tail) is Err,
    ensures
        ({
            let content = file(h, records) + tail;
            let n = wal_header_v1::header_bytes(h).len();
            &&& wal_header_v1::parse_any(content) == Ok::<(AnyHeaderView, nat), AnyWalHeaderError>(
                (v1_view(h), n),
            )
            &&& reader::entries(content, v1_view(h), n, 0) == numbered(
                h.num_entries_before as nat,
                records,
            )
        }),
{
    let front = wal_header_v1::header_bytes(h);
    let content = file(h, records) + tail;
    assert(content =~= front + (packed(records) + tail));
    wal_header_v1::header_roundtrip(h, packed(records) + tail);
    assert(content.skip(front.len() as int) =~= packed(records) + tail);
    lemma_entries_packed(content, front.len(), records, tail, h, 0);
}

/// A file cut anywhere within its last entry reads back without that entry,
/// and with everything before it.
pub proof fn torn_tail_is_dropped(h: WalHeaderV1, records: Seq<Seq<u8>>, last: Seq<u8>, k: int)
    requires
        wal_header_v1::width_error(h) is None,
        writable(records),
        ids_fit(h, records.len()),
        last.len() <= u32::MAX,
        0 <= k < wal_entry_v1::entry(last).len(),
    ensures
        ({
            let content = file(h, records) + wal_entry_v1::entry(last).take(k);
            let n = wal_header_v1::header_bytes(h).len();
            &&& wal_header_v1::parse_any(content) == Ok::<(AnyHeaderView, nat), AnyWalHeaderError>(
                (v1_view(h), n),
            )
            &&& reader::entries(content, v1_view(h), n, 0) == numbered(
                h.num_entries_before as nat,
                records,
            )
        }),
{
    wal_entry_v1::entry_prefix_is_truncated(last, k);
    written_file_reads_back(h, records, wal_entry_v1::entry(last).take(k));
}

/// A file with a damaged byte in a record or a checksum reads back up to that
/// entry: the entries before it keep their ids, and nothing behind it is read
/// under a wrong one.
pub proof fn damaged_entry_ends_the_file(
    h: WalHeaderV1,
    records: Seq<Seq<u8>>,
    damaged: Seq<u8>,
    i: int,
    b: u8,
    rest: Seq<u8>,
)
    requires
        wal_header_v1::width_error(h) is None,
        writable(records),
        ids_fit(h, records.len()),
        damaged.len() <= u32::MAX,
        crate::varint::varint(damaged.len()).len() <= i < wal_entry_v1::entry(damaged).len(),
        wal_entry_v1::entry(damaged)[i] != b,
    ensures
        ({
            let content = file(h, records) + (wal_entry_v1::entry(damaged).update(i, b) + rest);
            let n = wal_header_v1::header_bytes(h).len();
            reader::entries(content, v1_view(h), n, 0) == numbered(
                h.num_entries_before as nat,
                records,
            )
        }),
{
    wal_entry_v1::entry_corruption_is_detected(damaged, rest, i, b);
    written_file_reads_back(h, records, wal_entry_v1::entry(damaged).update(i, b) + rest);
}

/// The id of every entry read from a current file is the file's first id plus
/// the entry's position.
pub proof fn ids_are_positional(
    content: Seq<u8>,
    h: AnyHeaderView,
    at: nat,
    index: nat,
    i: int,
)
    requires
        h.version == 1,
        0 <= i < reader::entries(content, h, at, index).len(),
    ensures
        reader::entries(content, h, at, index)[i].0 == h.header.num_entries_before + index + i,
    decreases i,
{
    reader::lemma_entry_at_bounds(content, h, at, index);
    if i > 0 {
        let f = reader::entry_at(content, h, at, index)->Some_0;
        ids_are_positional(content, h, f.next, index + 1, i - 1);
    }
}

// ---------------------------------------------------------------------------
// Range reads.

/// The entries that are asked for, in order.
pub open spec fn pick(s: Seq<(nat, Seq<u8>)>, q: Query) -> Seq<(nat, Seq<u8>)>
    decreases s.len(),
{
    if s.len() == 0 {
        s
    } else if asked(s.first().0, q) {
        seq![s.first()] + pick(s.drop_first(), q)
    } else {
        pick(s.drop_first(), q)
    }
}

/// Whether ids increase from entry to entry.
pub open spec fn ascending(s: Seq<(nat, Seq<u8>)>) -> bool {
    forall|i: int, j: int| 0 <= i < j < s.len() ==> (#[trigger] s[i]).0 < (#[trigger] s[j]).0
}

/// Whether an id is one of those asked for.
pub open spec fn asked(id: nat, q: Query) -> bool {
    reader::wanted(id, q.from, q.step) && !q.past_end(id)
}

/// The last id that a file has: that of the entry that could not be read, or
/// else of the last entry.
pub open spec fn last_id(s: Seq<(nat, Seq<u8>)>, unread: Option<nat>) -> Option<nat> {
    if unread is Some {
        unread
    } else if s.len() > 0 {
        Some(s.last().0)
    } else {
        None
    }
}

/// How a range read of a file with these entries ends, behind which there may
/// be one that could not be read: it is complete if the file reaches the end of
/// the range and that entry was not asked for.
pub open spec fn expected_outcome(
    s: Seq<(nat, Seq<u8>)>,
    unread: Option<nat>,
    q: Query,
) -> RangeOutcome {
    let last = last_id(s, unread);
    if (last matches Some(id) && q.at_end(id)) && !(unread matches Some(id) && asked(id, q)) {
        RangeOutcome::Complete
    } else {
        RangeOutcome::Partial {
            last_read: if pick(s, q).len() > 0 {
                Some(pick(s, q).last().0)
            } else {
                None
            },
            last_in_file: match last {
                Some(id) => id,
                None => q.from,
            },
        }
    }
}

/// Whether the ids of a file increase, up to the entry that could not be read.
pub open spec fn in_order(s: Seq<(nat, Seq<u8>)>, unread: Option<nat>) -> bool {
    &&& ascending(s)
    &&& s.len() > 0 && unread is Some ==> s.last().0 < unread->0
}

proof fn lemma_pick_past(s: Seq<(nat, Seq<u8>)>, q: Query)
    requires
        forall|i: int| 0 <= i < s.len() ==> q.past_end((#[trigger] s[i]).0),
    ensures
        pick(s, q).len() == 0,
    decreases s.len(),
{
    if s.len() > 0 {
        assert(q.past_end(s[0].0));
        let rest = s.drop_first();
        assert forall|i: int| 0 <= i < rest.len() implies q.past_end((#[trigger] rest[i]).0) by {
            assert(rest[i] == s[i + 1]);
        }
        lemma_pick_past(rest, q);
    }
}

/// Whether the ids of a file come behind one that was seen before.
pub open spec fn follows(s: Seq<(nat, Seq<u8>)>, unread: Option<nat>, last_seen: Option<nat>) -> bool {
    last_seen matches Some(l) ==> {
        &&& s.len() > 0 ==> l < s[0].0
        &&& unread matches Some(id) ==> l < id
    }
}

/// What a walk hands out and where it ends.
pub proof fn lemma_walk(
    content: Seq<u8>,
    h: AnyHeaderView,
    at: nat,
    index: nat,
    q: Query,
    last_read: Option<nat>,
    last_seen: Option<nat>,
)
    requires
        ascending(reader::entries(content, h, at, index)),
    ensures
        ({
            let w = reader::walk(content, h, at, index, q, last_read, last_seen);
            let s = reader::entries(content, h, at, index);
            let u = reader::unread(content, h, at, index);
            let last = match last_id(s, u) {
                Some(id) => Some(id),
                None => last_seen,
            };
            let done = (last matches Some(id) && q.at_end(id)) && !(u matches Some(id) && asked(
                id,
                q,
            ));
            &&& w.delivered == pick(s, q)
            &&& in_order(s, u) && follows(s, u, last_seen) ==> {
                &&& done <==> (!w.missed && (w.complete || (w.last_seen matches Some(id)
                    && q.at_end(id))))
                &&& !done ==> {
                    &&& w.last_read == (if pick(s, q).len() > 0 {
                        Some(pick(s, q).last().0)
                    } else {
                        last_read
                    })
                    &&& w.last_seen == last
                }
            }
        }),
    decreases content.len() - at,
{
    let w = reader::walk(content, h, at, index, q, last_read, last_seen);
    let s = reader::entries(content, h, at, index);
    if at <= content.len() {
        reader::lemma_entry_at_bounds(content, h, at, index);
        if let Some(f) = reader::entry_at(content, h, at, index) {
            if let Some(record) = f.record {
                let rest = reader::entries(content, h, f.next, index + 1);
                assert(s.first() == (f.id, record));
                assert(s.drop_first() =~= rest);
                assert forall|i: int, j: int| 0 <= i < j < rest.len() implies (#[trigger] rest[i]).0
                    < (#[trigger] rest[j]).0 by {
                    assert(rest[i] == s[i + 1] && rest[j] == s[j + 1]);
                }
                assert forall|i: int| 0 <= i < rest.len() implies f.id < (#[trigger] rest[i]).0 by {
                    assert(rest[i] == s[i + 1]);
                    assert(s[0].0 < s[i + 1].0);
                }
                if rest.len() > 0 {
                    assert(s.last() == rest.last());
                    assert(rest[rest.len() - 1].0 > f.id);
                }
                if q.past_end(f.id) {
                    lemma_pick_past(rest, q);
                } else if !reader::wanted(f.id, q.from, q.step) {
                    lemma_walk(content, h, f.next, index + 1, q, last_read, Some(f.id));
                } else if q.at_end(f.id) {
                    lemma_pick_past(rest, q);
                    assert(w.delivered =~= pick(s, q));
                } else {
                    lemma_walk(content, h, f.next, index + 1, q, Some(f.id), Some(f.id));
                    let p = pick(rest, q);
                    let e = (f.id, record);
                    assert(pick(s, q) == seq![e] + p);
                    if p.len() > 0 {
                        assert((seq![e] + p).last() == p.last());
                    }
                }
            } else {
                assert(s.len() == 0);
                assert(pick(s, q) =~= Seq::<(nat, Seq<u8>)>::empty());
            }
        } else {
            assert(pick(s, q) =~= Seq::<(nat, Seq<u8>)>::empty());
        }
    } else {
        assert(pick(s, q) =~= Seq::<(nat, Seq<u8>)>::empty());
    }
}

/// A range read delivers, in order, exactly the readable entries that were
/// asked for, in any file whose ids increase.
pub proof fn range_read_selects(content: Seq<u8>, h: AnyHeaderView, at: nat, q: Query)
    requires
        ascending(reader::entries(content, h, at, 0)),
    ensures
        reader::walk(content, h, at, 0, q, None, None).delivered == pick(
            reader::entries(content, h, at, 0),
            q,
        ),
{
    lemma_walk(content, h, at, 0, q, None, None);
}

/// The ids that a file has: those of its readable entries, and of the entry
/// behind them that could not be read, if its header can be.
pub open spec fn ids_of(s: Seq<(nat, Seq<u8>)>, unread: Option<nat>) -> Seq<nat> {
    let ids = Seq::new(s.len(), |i: int| s[i].0);
    match unread {
        Some(id) => ids.push(id),
        None => ids,
    }
}

/// Whether an id was delivered.
pub open spec fn was_delivered(d: Seq<(nat, Seq<u8>)>, id: nat) -> bool {
    exists|j: int| 0 <= j < d.len() && (#[trigger] d[j]).0 == id
}

/// Whether a file reaches the end of what was asked for.
pub open spec fn reaches_end(ids: Seq<nat>, q: Query) -> bool {
    exists|i: int| 0 <= i < ids.len() && q.at_end(#[trigger] ids[i])
}

/// An entry that is asked for is picked.
pub proof fn lemma_pick_has(s: Seq<(nat, Seq<u8>)>, q: Query, i: int)
    requires
        0 <= i < s.len(),
        asked(s[i].0, q),
    ensures
        was_delivered(pick(s, q), s[i].0),
        exists|j: int| 0 <= j < pick(s, q).len() && #[trigger] pick(s, q)[j] == s[i],
    decreases s.len(),
{
    let rest = s.drop_first();
    let p = pick(rest, q);
    let d = pick(s, q);
    if i == 0 {
        assert(d[0] == s[0]);
    } else {
        assert(rest[i - 1] == s[i]);
        lemma_pick_has(rest, q, i - 1);
        let j = choose|j: int| 0 <= j < p.len() && #[trigger] p[j] == s[i];
        if asked(s.first().0, q) {
            assert(d[j + 1] == p[j]);
        } else {
            assert(d[j] == p[j]);
        }
    }
}

/// An entry that is picked is one of those asked for.
pub proof fn lemma_pick_only(s: Seq<(nat, Seq<u8>)>, q: Query, j: int)
    requires
        0 <= j < pick(s, q).len(),
    ensures
        exists|i: int| 0 <= i < s.len() && #[trigger] s[i] == pick(s, q)[j],
        asked(pick(s, q)[j].0, q),
    decreases s.len(),
{
    let rest = s.drop_first();
    let d = pick(s, q);
    if asked(s.first().0, q) && j == 0 {
        assert(s[0] == d[0]);
    } else {
        let k = if asked(s.first().0, q) {
            j - 1
        } else {
            j
        };
        assert(d[j] == pick(rest, q)[k]);
        lemma_pick_only(rest, q, k);
        let i = choose|i: int| 0 <= i < rest.len() && #[trigger] rest[i] == pick(rest, q)[k];
        assert(s[i + 1] == rest[i]);
    }
}

/// What is picked keeps its order.
pub proof fn lemma_pick_ascends(s: Seq<(nat, Seq<u8>)>, q: Query)
    requires
        ascending(s),
    ensures
        ascending(pick(s, q)),
    decreases s.len(),
{
    if s.len() > 0 {
        let rest = s.drop_first();
        assert forall|i: int, j: int| 0 <= i < j < rest.len() implies (#[trigger] rest[i]).0 < (
        #[trigger] rest[j]).0 by {
            assert(rest[i] == s[i + 1] && rest[j] == s[j + 1]);
        }
        lemma_pick_ascends(rest, q);
        let p = pick(rest, q);
        let d = pick(s, q);
        if asked(s.first().0, q) {
            assert forall|i: int, j: int| 0 <= i < j < d.len() implies (#[trigger] d[i]).0 < (
            #[trigger] d[j]).0 by {
                assert(d[j] == p[j - 1]);
                if i == 0 {
                    lemma_pick_only(rest, q, j - 1);
                    let k = choose|k: int| 0 <= k < rest.len() && #[trigger] rest[k] == p[j - 1];
                    assert(rest[k] == s[k + 1]);
                    assert(s[0].0 < s[k + 1].0);
                } else {
                    assert(d[i] == p[i - 1]);
                }
            }
        }
    }
}

/// A range read is complete if and only if the file reaches the end of the
/// range and every entry of the range that the file has was delivered. One
/// whose record is cut short or damaged was not.
pub proof fn complete_read_is_whole(content: Seq<u8>, h: AnyHeaderView, at: nat, q: Query)
    requires
        in_order(reader::entries(content, h, at, 0), reader::unread(content, h, at, 0)),
    ensures
        ({
            let w = reader::walk(content, h, at, 0, q, None, None);
            let ids = ids_of(reader::entries(content, h, at, 0), reader::unread(content, h, at, 0));
            reader::outcome_of(w, q) is Complete <==> {
                &&& reaches_end(ids, q)
                &&& forall|i: int|
                    0 <= i < ids.len() && asked(#[trigger] ids[i], q) ==> was_delivered(
                        w.delivered,
                        ids[i],
                    )
            }
        }),
{
    let s = reader::entries(content, h, at, 0);
    let u = reader::unread(content, h, at, 0);
    let ids = ids_of(s, u);
    let w = reader::walk(content, h, at, 0, q, None, None);
    lemma_walk(content, h, at, 0, q, None, None);
    assert forall|i: int| 0 <= i < s.len() implies #[trigger] ids[i] == s[i].0 by {}
    assert forall|i: int| 0 <= i < s.len() && asked(#[trigger] ids[i], q) implies was_delivered(
        w.delivered,
        ids[i],
    ) by {
        lemma_pick_has(s, q, i);
    }
    // The last id is the highest.
    if ids.len() > 0 {
        let last = ids[ids.len() - 1];
        assert(last_id(s, u) == Some(last));
        assert forall|i: int| 0 <= i < ids.len() implies #[trigger] ids[i] <= last by {
            if u is Some && i < s.len() {
                if i < s.len() - 1 {
                    assert(s[i].0 < s[s.len() - 1].0);
                }
            } else if i < s.len() - 1 {
                assert(s[i].0 < s[s.len() - 1].0);
            }
        }
        if reaches_end(ids, q) {
            let i = choose|i: int| 0 <= i < ids.len() && q.at_end(#[trigger] ids[i]);
            assert(q.at_end(last));
        }
    }
    // The entry that could not be read was not delivered.
    if let Some(id) = u {
        assert(ids[s.len() as int] == id);
        if was_delivered(w.delivered, id) {
            let j = choose|j: int|
                0 <= j < w.delivered.len() && (#[trigger] w.delivered[j]).0 == id;
            lemma_pick_only(s, q, j);
            let i = choose|i: int| 0 <= i < s.len() && #[trigger] s[i] == pick(s, q)[j];
            if i < s.len() - 1 {
                assert(s[i].0 < s[s.len() - 1].0);
            }
            assert(false);
        }
    }
}

/// An entry of a current file that cannot be read has no id.
proof fn lemma_nothing_unread(content: Seq<u8>, h: AnyHeaderView, at: nat, index: nat)
    requires
        h.version != 0,
    ensures
        reader::unread(content, h, at, index) is None,
    decreases content.len() - at,
{
    if at <= content.len() {
        reader::lemma_entry_at_bounds(content, h, at, index);
        if let Some(f) = reader::entry_at(content, h, at, index) {
            lemma_nothing_unread(content, h, f.next, index + 1);
        }
    }
}

/// A range read of a written file delivers, in order, exactly the records that
/// were asked for, under their ids, and says truly whether the file reaches
/// the end of the range, and if it does not, how far it got.
pub proof fn range_read_of_written_file(
    h: WalHeaderV1,
    records: Seq<Seq<u8>>,
    tail: Seq<u8>,
    q: Query,
    header_required: bool,
)
    requires
        wal_header_v1::width_error(h) is None,
        writable(records),
        ids_fit(h, records.len()),
        wal_entry_v1::parse(tail) is Err,
    ensures
        ({
            let s = numbered(h.num_entries_before as nat, records);
            reader::range_of(file(h, records) + tail, q, header_required) == Ok::<
                (Seq<(nat, Seq<u8>)>, RangeOutcome),
                AnyWalHeaderError,
            >((pick(s, q), expected_outcome(s, None, q)))
        }),
{
    let content = file(h, records) + tail;
    let n = wal_header_v1::header_bytes(h).len();
    let s = numbered(h.num_entries_before as nat, records);
    written_file_reads_back(h, records, tail);
    wal_header_v1::header_size_bounds(h);
    lemma_walk(content, v1_view(h), n, 0, q, None, None);
    lemma_nothing_unread(content, v1_view(h), n, 0);
}

// ---------------------------------------------------------------------------
// Files of the first format.

/// An entry of the first format, with its record.
pub open spec fn old_entry(e: (nat, Seq<u8>), h: HeaderView) -> Seq<u8> {
    wal_entry::header_bytes(wal_entry::header_of(e.0, e.1), h) + e.1
}

/// Entries of the first format packed back to back.
pub open spec fn old_packed(es: Seq<(nat, Seq<u8>)>, h: HeaderView) -> Seq<u8>
    decreases es.len(),
{
    if es.len() == 0 {
        Seq::empty()
    } else {
        old_entry(es.first(), h) + old_packed(es.drop_first(), h)
    }
}

/// Whether every id and record size fits the file's fields.
pub open spec fn old_writable(es: Seq<(nat, Seq<u8>)>, h: HeaderView) -> bool {
    forall|i: int|
        0 <= i < es.len() ==> wal_entry::fits(
            wal_entry::header_of((#[trigger] es[i]).0, es[i].1),
            h,
        )
}

pub open spec fn v0_view(h: HeaderView) -> AnyHeaderView {
    AnyHeaderView { version: 0, header: h }
}

/// Whether no whole entry of the first format is at the front of these bytes:
/// its header cannot be read, or its record is cut short or damaged.
pub open spec fn unreadable(tail: Seq<u8>, h: HeaderView) -> bool {
    wal_entry::parse(tail, h) matches Ok(e) ==> {
        let start = wal_entry::header_len(h);
        let end = start + e.record_size;
        end > tail.len() || hash::xxh64_of(tail.subrange(start as int, end as int), 0) != e.xxhash
    }
}

/// The id in an entry header at the front of these bytes.
pub open spec fn tail_id(tail: Seq<u8>, h: HeaderView) -> Option<nat> {
    match wal_entry::parse(tail, h) {
        Ok(e) => Some(e.entry_id),
        Err(_) => None,
    }
}

proof fn lemma_old_entry_at(
    front: Seq<u8>,
    e: (nat, Seq<u8>),
    rest: Seq<u8>,
    h: HeaderView,
    index: nat,
)
    requires
        wal_entry::fits(wal_entry::header_of(e.0, e.1), h),
    ensures
        reader::entry_at(front + old_entry(e, h) + rest, v0_view(h), front.len(), index) == Some(
            Found { id: e.0, record: Some(e.1), next: front.len() + old_entry(e, h).len() },
        ),
{
    let content = front + old_entry(e, h) + rest;
    let head = wal_entry::header_of(e.0, e.1);
    let s = wal_entry::header_bytes(head, h);
    wal_entry::entry_header_roundtrip(head, h, e.1 + rest);
    assert(content.skip(front.len() as int) =~= s + (e.1 + rest));
    let start = front.len() + s.len();
    let end = start + e.1.len();
    assert(content.subrange(start as int, end as int) =~= e.1);
}

proof fn lemma_old_entries_packed(
    front: Seq<u8>,
    es: Seq<(nat, Seq<u8>)>,
    tail: Seq<u8>,
    h: HeaderView,
    index: nat,
)
    requires
        old_writable(es, h),
        unreadable(tail, h),
    ensures
        reader::entries(front + old_packed(es, h) + tail, v0_view(h), front.len(), index) == es,
        reader::unread(front + old_packed(es, h) + tail, v0_view(h), front.len(), index) == tail_id(
            tail,
            h,
        ),
    decreases es.len(),
{
    let content = front + old_packed(es, h) + tail;
    if es.len() == 0 {
        assert(content.skip(front.len() as int) =~= tail);
        assert(es =~= Seq::<(nat, Seq<u8>)>::empty());
        if let Ok(e) = wal_entry::parse(tail, h) {
            let start = front.len() + wal_entry::header_len(h);
            let end = start + e.record_size;
            if end <= content.len() {
                assert(content.subrange(start as int, end as int) =~= tail.subrange(
                    wal_entry::header_len(h) as int,
                    (wal_entry::header_len(h) + e.record_size) as int,
                ));
            }
        }
    } else {
        let e = es.first();
        let more = es.drop_first();
        assert(es[0] == e);
        let rest = old_packed(more, h) + tail;
        assert(content =~= front + old_entry(e, h) + rest);
        lemma_old_entry_at(front, e, rest, h, index);
        assert forall|i: int| 0 <= i < more.len() implies wal_entry::fits(
            wal_entry::header_of((#[trigger] more[i]).0, more[i].1),
            h,
        ) by {
            assert(more[i] == es[i + 1]);
        }
        let front2 = front + old_entry(e, h);
        lemma_old_entries_packed(front2, more, tail, h, index + 1);
        assert(content =~= front2 + old_packed(more, h) + tail);
        assert(es =~= seq![e] + more);
    }
}

/// A file of the first format reads back with the ids that its entries carry.
/// What follows the entries is ignored if no whole entry can be read there.
pub proof fn old_file_reads_back(h: HeaderView, es: Seq<(nat, Seq<u8>)>, tail: Seq<u8>)
    requires
        h.valid(),
        h.num_entries_before < uintn::radix(16),
        old_writable(es, h),
        unreadable(tail, h),
    ensures
        ({
            let content = wal_header::header_bytes(h) + old_packed(es, h) + tail;
            let n = wal_header::header_bytes(h).len();
            &&& wal_header_v1::parse_any(content) == Ok::<(AnyHeaderView, nat), AnyWalHeaderError>(
                (v0_view(h), n),
            )
            &&& reader::entries(content, v0_view(h), n, 0) == es
            &&& reader::unread(content, v0_view(h), n, 0) == tail_id(tail, h)
        }),
{
    let front = wal_header::header_bytes(h);
    let content = front + old_packed(es, h) + tail;
    assert(content =~= front + (old_packed(es, h) + tail));
    wal_header::header_roundtrip(h, old_packed(es, h) + tail);
    lemma_old_entries_packed(front, es, tail, h, 0);
}

/// A range read of a file of the first format delivers, in order, exactly the
/// entries that were asked for. It is complete only if the file reaches the end
/// of the range and the entry behind the readable ones, if there is one, was
/// not asked for.
pub proof fn range_read_of_old_file(
    h: HeaderView,
    es: Seq<(nat, Seq<u8>)>,
    tail: Seq<u8>,
    q: Query,
    header_required: bool,
)
    requires
        h.valid(),
        h.num_entries_before < uintn::radix(16),
        old_writable(es, h),
        unreadable(tail, h),
        in_order(es, tail_id(tail, h)),
    ensures
        reader::range_of(
            wal_header::header_bytes(h) + old_packed(es, h) + tail,
            q,
            header_required,
        ) == Ok::<(Seq<(nat, Seq<u8>)>, RangeOutcome), AnyWalHeaderError>(
            (pick(es, q), expected_outcome(es, tail_id(tail, h), q)),
        ),
{
    let content = wal_header::header_bytes(h) + old_packed(es, h) + tail;
    let n = wal_header::header_bytes(h).len();
    old_file_reads_back(h, es, tail);
    lemma_walk(content, v0_view(h), n, 0, q, None, None);
}

} // verus!
